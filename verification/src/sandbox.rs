//! Reporting what a command left behind after it ran: its output as text
//! and its exit code.  Running the command is done elsewhere.

use vstd::prelude::*;
use vstd::utf8::{decode_utf8, valid_utf8};

verus! {

/// The exit code reported for a command that ended without one.
pub const NO_EXIT_CODE: i32 = -1;

/// The text that `bytes` decode to when every invalid sequence gives way to
/// the replacement character.
pub uninterp spec fn lossy_text(bytes: Seq<u8>) -> Seq<char>;

/// `String::from_utf8_lossy`, with the result as an owned string.  Bytes
/// that are valid UTF-8 decode to the text they encode; of other bytes only
/// the name of the result is known.
#[verifier::external_body]
fn decode_lossy(bytes: &Vec<u8>) -> (text: String)
    ensures
        text@ == lossy_text(bytes@),
        valid_utf8(bytes@) ==> text@ == decode_utf8(bytes@),
{
    String::from_utf8_lossy(bytes).into_owned()
}

/// The exit code to report: the command's own, or `NO_EXIT_CODE` where it
/// ended without one.
pub open spec fn reported_code(code: Option<i32>) -> i32 {
    match code {
        Some(c) => c,
        None => NO_EXIT_CODE,
    }
}

/// What is reported of a command that ran: its standard output and its
/// standard error as text, and its exit code.
pub fn command_report(stdout: &Vec<u8>, stderr: &Vec<u8>, code: Option<i32>) -> (report: (
    String,
    String,
    i32,
))
    ensures
        report.0@ == lossy_text(stdout@),
        report.1@ == lossy_text(stderr@),
        valid_utf8(stdout@) ==> report.0@ == decode_utf8(stdout@),
        valid_utf8(stderr@) ==> report.1@ == decode_utf8(stderr@),
        report.2 == reported_code(code),
{
    let out = decode_lossy(stdout);
    let err = decode_lossy(stderr);
    let exit_code = match code {
        Some(c) => c,
        None => NO_EXIT_CODE,
    };
    (out, err, exit_code)
}

} // verus!
