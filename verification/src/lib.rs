//! Line-level text diffing and exact-match patching.
//!
//! Two texts are split into lines (`lines`), the lines are aligned and the
//! changes grouped with a bounded amount of unchanged context (`aligner`),
//! and the groups are rendered as a unified-style diff (`render`, `diff`).
//! What the aligner answers is held to what an alignment is (`paths`), to
//! what a diff is (`groups`) and to the context size (`context`) before any
//! of it is shown.  A separate operation replaces the first occurrence of a
//! piece of text (`patch`).
//!
//! Two small modules serve callers that walk directories and run commands:
//! `listing` chooses and orders the paths of a walk, `sandbox` reports what
//! a command left behind.

pub mod aligner;
pub mod context;
pub mod diff;
pub mod groups;
pub mod lines;
pub mod listing;
pub mod ops;
pub mod patch;
pub mod paths;
pub mod render;
pub mod sandbox;
pub mod separators;
pub mod text;

pub use diff::{align, diff_files, diff_with_context, line_changes};
pub use patch::{apply_edit, EditError};
