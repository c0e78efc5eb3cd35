//! Locating prose issues in documentation, curating the fixes and patching
//! the sources at their exact byte coordinates.
//!
//! Three pieces share one coordinate system. [`markdown`] projects formatted
//! documentation to plain text that a checker can read, and leads from a range
//! of that text back to the bytes it was copied from. [`action::interactive`]
//! turns the suggestions of the checkers into edits that the user approved.
//! [`action`] applies such edits to the lines of a file, each at the columns
//! that the line had before any edit.

pub mod action;
pub mod checker;
pub mod markdown;
pub mod ordered;
pub mod span;
pub mod suggestion;
pub mod text;

pub use action::interactive::{Pick, State, UserPicked};
pub use action::{correct_lines, Action, BandAid, Failure, PatchError};
pub use checker::{check, tokenize};
pub use markdown::PlainOverlay;
pub use span::{Range, Span};
pub use suggestion::{Suggestion, SuggestionSet};
