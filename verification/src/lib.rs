//! The diff of a file, made for showing: hunks of lines, with the words highlighted that changed
//! between a deleted line and the added line that replaces it.
//!
//! A diff starts as a list of [`line::PatchLine`]s, which git prints. [`file_diff`] sorts them into
//! hunks and [`inline`] adds the highlights: it pairs deleted with added lines, by
//! [`similarity`] where there are more of one than of the other ([`pairing`]), and [`highlight`]
//! finds the changed words of a pair, which are the [`token`]s that a diff of both lines reports as
//! [`change`]d. [`source`] says what git has to be asked for and shows files that git does not
//! track yet.
pub mod change;
pub mod error;
pub mod file_diff;
pub mod hash;
pub mod highlight;
pub mod inline;
pub mod line;
pub mod pairing;
pub mod similarity;
pub mod source;
pub mod text;
pub mod token;

pub use error::DiffError;
pub use file_diff::{raw_diff_to_file_diff, FileDiff, Hunk};
pub use inline::add_inline_highlights;
pub use line::{
    DiffLine, DiffLinePosition, DiffLineType, HunkHeader, InlineHighlight, PatchLine,
};
pub use source::DiffOptions;
