//! Line-comment toggling over a line-indexed text buffer.
//!
//! The crate classifies a block of selected lines as commented or not under a
//! line-prefix convention, computes the shared indentation column of the
//! block, and emits one atomic batch of character-offset edits that comments
//! or uncomments every eligible line of every selection.

pub mod buffer;
pub mod comment;
pub mod laws;
pub mod transaction;
