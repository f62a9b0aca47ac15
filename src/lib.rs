//! Indentation tracking for off-side-rule lexers.
//!
//! An [`IndentStack`] remembers the whitespace text that opened each nesting
//! level of the lines seen so far, and classifies the leading whitespace of
//! each new line as an indent, a dedent by some number of levels, or no
//! change. Text is compared character by character (Unicode scalar values);
//! for ASCII whitespace this is the same as comparing bytes.
use vstd::prelude::*;

mod error;
pub mod model;
mod stack;

pub use error::IndentError;
pub use stack::IndentStack;
