//! Rewriting a text by replacing spans of it.
//!
//! The spans are given by line and column, as a tokenizer reports them. A
//! [`Rewriter`] takes them from left to right; it finds the byte offsets of
//! each with an [`OffsetCalculator`], which reads the text only once, and
//! writes the text between the spans and the replacements to its output.
pub mod backup;
pub mod interface;
pub mod offset_based_rewriter;
pub mod offset_calculator;
pub mod rewriter;
pub mod span;
pub mod splice;
pub mod text;
pub mod utf8;

pub use offset_calculator::OffsetCalculator;
pub use rewriter::Rewriter;
pub use span::{LineColumn, Span};
