//! Escaping of text for embedding in JavaScript source as a single-quoted
//! string literal.
//!
//! The `escape` module builds the literal; the `literal` module gives a
//! specification-level evaluator for such literals and proves that escaping
//! round-trips through it.

pub mod escape;
pub mod literal;

pub use escape::escape;
pub use escape::Escaper;
