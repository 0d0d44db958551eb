//! Front end of a compiler for a small stack-based concatenative language.
//!
//! Source text runs through a four-stage pipeline: the lexer turns text into
//! a flat token sequence, the structural folder resolves bracket nesting into
//! a tree, the AST builder turns that tree into top-level declarations, and
//! the name-map builder collects declarations into a dictionary keyed by
//! identifier. Numeric literal token text is decoded lazily by the literal
//! decoder. Each stage is a pure function with a full functional contract.

pub mod errors;
pub mod text;
pub mod numeric_literal;
pub mod tokenizer;
pub mod ast;
pub mod namemap;
