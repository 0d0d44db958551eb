//! Error taxonomy of the front end.
//!
//! Every stage either returns a fully valid result or a single terminal
//! error; nothing is downgraded or silently corrected. Each error carries
//! positional context: a character offset for lexing, a token offset for
//! folding, a node offset within the enclosing group for parsing.

use vstd::prelude::*;

verus! {

/// A fatal lexing failure. Positions are character offsets into the input.
#[derive(Debug, Clone, Copy, PartialEq, Eq, Structural)]
pub enum LexError {
    /// A string literal was still open at end of input; `at` is the offset
    /// of its opening quote.
    UnterminatedString { at: usize },
    /// A character literal was still open at end of input; `at` is the
    /// offset of its opening quote.
    UnterminatedChar { at: usize },
    /// The character at `at` followed an escape introducer but is not a
    /// recognized escape.
    BadEscape { at: usize },
    /// A character literal did not contain exactly one character; `at` is
    /// the offset where the closing quote was expected or found early.
    CharNotSingle { at: usize },
}

/// A fatal numeric-literal decoding failure.
#[derive(Debug, Clone, Copy, PartialEq, Eq, Structural)]
pub enum LiteralError {
    /// The numeric body does not parse as a number of the inferred kind.
    InvalidBody,
    /// The digits after the signature character do not form a bit width.
    InvalidWidth,
    /// The exponent after the scientific separator does not parse as the
    /// kind the literal requires (for integer kinds a negative exponent is
    /// rejected here).
    InvalidExponent,
    /// The literal denotes a value outside the range of its kind.
    ValueOutOfRange,
}

/// A fatal structural-folding failure. Positions are token offsets.
#[derive(Debug, Clone, Copy, PartialEq, Eq, Structural)]
pub enum StructureError {
    /// The close marker at `at` is of the other kind than the innermost
    /// open bracket.
    MismatchedClose { at: usize },
    /// The close marker at `at` has no matching open bracket.
    UnexpectedClose { at: usize },
    /// End of stream was reached while the bracket opened at `open_at` was
    /// still open.
    Unterminated { open_at: usize },
    /// The open marker at `at` would nest deeper than the folder's bound.
    NestingTooDeep { at: usize },
}

/// A fatal AST-building failure. Positions are node offsets within the
/// sequence of folded nodes being read (for nested groups, within the
/// group's own child sequence).
#[derive(Debug, Clone, Copy, PartialEq, Eq, Structural)]
pub enum ParseError {
    /// The node at `at` cannot start a top-level item.
    UnexpectedTopLevel { at: usize },
    /// An identifier was required at `at` but something else stood there.
    MissingIdent { at: usize },
    /// The sigil sequence starting at `at` matches no declaration form.
    MalformedSigils { at: usize },
    /// A typing annotation's identifier at `at` was not followed by a
    /// square group.
    MalformedTyping { at: usize },
    /// The node sequence ended at offset `at` where more input was needed.
    UnexpectedEnd { at: usize },
    /// The numeric literal at `at` failed to decode.
    Literal { at: usize, err: LiteralError },
}

/// A fatal name-map building failure.
#[derive(Debug, Clone, PartialEq, Eq)]
pub enum NameMapError {
    /// A second declaration was made under an identifier already present.
    DuplicateDeclaration { name: String },
    /// The word declaration at node offset `at` has a value that is neither
    /// a block, an alias target, nor a constant.
    BadWordValue { at: usize },
}

/// Mathematical image of a `NameMapError`.
pub enum NameMapErrorV {
    DuplicateDeclaration { name: Seq<char> },
    BadWordValue { at: int },
}

impl View for NameMapError {
    type V = NameMapErrorV;

    open spec fn view(&self) -> NameMapErrorV {
        match self {
            NameMapError::DuplicateDeclaration { name } => NameMapErrorV::DuplicateDeclaration {
                name: name@,
            },
            NameMapError::BadWordValue { at } => NameMapErrorV::BadWordValue { at: *at as int },
        }
    }
}

/// A failure of the combined fold-and-build pass.
#[derive(Debug, Clone, Copy, PartialEq, Eq, Structural)]
pub enum FrontendError {
    Structure(StructureError),
    Parse(ParseError),
}

} // verus!
