//! Error taxonomy. The scanner and the parser are fail-fast: the first
//! syntax error aborts the current call and is returned as a value; the core
//! never prints or exits.

use vstd::prelude::*;

verus! {

/// The fixed reasons a `SyntaxError` can arise: the scanner's two failure
/// modes and the parser's two (plus a guard for a literal-kind token that
/// carries no literal payload).
#[derive(Debug, Clone, Copy, PartialEq, Eq, Structural)]
pub enum SyntaxCategory {
    UnexpectedCharacter,
    UnterminatedString,
    ExpectedExpression,
    ExpectedRightParen,
    InvalidLiteral,
}

/// Errors surfaced by the front end. The core itself only ever constructs
/// `SyntaxError(line, category, offending text)`; the remaining variants
/// belong to the driver around it (invalid invocation, the interactive
/// prompt, wrapped foreign errors).
#[derive(Debug, Clone)]
pub enum Error {
    InputError(String),
    Repl(String),
    SyntaxError(usize, SyntaxCategory, Vec<u8>),
    Anyhow(String),
}

/// Mathematical image of a syntax error: its line, category, and offending
/// text.
#[verifier::ext_equal]
pub struct SyntaxErrorModel {
    pub line: nat,
    pub category: SyntaxCategory,
    pub detail: Seq<u8>,
}

impl Error {
    /// The syntax-error model this error denotes, where it is one.
    pub open spec fn syntax_model(&self) -> Option<SyntaxErrorModel> {
        match self {
            Error::SyntaxError(line, category, detail) => Option::Some(
                SyntaxErrorModel { line: *line as nat, category: *category, detail: detail@ },
            ),
            _ => Option::None,
        }
    }
}

} // verus!
