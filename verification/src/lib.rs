//! Front end of a tree-walking interpreter for a small scripting language:
//! a scanner that turns source bytes into a token sequence, and a
//! recursive-descent parser with precedence climbing that turns tokens into
//! an expression tree. Both are fail-fast: the first syntax error aborts the
//! call and is returned as a value.

use vstd::prelude::*;

pub mod error;
pub mod expr;
pub mod parse_model;
pub mod parser;
pub mod props;
pub mod scan_model;
pub mod scanner;
pub mod token;

pub use error::{Error, SyntaxCategory};
pub use expr::{Expr, LiteralOp};
pub use parser::{parse, Parser};
pub use scanner::Scanner;
pub use token::{Literal, Token, TokenType};

use crate::error::SyntaxErrorModel;
use crate::scan_model::scan_from;
use crate::token::{token_models, TokenModel};

verus! {

/// Turns one source text into its ordered token sequence, or fails with the
/// first syntax error. The result is exactly the `scan_from` model of the
/// source: on success the sequence ends in one end-of-input token; on
/// failure the error carries the line, category, and offending text the
/// model assigns.
pub fn tokenize(source: Vec<u8>) -> (r: Result<Vec<Token>, Error>)
    requires
        source@.len() < usize::MAX,
    ensures
        match r {
            Result::Ok(toks) => scan_from(source@, 0, 1) == Result::<
                Seq<TokenModel>,
                SyntaxErrorModel,
            >::Ok(token_models(toks@)),
            Result::Err(e) => e.syntax_model() matches Option::Some(m) && scan_from(source@, 0, 1)
                == Result::<Seq<TokenModel>, SyntaxErrorModel>::Err(m),
        },
{
    Scanner::new(source).scan_tokens()
}

} // verus!
