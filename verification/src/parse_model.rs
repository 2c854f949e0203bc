//! Mathematical model of parsing: one spec function per grammar production,
//! lowest to highest precedence, every binary level a left-leaning fold.
//! The parser's contract is agreement with `spec_expression`.

use vstd::prelude::*;

use crate::error::{SyntaxCategory, SyntaxErrorModel};
use crate::expr::{ExprModel, LiteralOpModel};
use crate::token::{LiteralModel, TokenModel, TokenType};

verus! {

/// The invariant of a finished token sequence: nonempty, ending in the
/// end-of-input sentinel. This is what the scanner guarantees and what the
/// parser relies on to never run off the end.
pub open spec fn wf_token_seq(toks: Seq<TokenModel>) -> bool {
    &&& toks.len() >= 1
    &&& toks[toks.len() - 1].token_type == TokenType::Eof
}

/// The line reported for a diagnostic at position `i`: the token's own
/// line, or the last token's line past the end.
pub open spec fn line_at(toks: Seq<TokenModel>, i: nat) -> nat {
    if i < toks.len() {
        toks[i as int].line
    } else if toks.len() > 0 {
        toks[toks.len() - 1].line
    } else {
        1
    }
}

/// The offending text reported for a diagnostic at position `i`.
pub open spec fn lexeme_at(toks: Seq<TokenModel>, i: nat) -> Seq<u8> {
    if i < toks.len() {
        toks[i as int].lexeme
    } else {
        Seq::empty()
    }
}

/// No production matched at `primary`.
pub open spec fn err_expected_expression(toks: Seq<TokenModel>, i: nat) -> SyntaxErrorModel {
    SyntaxErrorModel {
        line: line_at(toks, i),
        category: SyntaxCategory::ExpectedExpression,
        detail: lexeme_at(toks, i),
    }
}

/// A grouping's nested expression was not followed by a closing parenthesis.
pub open spec fn err_expected_right_paren(toks: Seq<TokenModel>, i: nat) -> SyntaxErrorModel {
    SyntaxErrorModel {
        line: line_at(toks, i),
        category: SyntaxCategory::ExpectedRightParen,
        detail: lexeme_at(toks, i),
    }
}

/// A literal-kind token carried no usable literal payload.
pub open spec fn err_invalid_literal(toks: Seq<TokenModel>, i: nat) -> SyntaxErrorModel {
    SyntaxErrorModel {
        line: line_at(toks, i),
        category: SyntaxCategory::InvalidLiteral,
        detail: lexeme_at(toks, i),
    }
}

/// Clamps a cursor into `[lo, hi]`; used only to make termination of the
/// mutually recursive productions evident. Every production in fact returns
/// a cursor in range, so at every use the clamp is the identity.
pub open spec fn clamp_cursor(j: nat, lo: nat, hi: nat) -> nat {
    if j < lo {
        lo
    } else if j > hi {
        hi
    } else {
        j
    }
}

/// Agreement between one model production step and what the executable
/// parser returned: the same tree and cursor on success, the same error
/// model on failure.
pub open spec fn parse_agrees(
    step: Result<(ExprModel, nat), SyntaxErrorModel>,
    r: Result<(crate::expr::Expr, usize), crate::error::Error>,
) -> bool {
    match r {
        Result::Ok(p) => step == Result::<(ExprModel, nat), SyntaxErrorModel>::Ok(
            (p.0@, p.1 as nat),
        ),
        Result::Err(e) => e.syntax_model() matches Option::Some(m) && step == Result::<
            (ExprModel, nat),
            SyntaxErrorModel,
        >::Err(m),
    }
}

/// `primary → NUMBER | STRING | "true" | "false" | "nil" | "(" expression ")"`.
pub open spec fn spec_primary(toks: Seq<TokenModel>, i: nat) -> Result<
    (ExprModel, nat),
    SyntaxErrorModel,
>
    decreases toks.len() - i, 0nat,
    when i <= toks.len()
{
    if i >= toks.len() {
        Result::Err(err_expected_expression(toks, i))
    } else {
        let tt = toks[i as int].token_type;
        if tt == TokenType::False {
            Result::Ok((ExprModel::Literal(LiteralOpModel::False), (i + 1) as nat))
        } else if tt == TokenType::True {
            Result::Ok((ExprModel::Literal(LiteralOpModel::True), (i + 1) as nat))
        } else if tt == TokenType::Nil {
            Result::Ok((ExprModel::Literal(LiteralOpModel::Nil), (i + 1) as nat))
        } else if tt == TokenType::Number || tt == TokenType::String {
            match toks[i as int].literal {
                Option::Some(lit) => match lit {
                    LiteralModel::Str(s) => Result::Ok(
                        (ExprModel::Literal(LiteralOpModel::Str(s)), (i + 1) as nat),
                    ),
                    LiteralModel::Number(s) => Result::Ok(
                        (ExprModel::Literal(LiteralOpModel::Number(s)), (i + 1) as nat),
                    ),
                    LiteralModel::Identifier(_) => Result::Err(err_invalid_literal(toks, i)),
                },
                Option::None => Result::Err(err_invalid_literal(toks, i)),
            }
        } else if tt == TokenType::LeftParen {
            match spec_expression(toks, (i + 1) as nat) {
                Result::Ok((e, j)) => if j < toks.len() && toks[j as int].token_type
                    == TokenType::RightParen {
                    Result::Ok((ExprModel::Grouping(Box::new(e)), (j + 1) as nat))
                } else {
                    Result::Err(err_expected_right_paren(toks, j))
                },
                Result::Err(e) => Result::Err(e),
            }
        } else {
            Result::Err(err_expected_expression(toks, i))
        }
    }
}

/// `unary → ("-" | "!") unary | primary` (right-recursive prefix chain).
pub open spec fn spec_unary(toks: Seq<TokenModel>, i: nat) -> Result<
    (ExprModel, nat),
    SyntaxErrorModel,
>
    decreases toks.len() - i, 1nat,
    when i <= toks.len()
{
    if i < toks.len() && (toks[i as int].token_type == TokenType::Bang || toks[i as int].token_type
        == TokenType::Minus) {
        match spec_unary(toks, (i + 1) as nat) {
            Result::Ok((e, j)) => Result::Ok(
                (ExprModel::Unary(toks[i as int], Box::new(e)), j),
            ),
            Result::Err(e) => Result::Err(e),
        }
    } else {
        spec_primary(toks, i)
    }
}

/// The left-leaning fold of `factor`: while the cursor holds `/` or `*`,
/// consume it, parse one more `unary`, and fold into a `Binary` node.
pub open spec fn spec_factor_rest(toks: Seq<TokenModel>, k: nat, left: ExprModel) -> Result<
    (ExprModel, nat),
    SyntaxErrorModel,
>
    decreases toks.len() - k, 2nat,
    when k <= toks.len()
{
    if k < toks.len() && (toks[k as int].token_type == TokenType::Slash || toks[k as int].token_type
        == TokenType::Star) {
        match spec_unary(toks, (k + 1) as nat) {
            Result::Ok((right, j)) => spec_factor_rest(
                toks,
                clamp_cursor(j, (k + 1) as nat, toks.len()),
                ExprModel::Binary(Box::new(left), toks[k as int], Box::new(right)),
            ),
            Result::Err(e) => Result::Err(e),
        }
    } else {
        Result::Ok((left, k))
    }
}

/// `factor → unary ( ("/" | "*") unary )*`.
pub open spec fn spec_factor(toks: Seq<TokenModel>, i: nat) -> Result<
    (ExprModel, nat),
    SyntaxErrorModel,
>
    decreases toks.len() - i, 3nat,
    when i <= toks.len()
{
    match spec_unary(toks, i) {
        Result::Ok((e, j)) => spec_factor_rest(toks, clamp_cursor(j, i, toks.len()), e),
        Result::Err(e) => Result::Err(e),
    }
}

/// The left-leaning fold of `term` over `-` and `+`.
pub open spec fn spec_term_rest(toks: Seq<TokenModel>, k: nat, left: ExprModel) -> Result<
    (ExprModel, nat),
    SyntaxErrorModel,
>
    decreases toks.len() - k, 4nat,
    when k <= toks.len()
{
    if k < toks.len() && (toks[k as int].token_type == TokenType::Minus || toks[k as int].token_type
        == TokenType::Plus) {
        match spec_factor(toks, (k + 1) as nat) {
            Result::Ok((right, j)) => spec_term_rest(
                toks,
                clamp_cursor(j, (k + 1) as nat, toks.len()),
                ExprModel::Binary(Box::new(left), toks[k as int], Box::new(right)),
            ),
            Result::Err(e) => Result::Err(e),
        }
    } else {
        Result::Ok((left, k))
    }
}

/// `term → factor ( ("-" | "+") factor )*`.
pub open spec fn spec_term(toks: Seq<TokenModel>, i: nat) -> Result<
    (ExprModel, nat),
    SyntaxErrorModel,
>
    decreases toks.len() - i, 5nat,
    when i <= toks.len()
{
    match spec_factor(toks, i) {
        Result::Ok((e, j)) => spec_term_rest(toks, clamp_cursor(j, i, toks.len()), e),
        Result::Err(e) => Result::Err(e),
    }
}

/// The left-leaning fold of `comparison` over `>`, `>=`, `<`, `<=`.
pub open spec fn spec_cmp_rest(toks: Seq<TokenModel>, k: nat, left: ExprModel) -> Result<
    (ExprModel, nat),
    SyntaxErrorModel,
>
    decreases toks.len() - k, 6nat,
    when k <= toks.len()
{
    if k < toks.len() && (toks[k as int].token_type == TokenType::Greater
        || toks[k as int].token_type == TokenType::GreaterEqual || toks[k as int].token_type
        == TokenType::Less || toks[k as int].token_type == TokenType::LessEqual) {
        match spec_term(toks, (k + 1) as nat) {
            Result::Ok((right, j)) => spec_cmp_rest(
                toks,
                clamp_cursor(j, (k + 1) as nat, toks.len()),
                ExprModel::Binary(Box::new(left), toks[k as int], Box::new(right)),
            ),
            Result::Err(e) => Result::Err(e),
        }
    } else {
        Result::Ok((left, k))
    }
}

/// `comparison → term ( (">" | ">=" | "<" | "<=") term )*`.
pub open spec fn spec_comparison(toks: Seq<TokenModel>, i: nat) -> Result<
    (ExprModel, nat),
    SyntaxErrorModel,
>
    decreases toks.len() - i, 7nat,
    when i <= toks.len()
{
    match spec_term(toks, i) {
        Result::Ok((e, j)) => spec_cmp_rest(toks, clamp_cursor(j, i, toks.len()), e),
        Result::Err(e) => Result::Err(e),
    }
}

/// The left-leaning fold of `equality` over `!=` and `==`.
pub open spec fn spec_eq_rest(toks: Seq<TokenModel>, k: nat, left: ExprModel) -> Result<
    (ExprModel, nat),
    SyntaxErrorModel,
>
    decreases toks.len() - k, 8nat,
    when k <= toks.len()
{
    if k < toks.len() && (toks[k as int].token_type == TokenType::BangEqual
        || toks[k as int].token_type == TokenType::EqualEqual) {
        match spec_comparison(toks, (k + 1) as nat) {
            Result::Ok((right, j)) => spec_eq_rest(
                toks,
                clamp_cursor(j, (k + 1) as nat, toks.len()),
                ExprModel::Binary(Box::new(left), toks[k as int], Box::new(right)),
            ),
            Result::Err(e) => Result::Err(e),
        }
    } else {
        Result::Ok((left, k))
    }
}

/// `equality → comparison ( ("!=" | "==") comparison )*`.
pub open spec fn spec_equality(toks: Seq<TokenModel>, i: nat) -> Result<
    (ExprModel, nat),
    SyntaxErrorModel,
>
    decreases toks.len() - i, 9nat,
    when i <= toks.len()
{
    match spec_comparison(toks, i) {
        Result::Ok((e, j)) => spec_eq_rest(toks, clamp_cursor(j, i, toks.len()), e),
        Result::Err(e) => Result::Err(e),
    }
}

/// `expression → equality`: the whole grammar, lowest precedence first.
pub open spec fn spec_expression(toks: Seq<TokenModel>, i: nat) -> Result<
    (ExprModel, nat),
    SyntaxErrorModel,
>
    decreases toks.len() - i, 10nat,
    when i <= toks.len()
{
    spec_equality(toks, i)
}

} // verus!
