//! The recursive-descent parser: one function per grammar production, each
//! proved to agree with its `parse_model` production, working over a
//! finalized token sequence with a single monotonically advancing cursor.

use vstd::prelude::*;

use crate::error::{Error, SyntaxCategory};
use crate::expr::{Expr, LiteralOp};
use crate::parse_model::{
    clamp_cursor, err_expected_expression, err_expected_right_paren, err_invalid_literal,
    parse_agrees, spec_cmp_rest, spec_comparison, spec_eq_rest, spec_equality, spec_expression,
    spec_factor, spec_factor_rest, spec_primary, spec_term, spec_term_rest, spec_unary,
    wf_token_seq,
};
use crate::token::{clone_bytes, token_models, Literal, Token, TokenType};

verus! {

/// A token that is not the end-of-input sentinel is never the last one, so
/// the cursor may step past it and stay in bounds.
proof fn lemma_not_eof_not_last(tokens: Seq<Token>, i: int)
    requires
        wf_token_seq(token_models(tokens)),
        0 <= i < tokens.len(),
        tokens[i].token_type != TokenType::Eof,
    ensures
        i + 1 < tokens.len(),
{
    assert(token_models(tokens)[tokens.len() - 1] == tokens[tokens.len() - 1]@);
    assert(token_models(tokens)[i] == tokens[i]@);
}

/// `primary → NUMBER | STRING | "true" | "false" | "nil" | "(" expression ")"`.
fn primary(tokens: &Vec<Token>, i: usize) -> (r: Result<(Expr, usize), Error>)
    requires
        wf_token_seq(token_models(tokens@)),
        i < tokens@.len(),
    ensures
        parse_agrees(spec_primary(token_models(tokens@), i as nat), r),
        r matches Result::Ok(p) ==> i < p.1 && (p.1 as int) < tokens@.len(),
    decreases tokens@.len() - i, 0int,
{
    let ghost toks = token_models(tokens@);
    let n = tokens.len();
    proof {
        assert(toks[i as int] == tokens@[i as int]@);
    }
    let tt = tokens[i].token_type;
    if tt == TokenType::False {
        proof {
            lemma_not_eof_not_last(tokens@, i as int);
        }
        Result::Ok((Expr::Literal(LiteralOp::False), i + 1))
    } else if tt == TokenType::True {
        proof {
            lemma_not_eof_not_last(tokens@, i as int);
        }
        Result::Ok((Expr::Literal(LiteralOp::True), i + 1))
    } else if tt == TokenType::Nil {
        proof {
            lemma_not_eof_not_last(tokens@, i as int);
        }
        Result::Ok((Expr::Literal(LiteralOp::Nil), i + 1))
    } else if tt == TokenType::Number || tt == TokenType::String {
        proof {
            lemma_not_eof_not_last(tokens@, i as int);
        }
        match &tokens[i].literal {
            Option::Some(Literal::Str(s)) => Result::Ok(
                (Expr::Literal(LiteralOp::Str(clone_bytes(s))), i + 1),
            ),
            Option::Some(Literal::Number(s)) => Result::Ok(
                (Expr::Literal(LiteralOp::Number(clone_bytes(s))), i + 1),
            ),
            _ => {
                let e = Error::SyntaxError(
                    tokens[i].line,
                    SyntaxCategory::InvalidLiteral,
                    clone_bytes(&tokens[i].lexeme),
                );
                proof {
                    assert(e.syntax_model() == Option::Some(err_invalid_literal(toks, i as nat)));
                }
                Result::Err(e)
            },
        }
    } else if tt == TokenType::LeftParen {
        proof {
            lemma_not_eof_not_last(tokens@, i as int);
        }
        match expression(tokens, i + 1) {
            Result::Ok((e, j)) => {
                proof {
                    assert(toks[j as int] == tokens@[j as int]@);
                }
                if tokens[j].token_type == TokenType::RightParen {
                    proof {
                        lemma_not_eof_not_last(tokens@, j as int);
                    }
                    Result::Ok((Expr::Grouping(Box::new(e)), j + 1))
                } else {
                    let err = Error::SyntaxError(
                        tokens[j].line,
                        SyntaxCategory::ExpectedRightParen,
                        clone_bytes(&tokens[j].lexeme),
                    );
                    proof {
                        assert(err.syntax_model() == Option::Some(
                            err_expected_right_paren(toks, j as nat),
                        ));
                    }
                    Result::Err(err)
                }
            },
            Result::Err(e) => Result::Err(e),
        }
    } else {
        let e = Error::SyntaxError(
            tokens[i].line,
            SyntaxCategory::ExpectedExpression,
            clone_bytes(&tokens[i].lexeme),
        );
        proof {
            assert(e.syntax_model() == Option::Some(err_expected_expression(toks, i as nat)));
        }
        Result::Err(e)
    }
}

/// `unary → ("-" | "!") unary | primary` (right-recursive prefix chain).
fn unary(tokens: &Vec<Token>, i: usize) -> (r: Result<(Expr, usize), Error>)
    requires
        wf_token_seq(token_models(tokens@)),
        i < tokens@.len(),
    ensures
        parse_agrees(spec_unary(token_models(tokens@), i as nat), r),
        r matches Result::Ok(p) ==> i < p.1 && (p.1 as int) < tokens@.len(),
    decreases tokens@.len() - i, 1int,
{
    let ghost toks = token_models(tokens@);
    let n = tokens.len();
    proof {
        assert(toks[i as int] == tokens@[i as int]@);
    }
    let tt = tokens[i].token_type;
    if tt == TokenType::Bang || tt == TokenType::Minus {
        let op = tokens[i].duplicate();
        proof {
            lemma_not_eof_not_last(tokens@, i as int);
        }
        match unary(tokens, i + 1) {
            Result::Ok((right, j)) => Result::Ok((Expr::Unary(op, Box::new(right)), j)),
            Result::Err(e) => Result::Err(e),
        }
    } else {
        primary(tokens, i)
    }
}

/// `factor → unary ( ("/" | "*") unary )*`, folded left.
fn factor(tokens: &Vec<Token>, i: usize) -> (r: Result<(Expr, usize), Error>)
    requires
        wf_token_seq(token_models(tokens@)),
        i < tokens@.len(),
    ensures
        parse_agrees(spec_factor(token_models(tokens@), i as nat), r),
        r matches Result::Ok(p) ==> i < p.1 && (p.1 as int) < tokens@.len(),
    decreases tokens@.len() - i, 3int,
{
    let ghost toks = token_models(tokens@);
    let n = tokens.len();
    let (mut expr, mut cur) = match unary(tokens, i) {
        Result::Ok(p) => p,
        Result::Err(e) => {
            return Result::Err(e);
        },
    };
    proof {
        assert(clamp_cursor(cur as nat, i as nat, toks.len()) == cur as nat);
    }
    while tokens[cur].token_type == TokenType::Slash || tokens[cur].token_type == TokenType::Star
        invariant
            wf_token_seq(toks),
            toks == token_models(tokens@),
            tokens@.len() <= usize::MAX,
            i < cur,
            (cur as int) < tokens@.len(),
            spec_factor(toks, i as nat) == spec_factor_rest(toks, cur as nat, expr@),
        decreases tokens@.len() - cur,
    {
        let ghost cur0 = cur as nat;
        let ghost expr0 = expr@;
        proof {
            assert(toks[cur as int] == tokens@[cur as int]@);
        }
        let op = tokens[cur].duplicate();
        cur = cur + 1;
        match unary(tokens, cur) {
            Result::Ok((right, j)) => {
                let ghost rightm = right@;
                proof {
                    assert(clamp_cursor(j as nat, (cur0 + 1) as nat, toks.len()) == j as nat);
                }
                expr = Expr::Binary(Box::new(expr), op, Box::new(right));
                cur = j;
                proof {
                    assert(expr@ =~~= crate::expr::ExprModel::Binary(
                        Box::new(expr0),
                        toks[cur0 as int],
                        Box::new(rightm),
                    ));
                }
            },
            Result::Err(e) => {
                return Result::Err(e);
            },
        }
    }
    proof {
        assert(toks[cur as int] == tokens@[cur as int]@);
        assert(spec_factor_rest(toks, cur as nat, expr@) == Result::<
            (crate::expr::ExprModel, nat),
            crate::error::SyntaxErrorModel,
        >::Ok((expr@, cur as nat)));
    }
    Result::Ok((expr, cur))
}

/// `term → factor ( ("-" | "+") factor )*`, folded left.
fn term(tokens: &Vec<Token>, i: usize) -> (r: Result<(Expr, usize), Error>)
    requires
        wf_token_seq(token_models(tokens@)),
        i < tokens@.len(),
    ensures
        parse_agrees(spec_term(token_models(tokens@), i as nat), r),
        r matches Result::Ok(p) ==> i < p.1 && (p.1 as int) < tokens@.len(),
    decreases tokens@.len() - i, 5int,
{
    let ghost toks = token_models(tokens@);
    let n = tokens.len();
    let (mut expr, mut cur) = match factor(tokens, i) {
        Result::Ok(p) => p,
        Result::Err(e) => {
            return Result::Err(e);
        },
    };
    proof {
        assert(clamp_cursor(cur as nat, i as nat, toks.len()) == cur as nat);
    }
    while tokens[cur].token_type == TokenType::Minus || tokens[cur].token_type == TokenType::Plus
        invariant
            wf_token_seq(toks),
            toks == token_models(tokens@),
            tokens@.len() <= usize::MAX,
            i < cur,
            (cur as int) < tokens@.len(),
            spec_term(toks, i as nat) == spec_term_rest(toks, cur as nat, expr@),
        decreases tokens@.len() - cur,
    {
        let ghost cur0 = cur as nat;
        let ghost expr0 = expr@;
        proof {
            assert(toks[cur as int] == tokens@[cur as int]@);
        }
        let op = tokens[cur].duplicate();
        cur = cur + 1;
        match factor(tokens, cur) {
            Result::Ok((right, j)) => {
                let ghost rightm = right@;
                proof {
                    assert(clamp_cursor(j as nat, (cur0 + 1) as nat, toks.len()) == j as nat);
                }
                expr = Expr::Binary(Box::new(expr), op, Box::new(right));
                cur = j;
                proof {
                    assert(expr@ =~~= crate::expr::ExprModel::Binary(
                        Box::new(expr0),
                        toks[cur0 as int],
                        Box::new(rightm),
                    ));
                }
            },
            Result::Err(e) => {
                return Result::Err(e);
            },
        }
    }
    proof {
        assert(toks[cur as int] == tokens@[cur as int]@);
        assert(spec_term_rest(toks, cur as nat, expr@) == Result::<
            (crate::expr::ExprModel, nat),
            crate::error::SyntaxErrorModel,
        >::Ok((expr@, cur as nat)));
    }
    Result::Ok((expr, cur))
}

/// `comparison → term ( (">" | ">=" | "<" | "<=") term )*`, folded left.
#[verifier::rlimit(100)]
fn comparison(tokens: &Vec<Token>, i: usize) -> (r: Result<(Expr, usize), Error>)
    requires
        wf_token_seq(token_models(tokens@)),
        i < tokens@.len(),
    ensures
        parse_agrees(spec_comparison(token_models(tokens@), i as nat), r),
        r matches Result::Ok(p) ==> i < p.1 && (p.1 as int) < tokens@.len(),
    decreases tokens@.len() - i, 7int,
{
    let ghost toks = token_models(tokens@);
    let n = tokens.len();
    let (mut expr, mut cur) = match term(tokens, i) {
        Result::Ok(p) => p,
        Result::Err(e) => {
            return Result::Err(e);
        },
    };
    proof {
        assert(clamp_cursor(cur as nat, i as nat, toks.len()) == cur as nat);
    }
    while tokens[cur].token_type == TokenType::Greater || tokens[cur].token_type
        == TokenType::GreaterEqual || tokens[cur].token_type == TokenType::Less
        || tokens[cur].token_type == TokenType::LessEqual
        invariant
            wf_token_seq(toks),
            toks == token_models(tokens@),
            tokens@.len() <= usize::MAX,
            i < cur,
            (cur as int) < tokens@.len(),
            spec_comparison(toks, i as nat) == spec_cmp_rest(toks, cur as nat, expr@),
        decreases tokens@.len() - cur,
    {
        let ghost cur0 = cur as nat;
        let ghost expr0 = expr@;
        proof {
            assert(toks[cur as int] == tokens@[cur as int]@);
        }
        let op = tokens[cur].duplicate();
        cur = cur + 1;
        match term(tokens, cur) {
            Result::Ok((right, j)) => {
                let ghost rightm = right@;
                proof {
                    assert(clamp_cursor(j as nat, (cur0 + 1) as nat, toks.len()) == j as nat);
                }
                expr = Expr::Binary(Box::new(expr), op, Box::new(right));
                cur = j;
                proof {
                    assert(expr@ =~~= crate::expr::ExprModel::Binary(
                        Box::new(expr0),
                        toks[cur0 as int],
                        Box::new(rightm),
                    ));
                }
            },
            Result::Err(e) => {
                return Result::Err(e);
            },
        }
    }
    proof {
        assert(toks[cur as int] == tokens@[cur as int]@);
        assert(spec_cmp_rest(toks, cur as nat, expr@) == Result::<
            (crate::expr::ExprModel, nat),
            crate::error::SyntaxErrorModel,
        >::Ok((expr@, cur as nat)));
    }
    Result::Ok((expr, cur))
}

/// `equality → comparison ( ("!=" | "==") comparison )*`, folded left.
fn equality(tokens: &Vec<Token>, i: usize) -> (r: Result<(Expr, usize), Error>)
    requires
        wf_token_seq(token_models(tokens@)),
        i < tokens@.len(),
    ensures
        parse_agrees(spec_equality(token_models(tokens@), i as nat), r),
        r matches Result::Ok(p) ==> i < p.1 && (p.1 as int) < tokens@.len(),
    decreases tokens@.len() - i, 9int,
{
    let ghost toks = token_models(tokens@);
    let n = tokens.len();
    let (mut expr, mut cur) = match comparison(tokens, i) {
        Result::Ok(p) => p,
        Result::Err(e) => {
            return Result::Err(e);
        },
    };
    proof {
        assert(clamp_cursor(cur as nat, i as nat, toks.len()) == cur as nat);
    }
    while tokens[cur].token_type == TokenType::BangEqual || tokens[cur].token_type
        == TokenType::EqualEqual
        invariant
            wf_token_seq(toks),
            toks == token_models(tokens@),
            tokens@.len() <= usize::MAX,
            i < cur,
            (cur as int) < tokens@.len(),
            spec_equality(toks, i as nat) == spec_eq_rest(toks, cur as nat, expr@),
        decreases tokens@.len() - cur,
    {
        let ghost cur0 = cur as nat;
        let ghost expr0 = expr@;
        proof {
            assert(toks[cur as int] == tokens@[cur as int]@);
        }
        let op = tokens[cur].duplicate();
        cur = cur + 1;
        match comparison(tokens, cur) {
            Result::Ok((right, j)) => {
                let ghost rightm = right@;
                proof {
                    assert(clamp_cursor(j as nat, (cur0 + 1) as nat, toks.len()) == j as nat);
                }
                expr = Expr::Binary(Box::new(expr), op, Box::new(right));
                cur = j;
                proof {
                    assert(expr@ =~~= crate::expr::ExprModel::Binary(
                        Box::new(expr0),
                        toks[cur0 as int],
                        Box::new(rightm),
                    ));
                }
            },
            Result::Err(e) => {
                return Result::Err(e);
            },
        }
    }
    proof {
        assert(toks[cur as int] == tokens@[cur as int]@);
        assert(spec_eq_rest(toks, cur as nat, expr@) == Result::<
            (crate::expr::ExprModel, nat),
            crate::error::SyntaxErrorModel,
        >::Ok((expr@, cur as nat)));
    }
    Result::Ok((expr, cur))
}

/// `expression → equality`: one whole expression starting at `i`.
fn expression(tokens: &Vec<Token>, i: usize) -> (r: Result<(Expr, usize), Error>)
    requires
        wf_token_seq(token_models(tokens@)),
        i < tokens@.len(),
    ensures
        parse_agrees(spec_expression(token_models(tokens@), i as nat), r),
        r matches Result::Ok(p) ==> i < p.1 && (p.1 as int) < tokens@.len(),
    decreases tokens@.len() - i, 10int,
{
    equality(tokens, i)
}

/// Parser working state: the finalized token sequence (read-only) and the
/// cursor of the next unconsumed token. A plainly owned index: no parse's
/// cursor is ever shared.
pub struct Parser {
    pub tokens: Vec<Token>,
    pub current: usize,
}

impl Parser {
    /// Builds a parser over a finished token sequence, cursor at the start.
    pub fn new(tokens: Vec<Token>) -> (r: Parser)
        ensures
            r.tokens@ == tokens@,
            r.current == 0,
    {
        Parser { tokens, current: 0 }
    }

    /// Parses one expression at the cursor, advancing it past what was
    /// consumed on success.
    pub fn expression(&mut self) -> (r: Result<Expr, Error>)
        requires
            wf_token_seq(token_models(old(self).tokens@)),
            old(self).current < old(self).tokens@.len(),
        ensures
            final(self).tokens@ == old(self).tokens@,
            match r {
                Result::Ok(e) => spec_expression(
                    token_models(old(self).tokens@),
                    old(self).current as nat,
                ) == Result::<
                    (crate::expr::ExprModel, nat),
                    crate::error::SyntaxErrorModel,
                >::Ok((e@, final(self).current as nat)) && old(self).current < final(self).current
                    < old(self).tokens@.len(),
                Result::Err(e) => e.syntax_model() matches Option::Some(m) && spec_expression(
                    token_models(old(self).tokens@),
                    old(self).current as nat,
                ) == Result::<(crate::expr::ExprModel, nat), crate::error::SyntaxErrorModel>::Err(
                    m,
                ) && final(self).current == old(self).current,
            },
    {
        match expression(&self.tokens, self.current) {
            Result::Ok((e, j)) => {
                self.current = j;
                Result::Ok(e)
            },
            Result::Err(e) => Result::Err(e),
        }
    }
}

/// Consumes a finished token sequence and produces one expression tree, or
/// fails with the first syntax error. The result is exactly what the
/// `spec_expression` model assigns to the sequence from its start.
pub fn parse(tokens: Vec<Token>) -> (r: Result<Expr, Error>)
    requires
        wf_token_seq(token_models(tokens@)),
    ensures
        match r {
            Result::Ok(e) => spec_expression(token_models(tokens@), 0) matches Result::Ok(p)
                && p.0 == e@,
            Result::Err(e) => e.syntax_model() matches Option::Some(m) && spec_expression(
                token_models(tokens@),
                0,
            ) == Result::<(crate::expr::ExprModel, nat), crate::error::SyntaxErrorModel>::Err(m),
        },
{
    match expression(&tokens, 0) {
        Result::Ok((e, _)) => Result::Ok(e),
        Result::Err(e) => Result::Err(e),
    }
}

} // verus!
