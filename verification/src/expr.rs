//! The expression-tree model produced by parsing: a strict single-owner
//! tagged union over literal, unary, binary, and grouping nodes, plus the
//! canonical fully-parenthesized prefix printer.

use vstd::prelude::*;

use crate::token::{Token, TokenModel};

verus! {

/// A resolved literal inside an expression: a number (kept as its exact
/// digit text), a string, or one of the fixed keyword literals.
#[derive(Debug, Clone)]
pub enum LiteralOp {
    Number(Vec<u8>),
    Str(Vec<u8>),
    True,
    False,
    Nil,
}

/// Mathematical image of a `LiteralOp`.
#[verifier::ext_equal]
pub enum LiteralOpModel {
    Number(Seq<u8>),
    Str(Seq<u8>),
    True,
    False,
    Nil,
}

impl View for LiteralOp {
    type V = LiteralOpModel;

    open spec fn view(&self) -> LiteralOpModel {
        match self {
            LiteralOp::Number(s) => LiteralOpModel::Number(s@),
            LiteralOp::Str(s) => LiteralOpModel::Str(s@),
            LiteralOp::True => LiteralOpModel::True,
            LiteralOp::False => LiteralOpModel::False,
            LiteralOp::Nil => LiteralOpModel::Nil,
        }
    }
}

/// One node of the expression tree. Each node exclusively owns its
/// children: the tree has no shared sub-trees and no cycles.
#[derive(Debug)]
pub enum Expr {
    Literal(LiteralOp),
    Unary(Token, Box<Expr>),
    Binary(Box<Expr>, Token, Box<Expr>),
    Grouping(Box<Expr>),
}

/// Mathematical image of an expression tree.
#[verifier::ext_equal]
pub enum ExprModel {
    Literal(LiteralOpModel),
    Unary(TokenModel, Box<ExprModel>),
    Binary(Box<ExprModel>, TokenModel, Box<ExprModel>),
    Grouping(Box<ExprModel>),
}

/// The model of an expression tree, node by node.
pub open spec fn expr_model(e: Expr) -> ExprModel
    decreases e,
{
    match e {
        Expr::Literal(l) => ExprModel::Literal(l@),
        Expr::Unary(t, sub) => ExprModel::Unary(t@, Box::new(expr_model(*sub))),
        Expr::Binary(lhs, t, rhs) => ExprModel::Binary(
            Box::new(expr_model(*lhs)),
            t@,
            Box::new(expr_model(*rhs)),
        ),
        Expr::Grouping(sub) => ExprModel::Grouping(Box::new(expr_model(*sub))),
    }
}

impl View for Expr {
    type V = ExprModel;

    open spec fn view(&self) -> ExprModel {
        expr_model(*self)
    }
}

/// What the printer renders for one literal: the digit text of a number,
/// the text of a string, or the fixed keyword spellings.
pub open spec fn print_literal(l: LiteralOpModel) -> Seq<u8> {
    match l {
        LiteralOpModel::Number(s) => s,
        LiteralOpModel::Str(s) => s,
        LiteralOpModel::True => seq!['T' as u8, 'r' as u8, 'u' as u8, 'e' as u8],
        LiteralOpModel::False => seq!['F' as u8, 'a' as u8, 'l' as u8, 's' as u8, 'e' as u8],
        LiteralOpModel::Nil => seq!['N' as u8, 'i' as u8, 'l' as u8],
    }
}

/// The canonical fully-parenthesized prefix rendering of a tree:
/// `( op operand...)` for unary and binary nodes, `( group sub)` for a
/// grouping, the literal text for a leaf.
pub open spec fn print_model(e: ExprModel) -> Seq<u8>
    decreases e,
{
    match e {
        ExprModel::Literal(l) => print_literal(l),
        ExprModel::Unary(t, sub) => seq!['(' as u8, ' ' as u8] + t.lexeme + seq![' ' as u8]
            + print_model(*sub) + seq![')' as u8],
        ExprModel::Binary(lhs, t, rhs) => seq!['(' as u8, ' ' as u8] + t.lexeme + seq![' ' as u8]
            + print_model(*lhs) + seq![' ' as u8] + print_model(*rhs) + seq![')' as u8],
        ExprModel::Grouping(sub) => seq![
            '(' as u8,
            ' ' as u8,
            'g' as u8,
            'r' as u8,
            'o' as u8,
            'u' as u8,
            'p' as u8,
            ' ' as u8,
        ] + print_model(*sub) + seq![')' as u8],
    }
}

/// Appends every byte of `v` to `out`.
fn push_bytes(out: &mut Vec<u8>, v: &Vec<u8>)
    ensures
        final(out)@ == old(out)@ + v@,
{
    let ghost base = out@;
    let mut k: usize = 0;
    while k < v.len()
        invariant
            k <= v@.len(),
            out@ == base + v@.take(k as int),
        decreases v@.len() - k,
    {
        out.push(v[k]);
        k = k + 1;
        proof {
            assert(out@ =~= base + v@.take(k as int));
        }
    }
    proof {
        assert(base + v@.take(v@.len() as int) =~= base + v@);
    }
}

impl Expr {
    /// Renders this tree in the canonical fully-parenthesized prefix form,
    /// appending to `out`.
    fn render_into(&self, out: &mut Vec<u8>)
        ensures
            final(out)@ == old(out)@ + print_model(self@),
        decreases self,
    {
        let ghost base = out@;
        match self {
            Expr::Literal(l) => {
                match l {
                    LiteralOp::Number(s) => push_bytes(out, s),
                    LiteralOp::Str(s) => push_bytes(out, s),
                    LiteralOp::True => {
                        out.push('T' as u8);
                        out.push('r' as u8);
                        out.push('u' as u8);
                        out.push('e' as u8);
                        proof {
                            assert(out@ =~= base + print_model(self@));
                        }
                    },
                    LiteralOp::False => {
                        out.push('F' as u8);
                        out.push('a' as u8);
                        out.push('l' as u8);
                        out.push('s' as u8);
                        out.push('e' as u8);
                        proof {
                            assert(out@ =~= base + print_model(self@));
                        }
                    },
                    LiteralOp::Nil => {
                        out.push('N' as u8);
                        out.push('i' as u8);
                        out.push('l' as u8);
                        proof {
                            assert(out@ =~= base + print_model(self@));
                        }
                    },
                }
            },
            Expr::Unary(t, sub) => {
                out.push('(' as u8);
                out.push(' ' as u8);
                push_bytes(out, &t.lexeme);
                out.push(' ' as u8);
                sub.render_into(out);
                out.push(')' as u8);
                proof {
                    assert(out@ =~= base + print_model(self@));
                }
            },
            Expr::Binary(lhs, t, rhs) => {
                out.push('(' as u8);
                out.push(' ' as u8);
                push_bytes(out, &t.lexeme);
                out.push(' ' as u8);
                lhs.render_into(out);
                out.push(' ' as u8);
                rhs.render_into(out);
                out.push(')' as u8);
                proof {
                    assert(out@ =~= base + print_model(self@));
                }
            },
            Expr::Grouping(sub) => {
                out.push('(' as u8);
                out.push(' ' as u8);
                out.push('g' as u8);
                out.push('r' as u8);
                out.push('o' as u8);
                out.push('u' as u8);
                out.push('p' as u8);
                out.push(' ' as u8);
                sub.render_into(out);
                out.push(')' as u8);
                proof {
                    assert(out@ =~= base + print_model(self@));
                }
            },
        }
    }

    /// Renders this tree in the canonical fully-parenthesized prefix form:
    /// the debugging aid the driver prints.
    pub fn render(&self) -> (r: Vec<u8>)
        ensures
            r@ == print_model(self@),
    {
        let mut out: Vec<u8> = Vec::new();
        self.render_into(&mut out);
        proof {
            assert(Seq::<u8>::empty() + print_model(self@) =~= print_model(self@));
        }
        out
    }
}

} // verus!
