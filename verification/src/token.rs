//! The shared vocabulary of lexical units: token kinds, literal values, and
//! line-tagged tokens whose lexeme is the verbatim source slice that produced
//! them.

use vstd::prelude::*;

verus! {

/// The fixed set of token kinds: single-character punctuation, one- or
/// two-character operators, literal kinds, keyword kinds, identifiers, and
/// the end-of-input sentinel.
#[derive(Debug, Clone, Copy, PartialEq, Eq, Structural)]
pub enum TokenType {
    LeftParen,
    RightParen,
    LeftBrace,
    RightBrace,
    Comma,
    Dot,
    Minus,
    Plus,
    Semicolon,
    Slash,
    Star,
    Bang,
    BangEqual,
    Equal,
    EqualEqual,
    Greater,
    GreaterEqual,
    Less,
    LessEqual,
    Identifier,
    String,
    Number,
    And,
    Class,
    Else,
    False,
    Fun,
    For,
    If,
    Nil,
    Or,
    Print,
    Return,
    Super,
    This,
    True,
    Var,
    While,
    Eof,
}

/// A resolved literal value attached to identifier, string, and number
/// tokens. A number keeps the exact digit text of its lexeme; turning that
/// text into a machine floating-point value is the driver's concern.
#[derive(Debug, Clone)]
pub enum Literal {
    Identifier(Vec<u8>),
    Str(Vec<u8>),
    Number(Vec<u8>),
}

/// Mathematical image of a `Literal`: the same shape over `Seq<u8>`.
#[verifier::ext_equal]
pub enum LiteralModel {
    Identifier(Seq<u8>),
    Str(Seq<u8>),
    Number(Seq<u8>),
}

impl View for Literal {
    type V = LiteralModel;

    open spec fn view(&self) -> LiteralModel {
        match self {
            Literal::Identifier(s) => LiteralModel::Identifier(s@),
            Literal::Str(s) => LiteralModel::Str(s@),
            Literal::Number(s) => LiteralModel::Number(s@),
        }
    }
}

/// A classified, line-tagged unit of lexical input. The lexeme is always the
/// contiguous slice of source bytes the scanner consumed to create the token.
#[derive(Debug, Clone)]
pub struct Token {
    pub token_type: TokenType,
    pub lexeme: Vec<u8>,
    pub literal: Option<Literal>,
    pub line: usize,
}

/// Mathematical image of a `Token`.
#[verifier::ext_equal]
pub struct TokenModel {
    pub token_type: TokenType,
    pub lexeme: Seq<u8>,
    pub literal: Option<LiteralModel>,
    pub line: nat,
}

impl View for Token {
    type V = TokenModel;

    open spec fn view(&self) -> TokenModel {
        TokenModel {
            token_type: self.token_type,
            lexeme: self.lexeme@,
            literal: match self.literal {
                Option::Some(l) => Option::Some(l@),
                Option::None => Option::None,
            },
            line: self.line as nat,
        }
    }
}

/// Copies a byte vector; the copy's view equals the argument's.
pub fn clone_bytes(v: &Vec<u8>) -> (r: Vec<u8>)
    ensures
        r@ == v@,
{
    let mut r: Vec<u8> = Vec::new();
    let mut k: usize = 0;
    while k < v.len()
        invariant
            k <= v@.len(),
            r@ == v@.take(k as int),
        decreases v@.len() - k,
    {
        r.push(v[k]);
        k = k + 1;
        proof {
            assert(r@ =~= v@.take(k as int));
        }
    }
    proof {
        assert(v@.take(v@.len() as int) =~= v@);
    }
    r
}

impl Token {
    /// A deep copy of this token, with the same model.
    pub fn duplicate(&self) -> (r: Token)
        ensures
            r@ == self@,
    {
        let literal = match &self.literal {
            Option::Some(l) => Option::Some(
                match l {
                    Literal::Identifier(s) => Literal::Identifier(clone_bytes(s)),
                    Literal::Str(s) => Literal::Str(clone_bytes(s)),
                    Literal::Number(s) => Literal::Number(clone_bytes(s)),
                },
            ),
            Option::None => Option::None,
        };
        let r = Token {
            token_type: self.token_type,
            lexeme: clone_bytes(&self.lexeme),
            literal,
            line: self.line,
        };
        proof {
            assert(r@ =~~= self@);
        }
        r
    }

    /// Builds a token from its parts.
    pub fn new(token_type: TokenType, lexeme: Vec<u8>, literal: Option<Literal>, line: usize) -> (
        r: Token)
        ensures
            r@ == (TokenModel {
                token_type,
                lexeme: lexeme@,
                literal: match literal {
                    Option::Some(l) => Option::Some(l@),
                    Option::None => Option::None,
                },
                line: line as nat,
            }),
    {
        Token { token_type, lexeme, literal, line }
    }
}

/// The models of a sequence of tokens, element by element.
pub open spec fn token_models(toks: Seq<Token>) -> Seq<TokenModel> {
    toks.map_values(|t: Token| t@)
}

pub proof fn lemma_token_models_concat(a: Seq<Token>, b: Seq<Token>)
    ensures
        token_models(a + b) == token_models(a) + token_models(b),
{
    assert(token_models(a + b) =~= token_models(a) + token_models(b));
}

} // verus!
