//! The scanner: a single left-to-right pass over the source bytes that
//! accumulates the token sequence, proved equal to the `scan_from` model.

use vstd::prelude::*;

use crate::error::{Error, SyntaxCategory, SyntaxErrorModel};
use crate::scan_model::{
    lemma_ident_end, lemma_number_token_end, lemma_string_close,
    comment_end, count_newlines, digits_end, eof_model, ident_end, ident_model,
    lemma_comment_end_is, lemma_digits_end_is, lemma_ident_end_is,
    lemma_prepend_prepend, lemma_string_close_is, number_model, number_token_end, plain_model,
    scan_cons, scan_from, scan_prepend, spec_is_alpha, spec_is_alphanumeric, spec_is_digit,
    spec_keyword, string_close, string_model,
};
use crate::token::{lemma_token_models_concat, token_models, Literal, Token, TokenModel, TokenType};

verus! {

/// Copies `src[a..b]` into a fresh vector; lexemes and literal values are
/// verbatim slices of the source.
fn copy_range(src: &Vec<u8>, a: usize, b: usize) -> (r: Vec<u8>)
    requires
        a <= b <= src@.len(),
    ensures
        r@ == src@.subrange(a as int, b as int),
{
    let mut r: Vec<u8> = Vec::new();
    let mut k: usize = a;
    while k < b
        invariant
            a <= k <= b <= src@.len(),
            r@ == src@.subrange(a as int, k as int),
        decreases b - k,
    {
        r.push(src[k]);
        k = k + 1;
        proof {
            assert(r@ =~= src@.subrange(a as int, k as int));
        }
    }
    r
}

/// The keyword table, hoisted into one immutable lookup: an exact match
/// yields the keyword kind, anything else is an ordinary identifier.
fn keyword_kind(text: &Vec<u8>) -> (r: Option<TokenType>)
    ensures
        r == spec_keyword(text@),
{
    let n = text.len();
    if n == 3 && text[0] == ('a' as u8) && text[1] == ('n' as u8) && text[2] == ('d' as u8) {
        proof {
            assert(text@ =~= seq!['a' as u8, 'n' as u8, 'd' as u8]);
        }
        Option::Some(TokenType::And)
    } else if n == 5 && text[0] == ('c' as u8) && text[1] == ('l' as u8) && text[2] == ('a' as u8)
        && text[3] == ('s' as u8) && text[4] == ('s' as u8) {
        proof {
            assert(text@ =~= seq!['c' as u8, 'l' as u8, 'a' as u8, 's' as u8, 's' as u8]);
        }
        Option::Some(TokenType::Class)
    } else if n == 4 && text[0] == ('e' as u8) && text[1] == ('l' as u8) && text[2] == ('s' as u8)
        && text[3] == ('e' as u8) {
        proof {
            assert(text@ =~= seq!['e' as u8, 'l' as u8, 's' as u8, 'e' as u8]);
        }
        Option::Some(TokenType::Else)
    } else if n == 5 && text[0] == ('f' as u8) && text[1] == ('a' as u8) && text[2] == ('l' as u8)
        && text[3] == ('s' as u8) && text[4] == ('e' as u8) {
        proof {
            assert(text@ =~= seq!['f' as u8, 'a' as u8, 'l' as u8, 's' as u8, 'e' as u8]);
        }
        Option::Some(TokenType::False)
    } else if n == 3 && text[0] == ('f' as u8) && text[1] == ('o' as u8) && text[2] == (
    'r' as u8) {
        proof {
            assert(text@ =~= seq!['f' as u8, 'o' as u8, 'r' as u8]);
        }
        Option::Some(TokenType::For)
    } else if n == 3 && text[0] == ('f' as u8) && text[1] == ('u' as u8) && text[2] == (
    'n' as u8) {
        proof {
            assert(text@ =~= seq!['f' as u8, 'u' as u8, 'n' as u8]);
        }
        Option::Some(TokenType::Fun)
    } else if n == 2 && text[0] == ('i' as u8) && text[1] == ('f' as u8) {
        proof {
            assert(text@ =~= seq!['i' as u8, 'f' as u8]);
        }
        Option::Some(TokenType::If)
    } else if n == 3 && text[0] == ('n' as u8) && text[1] == ('i' as u8) && text[2] == (
    'l' as u8) {
        proof {
            assert(text@ =~= seq!['n' as u8, 'i' as u8, 'l' as u8]);
        }
        Option::Some(TokenType::Nil)
    } else if n == 2 && text[0] == ('o' as u8) && text[1] == ('r' as u8) {
        proof {
            assert(text@ =~= seq!['o' as u8, 'r' as u8]);
        }
        Option::Some(TokenType::Or)
    } else if n == 5 && text[0] == ('p' as u8) && text[1] == ('r' as u8) && text[2] == ('i' as u8)
        && text[3] == ('n' as u8) && text[4] == ('t' as u8) {
        proof {
            assert(text@ =~= seq!['p' as u8, 'r' as u8, 'i' as u8, 'n' as u8, 't' as u8]);
        }
        Option::Some(TokenType::Print)
    } else if n == 6 && text[0] == ('r' as u8) && text[1] == ('e' as u8) && text[2] == ('t' as u8)
        && text[3] == ('u' as u8) && text[4] == ('r' as u8) && text[5] == ('n' as u8) {
        proof {
            assert(text@ =~= seq![
                'r' as u8,
                'e' as u8,
                't' as u8,
                'u' as u8,
                'r' as u8,
                'n' as u8,
            ]);
        }
        Option::Some(TokenType::Return)
    } else if n == 5 && text[0] == ('s' as u8) && text[1] == ('u' as u8) && text[2] == ('p' as u8)
        && text[3] == ('e' as u8) && text[4] == ('r' as u8) {
        proof {
            assert(text@ =~= seq!['s' as u8, 'u' as u8, 'p' as u8, 'e' as u8, 'r' as u8]);
        }
        Option::Some(TokenType::Super)
    } else if n == 4 && text[0] == ('t' as u8) && text[1] == ('h' as u8) && text[2] == ('i' as u8)
        && text[3] == ('s' as u8) {
        proof {
            assert(text@ =~= seq!['t' as u8, 'h' as u8, 'i' as u8, 's' as u8]);
        }
        Option::Some(TokenType::This)
    } else if n == 4 && text[0] == ('t' as u8) && text[1] == ('r' as u8) && text[2] == ('u' as u8)
        && text[3] == ('e' as u8) {
        proof {
            assert(text@ =~= seq!['t' as u8, 'r' as u8, 'u' as u8, 'e' as u8]);
        }
        Option::Some(TokenType::True)
    } else if n == 3 && text[0] == ('v' as u8) && text[1] == ('a' as u8) && text[2] == (
    'r' as u8) {
        proof {
            assert(text@ =~= seq!['v' as u8, 'a' as u8, 'r' as u8]);
        }
        Option::Some(TokenType::Var)
    } else if n == 5 && text[0] == ('w' as u8) && text[1] == ('h' as u8) && text[2] == ('i' as u8)
        && text[3] == ('l' as u8) && text[4] == ('e' as u8) {
        proof {
            assert(text@ =~= seq!['w' as u8, 'h' as u8, 'i' as u8, 'l' as u8, 'e' as u8]);
        }
        Option::Some(TokenType::While)
    } else {
        Option::None
    }
}

/// Scanner working state: source bytes, the accumulated token sequence, the
/// two cursors (start of the current lexeme, current scan position), and the
/// running line counter. Created fresh per source text, consumed exactly
/// once by `scan_tokens`.
pub struct Scanner {
    pub source: Vec<u8>,
    pub tokens: Vec<Token>,
    pub start: usize,
    pub current: usize,
    pub line: usize,
}

impl Scanner {
    /// The scanner's internal invariant: cursors in bounds and ordered, the
    /// line counter positive and bounded by the bytes consumed (so that it
    /// can never overflow), and room for the cursor arithmetic itself.
    pub open spec fn wf(&self) -> bool {
        &&& self.start <= self.current <= self.source@.len()
        &&& 1 <= self.line
        &&& self.line <= self.current + 1
        &&& self.source@.len() < usize::MAX
    }

    /// A scanner about to run: nothing consumed, nothing produced, line 1.
    pub open spec fn fresh(&self, source: Seq<u8>) -> bool {
        &&& self.source@ == source
        &&& self.tokens@.len() == 0
        &&& self.start == 0
        &&& self.current == 0
        &&& self.line == 1
    }

    /// Builds a scanner over one source text.
    pub fn new(source: Vec<u8>) -> (r: Scanner)
        requires
            source@.len() < usize::MAX,
        ensures
            r.fresh(source@),
            r.wf(),
    {
        Scanner { source, tokens: Vec::new(), start: 0, current: 0, line: 1 }
    }

    fn is_at_end(&self) -> (r: bool)
        ensures
            r == (self.current >= self.source@.len()),
    {
        self.current >= self.source.len()
    }

    /// The byte under the cursor, or 0 past the end of input.
    fn peek(&self) -> (c: u8)
        ensures
            c == if self.current < self.source@.len() {
                self.source@[self.current as int]
            } else {
                0u8
            },
    {
        if self.current >= self.source.len() {
            0
        } else {
            self.source[self.current]
        }
    }

    /// One byte of further lookahead, or 0 past the end of input.
    fn peek_next(&self) -> (c: u8)
        requires
            self.wf(),
        ensures
            c == if self.current + 1 < self.source@.len() {
                self.source@[self.current + 1]
            } else {
                0u8
            },
    {
        if self.current + 1 >= self.source.len() {
            0
        } else {
            self.source[self.current + 1]
        }
    }

    /// Consumes and returns the byte under the cursor.
    fn advance(&mut self) -> (c: u8)
        requires
            old(self).wf(),
            old(self).current < old(self).source@.len(),
        ensures
            final(self).wf(),
            c == old(self).source@[old(self).current as int],
            final(self).current == old(self).current + 1,
            final(self).source == old(self).source,
            final(self).tokens == old(self).tokens,
            final(self).start == old(self).start,
            final(self).line == old(self).line,
    {
        let c = self.source[self.current];
        self.current = self.current + 1;
        c
    }

    /// Consumes the byte under the cursor only if it equals `expected`
    /// (maximal munch for the two-character operators).
    fn matches(&mut self, expected: u8) -> (r: bool)
        requires
            old(self).wf(),
        ensures
            final(self).wf(),
            final(self).source == old(self).source,
            final(self).tokens == old(self).tokens,
            final(self).start == old(self).start,
            final(self).line == old(self).line,
            if old(self).current < old(self).source@.len() && old(self).source@[old(
                self,
            ).current as int] == expected {
                r && final(self).current == old(self).current + 1
            } else {
                !r && final(self).current == old(self).current
            },
    {
        if self.current >= self.source.len() {
            return false;
        }
        if self.source[self.current] != expected {
            return false;
        }
        self.current = self.current + 1;
        true
    }

    /// Appends a token without a literal value for the current lexeme.
    fn add_token(&mut self, token_type: TokenType)
        requires
            old(self).wf(),
        ensures
            final(self).wf(),
            final(self).source == old(self).source,
            final(self).start == old(self).start,
            final(self).current == old(self).current,
            final(self).line == old(self).line,
            final(self).tokens@.len() == old(self).tokens@.len() + 1,
            final(self).tokens@.drop_last() == old(self).tokens@,
            final(self).tokens@.last()@ == (TokenModel {
                token_type,
                lexeme: old(self).source@.subrange(
                    old(self).start as int,
                    old(self).current as int,
                ),
                literal: Option::<crate::token::LiteralModel>::None,
                line: old(self).line as nat,
            }),
    {
        self.add_token_literal(token_type, Option::None);
    }

    /// Appends a token for the current lexeme `source[start..current]`,
    /// carrying the given literal value.
    fn add_token_literal(&mut self, token_type: TokenType, literal: Option<Literal>)
        requires
            old(self).wf(),
        ensures
            final(self).wf(),
            final(self).source == old(self).source,
            final(self).start == old(self).start,
            final(self).current == old(self).current,
            final(self).line == old(self).line,
            final(self).tokens@.len() == old(self).tokens@.len() + 1,
            final(self).tokens@.drop_last() == old(self).tokens@,
            final(self).tokens@.last()@ == (TokenModel {
                token_type,
                lexeme: old(self).source@.subrange(
                    old(self).start as int,
                    old(self).current as int,
                ),
                literal: match literal {
                    Option::Some(l) => Option::Some(l@),
                    Option::None => Option::None,
                },
                line: old(self).line as nat,
            }),
    {
        let text = copy_range(&self.source, self.start, self.current);
        let line = self.line;
        self.tokens.push(Token { token_type, lexeme: text, literal, line });
        proof {
            assert(self.tokens@.drop_last() =~= old(self).tokens@);
        }
    }

    /// Recognizes a string literal whose opening quote sits at `start`:
    /// everything up to the next double quote is consumed verbatim, embedded
    /// newlines advance the line counter, and a missing closing quote is an
    /// unterminated-string error at the line scanning stopped on.
    fn string(&mut self) -> (r: Result<(), Error>)
        requires
            old(self).wf(),
            old(self).start + 1 == old(self).current,
            old(self).source@[old(self).start as int] == ('"' as u8),
        ensures
            final(self).source@ == old(self).source@,
            final(self).start == old(self).start,
            final(self).wf(),
            match r {
                Result::Ok(()) => {
                    let close = string_close(old(self).source@, old(self).current as nat);
                    &&& close < old(self).source@.len()
                    &&& final(self).current == close + 1
                    &&& final(self).line as nat == old(self).line as nat + count_newlines(
                        old(self).source@.subrange(old(self).current as int, close as int),
                    )
                    &&& final(self).tokens@.len() == old(self).tokens@.len() + 1
                    &&& final(self).tokens@.drop_last() == old(self).tokens@
                    &&& final(self).tokens@.last()@ == string_model(
                        old(self).source@,
                        old(self).start as nat,
                        close,
                        final(self).line as nat,
                    )
                },
                Result::Err(e) => {
                    &&& string_close(old(self).source@, old(self).current as nat) == old(
                        self,
                    ).source@.len()
                    &&& final(self).tokens@ == old(self).tokens@
                    &&& e.syntax_model() == Option::Some(
                        SyntaxErrorModel {
                            line: old(self).line as nat + count_newlines(
                                old(self).source@.subrange(
                                    old(self).current as int,
                                    old(self).source@.len() as int,
                                ),
                            ),
                            category: SyntaxCategory::UnterminatedString,
                            detail: old(self).source@.subrange(
                                old(self).start as int,
                                old(self).source@.len() as int,
                            ),
                        },
                    )
                },
            },
    {
        let ghost src = self.source@;
        let ghost cur0 = self.current as nat;
        let ghost line0 = self.line as nat;
        let ghost toks0 = self.tokens@;
        let ghost start0 = self.start;
        while self.peek() != ('"' as u8) && !self.is_at_end()
            invariant
                self.wf(),
                self.source@ == src,
                self.start == start0,
                self.tokens@ == toks0,
                cur0 <= self.current <= src.len(),
                forall|k: int| cur0 <= k < self.current ==> src[k] != ('"' as u8),
                self.line as nat == line0 + count_newlines(
                    src.subrange(cur0 as int, self.current as int),
                ),
            decreases src.len() - self.current,
        {
            let ghost cur_before = self.current as int;
            let c = self.advance();
            if c == ('\n' as u8) {
                self.line = self.line + 1;
            }
            proof {
                assert(src.subrange(cur0 as int, cur_before + 1).drop_last() =~= src.subrange(
                    cur0 as int,
                    cur_before,
                ));
                assert(src.subrange(cur0 as int, cur_before + 1).last() == src[cur_before]);
            }
        }
        if self.is_at_end() {
            proof {
                lemma_string_close_is(src, cur0, self.current as nat);
            }
            let detail = copy_range(&self.source, self.start, self.current);
            let e = Error::SyntaxError(self.line, SyntaxCategory::UnterminatedString, detail);
            proof {
                assert(e.syntax_model() matches Option::Some(m) && m =~~= (SyntaxErrorModel {
                    line: line0 + count_newlines(src.subrange(cur0 as int, src.len() as int)),
                    category: SyntaxCategory::UnterminatedString,
                    detail: src.subrange(start0 as int, src.len() as int),
                }));
            }
            return Result::Err(e);
        }
        proof {
            lemma_string_close_is(src, cur0, self.current as nat);
        }
        let body = copy_range(&self.source, self.start + 1, self.current);
        self.advance();
        self.add_token_literal(TokenType::String, Option::Some(Literal::Str(body)));
        proof {
            let close = string_close(src, cur0);
            assert(self.tokens@.last()@ =~~= string_model(
                src,
                start0 as nat,
                close,
                self.line as nat,
            ));
        }
        Result::Ok(())
    }

    /// Recognizes a number literal whose first digit sits at `start`: a
    /// maximal digit run, then a fractional part only if a dot is followed
    /// by another digit. The literal value keeps the digit text verbatim.
    fn number(&mut self)
        requires
            old(self).wf(),
            old(self).start + 1 == old(self).current,
            spec_is_digit(old(self).source@[old(self).start as int]),
        ensures
            final(self).wf(),
            final(self).source@ == old(self).source@,
            final(self).start == old(self).start,
            final(self).line == old(self).line,
            final(self).current == number_token_end(old(self).source@, old(self).start as nat),
            final(self).tokens@.len() == old(self).tokens@.len() + 1,
            final(self).tokens@.drop_last() == old(self).tokens@,
            final(self).tokens@.last()@ == number_model(
                old(self).source@,
                old(self).start as nat,
                number_token_end(old(self).source@, old(self).start as nat),
                old(self).line as nat,
            ),
    {
        let ghost src = self.source@;
        let ghost start0 = self.start;
        let ghost cur0 = self.current as nat;
        let ghost line0 = self.line;
        let ghost toks0 = self.tokens@;
        while is_digit(self.peek())
            invariant
                self.wf(),
                self.source@ == src,
                self.start == start0,
                self.tokens@ == toks0,
                self.line == line0,
                cur0 <= self.current <= src.len(),
                forall|k: int| start0 <= k < self.current ==> spec_is_digit(src[k]),
            decreases src.len() - self.current,
        {
            self.advance();
        }
        proof {
            lemma_digits_end_is(src, start0 as nat, self.current as nat);
        }
        let ghost j = digits_end(src, start0 as nat);
        if self.peek() == ('.' as u8) && is_digit(self.peek_next()) {
            self.advance();
            while is_digit(self.peek())
                invariant
                    self.wf(),
                    self.source@ == src,
                    self.start == start0,
                    self.tokens@ == toks0,
                    self.line == line0,
                    j + 1 <= self.current <= src.len(),
                    forall|k: int| j + 1 <= k < self.current ==> spec_is_digit(src[k]),
                decreases src.len() - self.current,
            {
                self.advance();
            }
            proof {
                lemma_digits_end_is(src, (j + 1) as nat, self.current as nat);
            }
        }
        proof {
            assert(self.current as nat == number_token_end(src, start0 as nat));
        }
        let text = copy_range(&self.source, self.start, self.current);
        self.add_token_literal(TokenType::Number, Option::Some(Literal::Number(text)));
        proof {
            assert(self.tokens@.last()@ =~~= number_model(
                src,
                start0 as nat,
                number_token_end(src, start0 as nat),
                line0 as nat,
            ));
        }
    }

    /// Recognizes an identifier or keyword whose first character sits at
    /// `start`: a maximal alphanumeric-or-underscore run, looked up in the
    /// keyword table.
    fn identifier(&mut self)
        requires
            old(self).wf(),
            old(self).start + 1 == old(self).current,
            spec_is_alpha(old(self).source@[old(self).start as int]),
        ensures
            final(self).wf(),
            final(self).source@ == old(self).source@,
            final(self).start == old(self).start,
            final(self).line == old(self).line,
            final(self).current == ident_end(old(self).source@, old(self).current as nat),
            final(self).tokens@.len() == old(self).tokens@.len() + 1,
            final(self).tokens@.drop_last() == old(self).tokens@,
            final(self).tokens@.last()@ == ident_model(
                old(self).source@,
                old(self).start as nat,
                ident_end(old(self).source@, old(self).current as nat),
                old(self).line as nat,
            ),
    {
        let ghost src = self.source@;
        let ghost start0 = self.start;
        let ghost cur0 = self.current as nat;
        let ghost line0 = self.line;
        let ghost toks0 = self.tokens@;
        while is_alphanumeric(self.peek())
            invariant
                self.wf(),
                self.source@ == src,
                self.start == start0,
                self.tokens@ == toks0,
                self.line == line0,
                cur0 <= self.current <= src.len(),
                forall|k: int| cur0 <= k < self.current ==> spec_is_alphanumeric(src[k]),
            decreases src.len() - self.current,
        {
            self.advance();
        }
        proof {
            lemma_ident_end_is(src, cur0, self.current as nat);
        }
        let text = copy_range(&self.source, self.start, self.current);
        match keyword_kind(&text) {
            Option::Some(kw) => {
                self.add_token(kw);
            },
            Option::None => {
                self.add_token_literal(
                    TokenType::Identifier,
                    Option::Some(Literal::Identifier(text)),
                );
            },
        }
        proof {
            assert(self.tokens@.last()@ =~~= ident_model(
                src,
                start0 as nat,
                ident_end(src, cur0),
                line0 as nat,
            ));
        }
    }

    /// Recognizes one lexeme (or discards whitespace or a comment) at the
    /// cursor, proved to agree with one step of the `scan_from` model.
    #[verifier::rlimit(60)]
    fn scan_token(&mut self) -> (r: Result<(), Error>)
        requires
            old(self).wf(),
            old(self).start == old(self).current,
            old(self).current < old(self).source@.len(),
        ensures
            final(self).source@ == old(self).source@,
            match r {
                Result::Ok(()) => {
                    &&& final(self).wf()
                    &&& final(self).current > old(self).current
                    &&& final(self).tokens@.len() >= old(self).tokens@.len()
                    &&& final(self).tokens@.take(old(self).tokens@.len() as int) == old(
                        self,
                    ).tokens@
                    &&& scan_from(
                        old(self).source@,
                        old(self).current as nat,
                        old(self).line as nat,
                    ) == scan_prepend(
                        token_models(final(self).tokens@.skip(old(self).tokens@.len() as int)),
                        scan_from(
                            old(self).source@,
                            final(self).current as nat,
                            final(self).line as nat,
                        ),
                    )
                },
                Result::Err(e) => e.syntax_model() matches Option::Some(m) && scan_from(
                    old(self).source@,
                    old(self).current as nat,
                    old(self).line as nat,
                ) == Result::<Seq<TokenModel>, SyntaxErrorModel>::Err(m),
            },
    {
        let ghost src = self.source@;
        let ghost i = self.current as nat;
        let ghost line0 = self.line as nat;
        let ghost toks0 = self.tokens@;
        let c = self.advance();
        if c == ('(' as u8) {
            self.add_token(TokenType::LeftParen);
            proof {
                assert(scan_from(src, i, line0) == scan_cons(
                    plain_model(TokenType::LeftParen, src, i, (i + 1) as nat, line0),
                    scan_from(src, (i + 1) as nat, line0),
                ));
                assert(self.tokens@.last()@ =~~= plain_model(
                    TokenType::LeftParen,
                    src,
                    i,
                    (i + 1) as nat,
                    line0,
                ));
                lemma_step_token(toks0, self.tokens@, src, i, line0, (i + 1) as nat, line0);
            }
            Result::Ok(())
        } else if c == (')' as u8) {
            self.add_token(TokenType::RightParen);
            proof {
                assert(scan_from(src, i, line0) == scan_cons(
                    plain_model(TokenType::RightParen, src, i, (i + 1) as nat, line0),
                    scan_from(src, (i + 1) as nat, line0),
                ));
                assert(self.tokens@.last()@ =~~= plain_model(
                    TokenType::RightParen,
                    src,
                    i,
                    (i + 1) as nat,
                    line0,
                ));
                lemma_step_token(toks0, self.tokens@, src, i, line0, (i + 1) as nat, line0);
            }
            Result::Ok(())
        } else if c == ('{' as u8) {
            self.add_token(TokenType::LeftBrace);
            proof {
                assert(scan_from(src, i, line0) == scan_cons(
                    plain_model(TokenType::LeftBrace, src, i, (i + 1) as nat, line0),
                    scan_from(src, (i + 1) as nat, line0),
                ));
                assert(self.tokens@.last()@ =~~= plain_model(
                    TokenType::LeftBrace,
                    src,
                    i,
                    (i + 1) as nat,
                    line0,
                ));
                lemma_step_token(toks0, self.tokens@, src, i, line0, (i + 1) as nat, line0);
            }
            Result::Ok(())
        } else if c == ('}' as u8) {
            self.add_token(TokenType::RightBrace);
            proof {
                assert(scan_from(src, i, line0) == scan_cons(
                    plain_model(TokenType::RightBrace, src, i, (i + 1) as nat, line0),
                    scan_from(src, (i + 1) as nat, line0),
                ));
                assert(self.tokens@.last()@ =~~= plain_model(
                    TokenType::RightBrace,
                    src,
                    i,
                    (i + 1) as nat,
                    line0,
                ));
                lemma_step_token(toks0, self.tokens@, src, i, line0, (i + 1) as nat, line0);
            }
            Result::Ok(())
        } else if c == (',' as u8) {
            self.add_token(TokenType::Comma);
            proof {
                assert(scan_from(src, i, line0) == scan_cons(
                    plain_model(TokenType::Comma, src, i, (i + 1) as nat, line0),
                    scan_from(src, (i + 1) as nat, line0),
                ));
                assert(self.tokens@.last()@ =~~= plain_model(
                    TokenType::Comma,
                    src,
                    i,
                    (i + 1) as nat,
                    line0,
                ));
                lemma_step_token(toks0, self.tokens@, src, i, line0, (i + 1) as nat, line0);
            }
            Result::Ok(())
        } else if c == ('.' as u8) {
            self.add_token(TokenType::Dot);
            proof {
                assert(scan_from(src, i, line0) == scan_cons(
                    plain_model(TokenType::Dot, src, i, (i + 1) as nat, line0),
                    scan_from(src, (i + 1) as nat, line0),
                ));
                assert(self.tokens@.last()@ =~~= plain_model(
                    TokenType::Dot,
                    src,
                    i,
                    (i + 1) as nat,
                    line0,
                ));
                lemma_step_token(toks0, self.tokens@, src, i, line0, (i + 1) as nat, line0);
            }
            Result::Ok(())
        } else if c == ('-' as u8) {
            self.add_token(TokenType::Minus);
            proof {
                assert(scan_from(src, i, line0) == scan_cons(
                    plain_model(TokenType::Minus, src, i, (i + 1) as nat, line0),
                    scan_from(src, (i + 1) as nat, line0),
                ));
                assert(self.tokens@.last()@ =~~= plain_model(
                    TokenType::Minus,
                    src,
                    i,
                    (i + 1) as nat,
                    line0,
                ));
                lemma_step_token(toks0, self.tokens@, src, i, line0, (i + 1) as nat, line0);
            }
            Result::Ok(())
        } else if c == ('+' as u8) {
            self.add_token(TokenType::Plus);
            proof {
                assert(scan_from(src, i, line0) == scan_cons(
                    plain_model(TokenType::Plus, src, i, (i + 1) as nat, line0),
                    scan_from(src, (i + 1) as nat, line0),
                ));
                assert(self.tokens@.last()@ =~~= plain_model(
                    TokenType::Plus,
                    src,
                    i,
                    (i + 1) as nat,
                    line0,
                ));
                lemma_step_token(toks0, self.tokens@, src, i, line0, (i + 1) as nat, line0);
            }
            Result::Ok(())
        } else if c == (';' as u8) {
            self.add_token(TokenType::Semicolon);
            proof {
                assert(scan_from(src, i, line0) == scan_cons(
                    plain_model(TokenType::Semicolon, src, i, (i + 1) as nat, line0),
                    scan_from(src, (i + 1) as nat, line0),
                ));
                assert(self.tokens@.last()@ =~~= plain_model(
                    TokenType::Semicolon,
                    src,
                    i,
                    (i + 1) as nat,
                    line0,
                ));
                lemma_step_token(toks0, self.tokens@, src, i, line0, (i + 1) as nat, line0);
            }
            Result::Ok(())
        } else if c == ('*' as u8) {
            self.add_token(TokenType::Star);
            proof {
                assert(scan_from(src, i, line0) == scan_cons(
                    plain_model(TokenType::Star, src, i, (i + 1) as nat, line0),
                    scan_from(src, (i + 1) as nat, line0),
                ));
                assert(self.tokens@.last()@ =~~= plain_model(
                    TokenType::Star,
                    src,
                    i,
                    (i + 1) as nat,
                    line0,
                ));
                lemma_step_token(toks0, self.tokens@, src, i, line0, (i + 1) as nat, line0);
            }
            Result::Ok(())
        } else if c == ('!' as u8) {
            if self.matches('=' as u8) {
                self.add_token(TokenType::BangEqual);
                proof {
                    assert(scan_from(src, i, line0) == scan_cons(
                        plain_model(TokenType::BangEqual, src, i, (i + 2) as nat, line0),
                        scan_from(src, (i + 2) as nat, line0),
                    ));
                    assert(self.tokens@.last()@ =~~= plain_model(
                        TokenType::BangEqual,
                        src,
                        i,
                        (i + 2) as nat,
                        line0,
                    ));
                    lemma_step_token(toks0, self.tokens@, src, i, line0, (i + 2) as nat, line0);
                }
            } else {
                self.add_token(TokenType::Bang);
                proof {
                    assert(scan_from(src, i, line0) == scan_cons(
                        plain_model(TokenType::Bang, src, i, (i + 1) as nat, line0),
                        scan_from(src, (i + 1) as nat, line0),
                    ));
                    assert(self.tokens@.last()@ =~~= plain_model(
                        TokenType::Bang,
                        src,
                        i,
                        (i + 1) as nat,
                        line0,
                    ));
                    lemma_step_token(toks0, self.tokens@, src, i, line0, (i + 1) as nat, line0);
                }
            }
            Result::Ok(())
        } else if c == ('=' as u8) {
            if self.matches('=' as u8) {
                self.add_token(TokenType::EqualEqual);
                proof {
                    assert(scan_from(src, i, line0) == scan_cons(
                        plain_model(TokenType::EqualEqual, src, i, (i + 2) as nat, line0),
                        scan_from(src, (i + 2) as nat, line0),
                    ));
                    assert(self.tokens@.last()@ =~~= plain_model(
                        TokenType::EqualEqual,
                        src,
                        i,
                        (i + 2) as nat,
                        line0,
                    ));
                    lemma_step_token(toks0, self.tokens@, src, i, line0, (i + 2) as nat, line0);
                }
            } else {
                self.add_token(TokenType::Equal);
                proof {
                    assert(scan_from(src, i, line0) == scan_cons(
                        plain_model(TokenType::Equal, src, i, (i + 1) as nat, line0),
                        scan_from(src, (i + 1) as nat, line0),
                    ));
                    assert(self.tokens@.last()@ =~~= plain_model(
                        TokenType::Equal,
                        src,
                        i,
                        (i + 1) as nat,
                        line0,
                    ));
                    lemma_step_token(toks0, self.tokens@, src, i, line0, (i + 1) as nat, line0);
                }
            }
            Result::Ok(())
        } else if c == ('<' as u8) {
            if self.matches('=' as u8) {
                self.add_token(TokenType::LessEqual);
                proof {
                    assert(scan_from(src, i, line0) == scan_cons(
                        plain_model(TokenType::LessEqual, src, i, (i + 2) as nat, line0),
                        scan_from(src, (i + 2) as nat, line0),
                    ));
                    assert(self.tokens@.last()@ =~~= plain_model(
                        TokenType::LessEqual,
                        src,
                        i,
                        (i + 2) as nat,
                        line0,
                    ));
                    lemma_step_token(toks0, self.tokens@, src, i, line0, (i + 2) as nat, line0);
                }
            } else {
                self.add_token(TokenType::Less);
                proof {
                    assert(scan_from(src, i, line0) == scan_cons(
                        plain_model(TokenType::Less, src, i, (i + 1) as nat, line0),
                        scan_from(src, (i + 1) as nat, line0),
                    ));
                    assert(self.tokens@.last()@ =~~= plain_model(
                        TokenType::Less,
                        src,
                        i,
                        (i + 1) as nat,
                        line0,
                    ));
                    lemma_step_token(toks0, self.tokens@, src, i, line0, (i + 1) as nat, line0);
                }
            }
            Result::Ok(())
        } else if c == ('>' as u8) {
            if self.matches('=' as u8) {
                self.add_token(TokenType::GreaterEqual);
                proof {
                    assert(scan_from(src, i, line0) == scan_cons(
                        plain_model(TokenType::GreaterEqual, src, i, (i + 2) as nat, line0),
                        scan_from(src, (i + 2) as nat, line0),
                    ));
                    assert(self.tokens@.last()@ =~~= plain_model(
                        TokenType::GreaterEqual,
                        src,
                        i,
                        (i + 2) as nat,
                        line0,
                    ));
                    lemma_step_token(toks0, self.tokens@, src, i, line0, (i + 2) as nat, line0);
                }
            } else {
                self.add_token(TokenType::Greater);
                proof {
                    assert(scan_from(src, i, line0) == scan_cons(
                        plain_model(TokenType::Greater, src, i, (i + 1) as nat, line0),
                        scan_from(src, (i + 1) as nat, line0),
                    ));
                    assert(self.tokens@.last()@ =~~= plain_model(
                        TokenType::Greater,
                        src,
                        i,
                        (i + 1) as nat,
                        line0,
                    ));
                    lemma_step_token(toks0, self.tokens@, src, i, line0, (i + 1) as nat, line0);
                }
            }
            Result::Ok(())
        } else if c == ('/' as u8) {
            if self.matches('/' as u8) {
                while self.peek() != ('\n' as u8) && !self.is_at_end()
                    invariant
                        self.wf(),
                        self.source@ == src,
                        self.start as nat == i,
                        self.tokens@ == toks0,
                        self.line as nat == line0,
                        i + 2 <= self.current <= src.len(),
                        forall|k: int| i + 2 <= k < self.current ==> src[k] != ('\n' as u8),
                    decreases src.len() - self.current,
                {
                    self.advance();
                }
                proof {
                    lemma_comment_end_is(src, (i + 2) as nat, self.current as nat);
                    assert(scan_from(src, i, line0) == scan_from(
                        src,
                        comment_end(src, (i + 2) as nat),
                        line0,
                    ));
                    lemma_step_skip(
                        self.tokens@,
                        scan_from(src, self.current as nat, self.line as nat),
                    );
                }
                Result::Ok(())
            } else {
                self.add_token(TokenType::Slash);
                proof {
                    assert(scan_from(src, i, line0) == scan_cons(
                        plain_model(TokenType::Slash, src, i, (i + 1) as nat, line0),
                        scan_from(src, (i + 1) as nat, line0),
                    ));
                    assert(self.tokens@.last()@ =~~= plain_model(
                        TokenType::Slash,
                        src,
                        i,
                        (i + 1) as nat,
                        line0,
                    ));
                    lemma_step_token(toks0, self.tokens@, src, i, line0, (i + 1) as nat, line0);
                }
                Result::Ok(())
            }
        } else if c == (' ' as u8) || c == ('\r' as u8) || c == ('\t' as u8) {
            proof {
                assert(scan_from(src, i, line0) == scan_from(src, (i + 1) as nat, line0));
                lemma_step_skip(
                    self.tokens@,
                    scan_from(src, self.current as nat, self.line as nat),
                );
            }
            Result::Ok(())
        } else if c == ('\n' as u8) {
            self.line = self.line + 1;
            proof {
                assert(scan_from(src, i, line0) == scan_from(
                    src,
                    (i + 1) as nat,
                    (line0 + 1) as nat,
                ));
                lemma_step_skip(
                    self.tokens@,
                    scan_from(src, self.current as nat, self.line as nat),
                );
            }
            Result::Ok(())
        } else if c == ('"' as u8) {
            match self.string() {
                Result::Ok(()) => {
                    proof {
                        lemma_string_close(src, (i + 1) as nat);
                        let close = string_close(src, (i + 1) as nat);
                        assert(scan_from(src, i, line0) == scan_cons(
                            string_model(src, i, close, self.line as nat),
                            scan_from(src, (close + 1) as nat, self.line as nat),
                        ));
                        lemma_step_token(
                            toks0,
                            self.tokens@,
                            src,
                            i,
                            line0,
                            (close + 1) as nat,
                            self.line as nat,
                        );
                    }
                    Result::Ok(())
                },
                Result::Err(e) => {
                    proof {
                        assert(scan_from(src, i, line0)
                            == Result::<Seq<TokenModel>, SyntaxErrorModel>::Err(
                            SyntaxErrorModel {
                                line: line0 + count_newlines(
                                    src.subrange(i as int + 1, src.len() as int),
                                ),
                                category: SyntaxCategory::UnterminatedString,
                                detail: src.subrange(i as int, src.len() as int),
                            },
                        ));
                    }
                    Result::Err(e)
                },
            }
        } else if is_digit(c) {
            self.number();
            proof {
                lemma_number_token_end(src, i);
                let end = number_token_end(src, i);
                assert(scan_from(src, i, line0) == scan_cons(
                    number_model(src, i, end, line0),
                    scan_from(src, end, line0),
                ));
                lemma_step_token(toks0, self.tokens@, src, i, line0, end, line0);
            }
            Result::Ok(())
        } else if is_alpha(c) {
            self.identifier();
            proof {
                lemma_ident_end(src, (i + 1) as nat);
                let end = ident_end(src, (i + 1) as nat);
                assert(scan_from(src, i, line0) == scan_cons(
                    ident_model(src, i, end, line0),
                    scan_from(src, end, line0),
                ));
                lemma_step_token(toks0, self.tokens@, src, i, line0, end, line0);
            }
            Result::Ok(())
        } else {
            let mut d: Vec<u8> = Vec::new();
            d.push(c);
            let e = Error::SyntaxError(self.line, SyntaxCategory::UnexpectedCharacter, d);
            proof {
                assert(d@ =~= seq![c]);
                assert(scan_from(src, i, line0)
                    == Result::<Seq<TokenModel>, SyntaxErrorModel>::Err(
                    SyntaxErrorModel {
                        line: line0,
                        category: SyntaxCategory::UnexpectedCharacter,
                        detail: seq![c],
                    },
                ));
            }
            Result::Err(e)
        }
    }

    /// Scans the whole source to completion: on success the token sequence
    /// ends in exactly one end-of-input token and equals the `scan_from`
    /// model of the source; on failure the first syntax error is returned.
    pub fn scan_tokens(self) -> (r: Result<Vec<Token>, Error>)
        requires
            self.wf(),
            self.tokens@.len() == 0,
        ensures
            match r {
                Result::Ok(toks) => scan_from(
                    self.source@,
                    self.current as nat,
                    self.line as nat,
                ) == Result::<Seq<TokenModel>, SyntaxErrorModel>::Ok(token_models(toks@)),
                Result::Err(e) => e.syntax_model() matches Option::Some(m) && scan_from(
                    self.source@,
                    self.current as nat,
                    self.line as nat,
                ) == Result::<Seq<TokenModel>, SyntaxErrorModel>::Err(m),
            },
    {
        let mut sc = self;
        let ghost src = sc.source@;
        let ghost i0 = sc.current as nat;
        let ghost l0 = sc.line as nat;
        proof {
            lemma_step_skip(sc.tokens@, scan_from(src, i0, l0));
            assert(sc.tokens@.skip(0) =~= sc.tokens@);
            assert(token_models(sc.tokens@) =~= Seq::<TokenModel>::empty());
        }
        while !sc.is_at_end()
            invariant
                sc.wf(),
                sc.source@ == src,
                src == self.source@,
                i0 == self.current as nat,
                l0 == self.line as nat,
                i0 <= src.len(),
                1 <= l0,
                scan_prepend(
                    token_models(sc.tokens@),
                    scan_from(src, sc.current as nat, sc.line as nat),
                ) == scan_from(src, i0, l0),
            decreases src.len() - sc.current,
        {
            sc.start = sc.current;
            let ghost toks_b = sc.tokens@;
            let ghost cur_b = sc.current as nat;
            let ghost line_b = sc.line as nat;
            let res = sc.scan_token();
            match res {
                Result::Ok(()) => {
                    proof {
                        let delta = sc.tokens@.skip(toks_b.len() as int);
                        assert(sc.tokens@ =~= sc.tokens@.take(toks_b.len() as int) + delta);
                        lemma_token_models_concat(toks_b, delta);
                        lemma_prepend_prepend(
                            token_models(toks_b),
                            token_models(delta),
                            scan_from(src, sc.current as nat, sc.line as nat),
                        );
                    }
                },
                Result::Err(e) => {
                    proof {
                        assert(scan_prepend(
                            token_models(toks_b),
                            scan_from(src, cur_b, line_b),
                        ) == scan_from(src, i0, l0));
                        assert(scan_from(src, cur_b, line_b) matches Result::Err(_));
                    }
                    return Result::Err(e);
                },
            }
        }
        proof {
            assert(scan_from(src, sc.current as nat, sc.line as nat)
                == Result::<Seq<TokenModel>, SyntaxErrorModel>::Ok(
                seq![eof_model(sc.line as nat)],
            ));
        }
        let ghost toks_pre = sc.tokens@;
        let line = sc.line;
        sc.tokens.push(
            Token { token_type: TokenType::Eof, lexeme: Vec::new(), literal: Option::None, line },
        );
        proof {
            assert(sc.tokens@.last()@ =~~= eof_model(line as nat));
            assert(token_models(sc.tokens@) =~= token_models(toks_pre).push(
                sc.tokens@.last()@,
            ));
            assert(token_models(toks_pre) + seq![eof_model(line as nat)] =~= token_models(
                sc.tokens@,
            ));
        }
        Result::Ok(sc.tokens)
    }
}

/// One scanner step that recognized the token `toks1.last()` equals one
/// model step that prepends that token's model.
proof fn lemma_step_token(
    toks0: Seq<Token>,
    toks1: Seq<Token>,
    src: Seq<u8>,
    i: nat,
    line: nat,
    ni: nat,
    nl: nat,
)
    requires
        toks1.len() == toks0.len() + 1,
        toks1.drop_last() == toks0,
        scan_from(src, i, line) == scan_cons(toks1.last()@, scan_from(src, ni, nl)),
    ensures
        toks1.take(toks0.len() as int) == toks0,
        scan_from(src, i, line) == scan_prepend(
            token_models(toks1.skip(toks0.len() as int)),
            scan_from(src, ni, nl),
        ),
{
    assert(toks1.take(toks0.len() as int) =~= toks0);
    assert(toks1.skip(toks0.len() as int) =~= seq![toks1.last()]);
    assert(token_models(toks1.skip(toks0.len() as int)) =~= seq![toks1.last()@]);
}

/// A scanner step that recognized no token (whitespace, newline, comment)
/// leaves the model outcome unchanged.
proof fn lemma_step_skip(toks: Seq<Token>, rest: Result<Seq<TokenModel>, SyntaxErrorModel>)
    ensures
        toks.take(toks.len() as int) == toks,
        scan_prepend(token_models(toks.skip(toks.len() as int)), rest) == rest,
{
    assert(toks.take(toks.len() as int) =~= toks);
    assert(toks.skip(toks.len() as int) =~= Seq::<Token>::empty());
    assert(token_models(toks.skip(toks.len() as int)) =~= Seq::<TokenModel>::empty());
    match rest {
        Result::Ok(r) => {
            assert(Seq::<TokenModel>::empty() + r =~= r);
        },
        Result::Err(_) => {},
    }
}

/// True of the bytes that form a decimal digit.
fn is_digit(c: u8) -> (r: bool)
    ensures
        r == spec_is_digit(c),
{
    ('0' as u8) <= c && c <= ('9' as u8)
}

/// True of the bytes that may begin an identifier.
fn is_alpha(c: u8) -> (r: bool)
    ensures
        r == spec_is_alpha(c),
{
    (('a' as u8) <= c && c <= ('z' as u8)) || (('A' as u8) <= c && c <= ('Z' as u8)) || c == (
    '_' as u8)
}

/// True of the bytes that may continue an identifier.
fn is_alphanumeric(c: u8) -> (r: bool)
    ensures
        r == spec_is_alphanumeric(c),
{
    is_alpha(c) || is_digit(c)
}

} // verus!
