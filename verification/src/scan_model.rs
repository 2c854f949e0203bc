//! Mathematical model of tokenization: one spec function, `scan_from`,
//! defines the token sequence (or the syntax error) that a source text
//! denotes. The scanner's contract is equality with this model.

use vstd::prelude::*;

use crate::error::{SyntaxCategory, SyntaxErrorModel};
use crate::token::{LiteralModel, TokenModel, TokenType};

verus! {

/// True of the bytes that form a decimal digit.
pub open spec fn spec_is_digit(c: u8) -> bool {
    ('0' as u8) <= c && c <= ('9' as u8)
}

/// True of the bytes that may begin an identifier: ASCII letters and the
/// underscore.
pub open spec fn spec_is_alpha(c: u8) -> bool {
    (('a' as u8) <= c && c <= ('z' as u8)) || (('A' as u8) <= c && c <= ('Z' as u8)) || c == (
    '_' as u8)
}

/// True of the bytes that may continue an identifier.
pub open spec fn spec_is_alphanumeric(c: u8) -> bool {
    spec_is_alpha(c) || spec_is_digit(c)
}

/// End of the maximal digit run starting at `i`: the first index at or after
/// `i` that is past the end or holds a non-digit.
pub open spec fn digits_end(src: Seq<u8>, i: nat) -> nat
    decreases src.len() - i,
    when i <= src.len()
{
    if i < src.len() && spec_is_digit(src[i as int]) {
        digits_end(src, i + 1)
    } else {
        i
    }
}

/// End of the maximal identifier-continuation run starting at `i`.
pub open spec fn ident_end(src: Seq<u8>, i: nat) -> nat
    decreases src.len() - i,
    when i <= src.len()
{
    if i < src.len() && spec_is_alphanumeric(src[i as int]) {
        ident_end(src, i + 1)
    } else {
        i
    }
}

/// First index at or after `i` holding a newline, or the end of the source:
/// where a line comment stops being discarded.
pub open spec fn comment_end(src: Seq<u8>, i: nat) -> nat
    decreases src.len() - i,
    when i <= src.len()
{
    if i < src.len() && src[i as int] != ('\n' as u8) {
        comment_end(src, i + 1)
    } else {
        i
    }
}

/// First index at or after `i` holding a double quote, or the end of the
/// source: where a string literal's body stops.
pub open spec fn string_close(src: Seq<u8>, i: nat) -> nat
    decreases src.len() - i,
    when i <= src.len()
{
    if i < src.len() && src[i as int] != ('"' as u8) {
        string_close(src, i + 1)
    } else {
        i
    }
}

/// How many newline bytes a slice holds; string literals may span lines, and
/// each embedded newline advances the line counter.
pub open spec fn count_newlines(s: Seq<u8>) -> nat
    decreases s.len(),
{
    if s.len() == 0 {
        0
    } else {
        count_newlines(s.drop_last()) + if s.last() == ('\n' as u8) {
            1nat
        } else {
            0nat
        }
    }
}

/// The keyword table: which identifier texts are reserved words, and the
/// token kind each one yields.
pub open spec fn spec_keyword(s: Seq<u8>) -> Option<TokenType> {
    if s == seq!['a' as u8, 'n' as u8, 'd' as u8] {
        Option::Some(TokenType::And)
    } else if s == seq!['c' as u8, 'l' as u8, 'a' as u8, 's' as u8, 's' as u8] {
        Option::Some(TokenType::Class)
    } else if s == seq!['e' as u8, 'l' as u8, 's' as u8, 'e' as u8] {
        Option::Some(TokenType::Else)
    } else if s == seq!['f' as u8, 'a' as u8, 'l' as u8, 's' as u8, 'e' as u8] {
        Option::Some(TokenType::False)
    } else if s == seq!['f' as u8, 'o' as u8, 'r' as u8] {
        Option::Some(TokenType::For)
    } else if s == seq!['f' as u8, 'u' as u8, 'n' as u8] {
        Option::Some(TokenType::Fun)
    } else if s == seq!['i' as u8, 'f' as u8] {
        Option::Some(TokenType::If)
    } else if s == seq!['n' as u8, 'i' as u8, 'l' as u8] {
        Option::Some(TokenType::Nil)
    } else if s == seq!['o' as u8, 'r' as u8] {
        Option::Some(TokenType::Or)
    } else if s == seq!['p' as u8, 'r' as u8, 'i' as u8, 'n' as u8, 't' as u8] {
        Option::Some(TokenType::Print)
    } else if s == seq!['r' as u8, 'e' as u8, 't' as u8, 'u' as u8, 'r' as u8, 'n' as u8] {
        Option::Some(TokenType::Return)
    } else if s == seq!['s' as u8, 'u' as u8, 'p' as u8, 'e' as u8, 'r' as u8] {
        Option::Some(TokenType::Super)
    } else if s == seq!['t' as u8, 'h' as u8, 'i' as u8, 's' as u8] {
        Option::Some(TokenType::This)
    } else if s == seq!['t' as u8, 'r' as u8, 'u' as u8, 'e' as u8] {
        Option::Some(TokenType::True)
    } else if s == seq!['v' as u8, 'a' as u8, 'r' as u8] {
        Option::Some(TokenType::Var)
    } else if s == seq!['w' as u8, 'h' as u8, 'i' as u8, 'l' as u8, 'e' as u8] {
        Option::Some(TokenType::While)
    } else {
        Option::None
    }
}

/// The end-of-input sentinel: empty lexeme, no literal, the line scanning
/// stopped on.
pub open spec fn eof_model(line: nat) -> TokenModel {
    TokenModel {
        token_type: TokenType::Eof,
        lexeme: Seq::empty(),
        literal: Option::None,
        line,
    }
}

/// A token without a literal value whose lexeme is `src[start..end]`.
pub open spec fn plain_model(
    tt: TokenType,
    src: Seq<u8>,
    start: nat,
    end: nat,
    line: nat,
) -> TokenModel {
    TokenModel {
        token_type: tt,
        lexeme: src.subrange(start as int, end as int),
        literal: Option::None,
        line,
    }
}

/// The string token recognized by the opening quote at `start` and the
/// closing quote at `close`: the lexeme includes both quotes, the literal
/// value is the text strictly between them.
pub open spec fn string_model(src: Seq<u8>, start: nat, close: nat, line: nat) -> TokenModel {
    TokenModel {
        token_type: TokenType::String,
        lexeme: src.subrange(start as int, close as int + 1),
        literal: Option::Some(LiteralModel::Str(src.subrange(start as int + 1, close as int))),
        line,
    }
}

/// The number token spanning `src[start..end]`: the literal value keeps the
/// digit text itself.
pub open spec fn number_model(src: Seq<u8>, start: nat, end: nat, line: nat) -> TokenModel {
    TokenModel {
        token_type: TokenType::Number,
        lexeme: src.subrange(start as int, end as int),
        literal: Option::Some(LiteralModel::Number(src.subrange(start as int, end as int))),
        line,
    }
}

/// The identifier-or-keyword token spanning `src[start..end]`: an exact
/// match in the keyword table yields the keyword kind with no literal value,
/// anything else an identifier whose literal value is the text itself.
pub open spec fn ident_model(src: Seq<u8>, start: nat, end: nat, line: nat) -> TokenModel {
    let text = src.subrange(start as int, end as int);
    match spec_keyword(text) {
        Option::Some(kw) => TokenModel {
            token_type: kw,
            lexeme: text,
            literal: Option::None,
            line,
        },
        Option::None => TokenModel {
            token_type: TokenType::Identifier,
            lexeme: text,
            literal: Option::Some(LiteralModel::Identifier(text)),
            line,
        },
    }
}

/// Where a number token recognized at a digit `src[i]` ends: the maximal
/// digit run, then a fractional part only if a dot is followed by another
/// digit (a trailing dot is not consumed).
pub open spec fn number_token_end(src: Seq<u8>, i: nat) -> nat {
    let j = digits_end(src, i);
    if j < src.len() && src[j as int] == ('.' as u8) && j + 1 < src.len() && spec_is_digit(
        src[j as int + 1],
    ) {
        digits_end(src, (j + 1) as nat)
    } else {
        j
    }
}

/// Prepends one recognized token to the outcome of scanning the rest.
pub open spec fn scan_cons(
    t: TokenModel,
    rest: Result<Seq<TokenModel>, SyntaxErrorModel>,
) -> Result<Seq<TokenModel>, SyntaxErrorModel> {
    match rest {
        Result::Ok(r) => Result::Ok(seq![t] + r),
        Result::Err(e) => Result::Err(e),
    }
}

pub proof fn lemma_digits_end(src: Seq<u8>, i: nat)
    requires
        i <= src.len(),
    ensures
        i <= digits_end(src, i) <= src.len(),
        forall|k: int| i <= k < digits_end(src, i) ==> spec_is_digit(src[k]),
        digits_end(src, i) < src.len() ==> !spec_is_digit(src[digits_end(src, i) as int]),
    decreases src.len() - i,
{
    if i < src.len() && spec_is_digit(src[i as int]) {
        lemma_digits_end(src, i + 1);
    }
}

pub proof fn lemma_ident_end(src: Seq<u8>, i: nat)
    requires
        i <= src.len(),
    ensures
        i <= ident_end(src, i) <= src.len(),
        forall|k: int| i <= k < ident_end(src, i) ==> spec_is_alphanumeric(src[k]),
        ident_end(src, i) < src.len() ==> !spec_is_alphanumeric(src[ident_end(src, i) as int]),
    decreases src.len() - i,
{
    if i < src.len() && spec_is_alphanumeric(src[i as int]) {
        lemma_ident_end(src, i + 1);
    }
}

pub proof fn lemma_comment_end(src: Seq<u8>, i: nat)
    requires
        i <= src.len(),
    ensures
        i <= comment_end(src, i) <= src.len(),
        forall|k: int| i <= k < comment_end(src, i) ==> src[k] != ('\n' as u8),
        comment_end(src, i) < src.len() ==> src[comment_end(src, i) as int] == ('\n' as u8),
    decreases src.len() - i,
{
    if i < src.len() && src[i as int] != ('\n' as u8) {
        lemma_comment_end(src, i + 1);
    }
}

pub proof fn lemma_string_close(src: Seq<u8>, i: nat)
    requires
        i <= src.len(),
    ensures
        i <= string_close(src, i) <= src.len(),
        forall|k: int| i <= k < string_close(src, i) ==> src[k] != ('"' as u8),
        string_close(src, i) < src.len() ==> src[string_close(src, i) as int] == ('"' as u8),
    decreases src.len() - i,
{
    if i < src.len() && src[i as int] != ('"' as u8) {
        lemma_string_close(src, i + 1);
    }
}

pub proof fn lemma_number_token_end(src: Seq<u8>, i: nat)
    requires
        i < src.len(),
        spec_is_digit(src[i as int]),
    ensures
        i < number_token_end(src, i) <= src.len(),
    decreases src.len() - i,
{
    lemma_digits_end(src, i);
    let j = digits_end(src, i);
    if j < src.len() && src[j as int] == ('.' as u8) && j + 1 < src.len() && spec_is_digit(
        src[j as int + 1],
    ) {
        lemma_digits_end(src, (j + 1) as nat);
    }
}

/// A maximal-run end is wherever a run of digits stops: this pins
/// `digits_end` down from the facts an executable left-to-right walk has.
pub proof fn lemma_digits_end_is(src: Seq<u8>, a: nat, m: nat)
    requires
        a <= m <= src.len(),
        forall|k: int| a <= k < m ==> spec_is_digit(src[k]),
        m == src.len() || !spec_is_digit(src[m as int]),
    ensures
        digits_end(src, a) == m,
    decreases m - a,
{
    if a < m {
        lemma_digits_end_is(src, a + 1, m);
    }
}

pub proof fn lemma_ident_end_is(src: Seq<u8>, a: nat, m: nat)
    requires
        a <= m <= src.len(),
        forall|k: int| a <= k < m ==> spec_is_alphanumeric(src[k]),
        m == src.len() || !spec_is_alphanumeric(src[m as int]),
    ensures
        ident_end(src, a) == m,
    decreases m - a,
{
    if a < m {
        lemma_ident_end_is(src, a + 1, m);
    }
}

pub proof fn lemma_comment_end_is(src: Seq<u8>, a: nat, m: nat)
    requires
        a <= m <= src.len(),
        forall|k: int| a <= k < m ==> src[k] != ('\n' as u8),
        m == src.len() || src[m as int] == ('\n' as u8),
    ensures
        comment_end(src, a) == m,
    decreases m - a,
{
    if a < m {
        lemma_comment_end_is(src, a + 1, m);
    }
}

pub proof fn lemma_string_close_is(src: Seq<u8>, a: nat, m: nat)
    requires
        a <= m <= src.len(),
        forall|k: int| a <= k < m ==> src[k] != ('"' as u8),
        m == src.len() || src[m as int] == ('"' as u8),
    ensures
        string_close(src, a) == m,
    decreases m - a,
{
    if a < m {
        lemma_string_close_is(src, a + 1, m);
    }
}

/// A slice without newline bytes holds zero of them.
pub proof fn lemma_count_newlines_zero(s: Seq<u8>)
    requires
        forall|k: int| 0 <= k < s.len() ==> s[k] != ('\n' as u8),
    ensures
        count_newlines(s) == 0,
    decreases s.len(),
{
    if s.len() > 0 {
        lemma_count_newlines_zero(s.drop_last());
    }
}

/// Newline counting distributes over concatenation.
pub proof fn lemma_count_newlines_concat(a: Seq<u8>, b: Seq<u8>)
    ensures
        count_newlines(a + b) == count_newlines(a) + count_newlines(b),
    decreases b.len(),
{
    if b.len() == 0 {
        assert(a + b =~= a);
    } else {
        lemma_count_newlines_concat(a, b.drop_last());
        assert((a + b).drop_last() =~= a + b.drop_last());
        assert((a + b).last() == b.last());
    }
}

/// Prepends the tokens already recognized to the outcome of scanning the
/// rest of the source.
pub open spec fn scan_prepend(
    pre: Seq<TokenModel>,
    rest: Result<Seq<TokenModel>, SyntaxErrorModel>,
) -> Result<Seq<TokenModel>, SyntaxErrorModel> {
    match rest {
        Result::Ok(r) => Result::Ok(pre + r),
        Result::Err(e) => Result::Err(e),
    }
}

pub proof fn lemma_prepend_prepend(
    a: Seq<TokenModel>,
    b: Seq<TokenModel>,
    rest: Result<Seq<TokenModel>, SyntaxErrorModel>,
)
    ensures
        scan_prepend(a, scan_prepend(b, rest)) == scan_prepend(a + b, rest),
{
    match rest {
        Result::Ok(r) => {
            assert(a + (b + r) =~= (a + b) + r);
        },
        Result::Err(_) => {},
    }
}

/// The token sequence, or the first syntax error, that scanning `src` from
/// position `i` on line `line` yields. This is the reference meaning of the
/// scanner: a single left-to-right pass with one- or two-byte lookahead,
/// maximal munch for two-character operators, numbers, and identifiers,
/// comments and whitespace discarded, and exactly one trailing end-of-input
/// token on success.
pub open spec fn scan_from(src: Seq<u8>, i: nat, line: nat) -> Result<
    Seq<TokenModel>,
    SyntaxErrorModel,
>
    decreases src.len() - i,
    when i <= src.len()
{
    if i >= src.len() {
        Result::Ok(seq![eof_model(line)])
    } else {
        let c = src[i as int];
        if c == ('(' as u8) {
            scan_cons(
                plain_model(TokenType::LeftParen, src, i, i + 1, line),
                scan_from(src, i + 1, line),
            )
        } else if c == (')' as u8) {
            scan_cons(
                plain_model(TokenType::RightParen, src, i, i + 1, line),
                scan_from(src, i + 1, line),
            )
        } else if c == ('{' as u8) {
            scan_cons(
                plain_model(TokenType::LeftBrace, src, i, i + 1, line),
                scan_from(src, i + 1, line),
            )
        } else if c == ('}' as u8) {
            scan_cons(
                plain_model(TokenType::RightBrace, src, i, i + 1, line),
                scan_from(src, i + 1, line),
            )
        } else if c == (',' as u8) {
            scan_cons(
                plain_model(TokenType::Comma, src, i, i + 1, line),
                scan_from(src, i + 1, line),
            )
        } else if c == ('.' as u8) {
            scan_cons(
                plain_model(TokenType::Dot, src, i, i + 1, line),
                scan_from(src, i + 1, line),
            )
        } else if c == ('-' as u8) {
            scan_cons(
                plain_model(TokenType::Minus, src, i, i + 1, line),
                scan_from(src, i + 1, line),
            )
        } else if c == ('+' as u8) {
            scan_cons(
                plain_model(TokenType::Plus, src, i, i + 1, line),
                scan_from(src, i + 1, line),
            )
        } else if c == (';' as u8) {
            scan_cons(
                plain_model(TokenType::Semicolon, src, i, i + 1, line),
                scan_from(src, i + 1, line),
            )
        } else if c == ('*' as u8) {
            scan_cons(
                plain_model(TokenType::Star, src, i, i + 1, line),
                scan_from(src, i + 1, line),
            )
        } else if c == ('!' as u8) {
            if i + 1 < src.len() && src[i as int + 1] == ('=' as u8) {
                scan_cons(
                    plain_model(TokenType::BangEqual, src, i, i + 2, line),
                    scan_from(src, i + 2, line),
                )
            } else {
                scan_cons(
                    plain_model(TokenType::Bang, src, i, i + 1, line),
                    scan_from(src, i + 1, line),
                )
            }
        } else if c == ('=' as u8) {
            if i + 1 < src.len() && src[i as int + 1] == ('=' as u8) {
                scan_cons(
                    plain_model(TokenType::EqualEqual, src, i, i + 2, line),
                    scan_from(src, i + 2, line),
                )
            } else {
                scan_cons(
                    plain_model(TokenType::Equal, src, i, i + 1, line),
                    scan_from(src, i + 1, line),
                )
            }
        } else if c == ('<' as u8) {
            if i + 1 < src.len() && src[i as int + 1] == ('=' as u8) {
                scan_cons(
                    plain_model(TokenType::LessEqual, src, i, i + 2, line),
                    scan_from(src, i + 2, line),
                )
            } else {
                scan_cons(
                    plain_model(TokenType::Less, src, i, i + 1, line),
                    scan_from(src, i + 1, line),
                )
            }
        } else if c == ('>' as u8) {
            if i + 1 < src.len() && src[i as int + 1] == ('=' as u8) {
                scan_cons(
                    plain_model(TokenType::GreaterEqual, src, i, i + 2, line),
                    scan_from(src, i + 2, line),
                )
            } else {
                scan_cons(
                    plain_model(TokenType::Greater, src, i, i + 1, line),
                    scan_from(src, i + 1, line),
                )
            }
        } else if c == ('/' as u8) {
            if i + 1 < src.len() && src[i as int + 1] == ('/' as u8) {
                proof {
                    lemma_comment_end(src, (i + 2) as nat);
                }
                scan_from(src, comment_end(src, (i + 2) as nat), line)
            } else {
                scan_cons(
                    plain_model(TokenType::Slash, src, i, i + 1, line),
                    scan_from(src, i + 1, line),
                )
            }
        } else if c == (' ' as u8) || c == ('\r' as u8) || c == ('\t' as u8) {
            scan_from(src, i + 1, line)
        } else if c == ('\n' as u8) {
            scan_from(src, i + 1, line + 1)
        } else if c == ('"' as u8) {
            let close = string_close(src, i + 1);
            let line2 = line + count_newlines(src.subrange(i as int + 1, close as int));
            proof {
                lemma_string_close(src, i + 1);
            }
            if close >= src.len() {
                Result::Err(
                    SyntaxErrorModel {
                        line: line2,
                        category: SyntaxCategory::UnterminatedString,
                        detail: src.subrange(i as int, src.len() as int),
                    },
                )
            } else {
                scan_cons(
                    string_model(src, i, close, line2),
                    scan_from(src, close + 1, line2),
                )
            }
        } else if spec_is_digit(c) {
            let end = number_token_end(src, i);
            proof {
                lemma_number_token_end(src, i);
            }
            scan_cons(number_model(src, i, end, line), scan_from(src, end, line))
        } else if spec_is_alpha(c) {
            let end = ident_end(src, i + 1);
            proof {
                lemma_ident_end(src, i + 1);
            }
            scan_cons(ident_model(src, i, end, line), scan_from(src, end, line))
        } else {
            Result::Err(
                SyntaxErrorModel {
                    line,
                    category: SyntaxCategory::UnexpectedCharacter,
                    detail: seq![c],
                },
            )
        }
    }
}

} // verus!
