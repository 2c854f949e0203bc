//! Laws of the scanner's model that hold for every input: every successful
//! scan ends in exactly one end-of-input token, line numbers never decrease
//! across the token sequence, and an empty input yields the sentinel alone.

use vstd::prelude::*;

use crate::error::SyntaxErrorModel;
use crate::scan_model::{
    comment_end, count_newlines, digits_end, eof_model, ident_end, ident_model,
    lemma_comment_end, lemma_count_newlines_concat, lemma_count_newlines_zero, lemma_digits_end,
    lemma_digits_end_is, lemma_ident_end, lemma_ident_end_is, lemma_number_token_end,
    lemma_string_close, lemma_string_close_is, number_model, number_token_end, plain_model,
    scan_cons, scan_from, spec_is_alpha, spec_is_alphanumeric, spec_is_digit, spec_keyword,
    string_close, string_model,
};
use crate::token::{TokenModel, TokenType};

verus! {

/// The token-sequence invariant every successful scan establishes: at least
/// one token, the last is the end-of-input sentinel, no earlier one is.
pub open spec fn eof_last_only(r: Seq<TokenModel>) -> bool {
    &&& r.len() >= 1
    &&& r[r.len() - 1].token_type == TokenType::Eof
    &&& forall|k: int| 0 <= k < r.len() - 1 ==> r[k].token_type != TokenType::Eof
}

/// Line numbers at least `line` and non-decreasing across the sequence.
pub open spec fn lines_from(r: Seq<TokenModel>, line: nat) -> bool {
    &&& forall|k: int| 0 <= k < r.len() ==> r[k].line >= line
    &&& forall|k1: int, k2: int| 0 <= k1 <= k2 < r.len() ==> r[k1].line <= r[k2].line
}

/// Prepending one non-sentinel token whose line is in order preserves both
/// invariants.
proof fn lemma_cons_keeps(
    t: TokenModel,
    rest: Result<Seq<TokenModel>, SyntaxErrorModel>,
    line: nat,
)
    requires
        t.token_type != TokenType::Eof,
        t.line >= line,
        rest matches Result::Ok(rr) ==> eof_last_only(rr) && lines_from(rr, t.line),
    ensures
        scan_cons(t, rest) matches Result::Ok(r2) ==> eof_last_only(r2) && lines_from(r2, line),
{
    match rest {
        Result::Ok(rr) => {
            let r2 = seq![t] + rr;
            assert(r2[0] == t);
            assert(forall|k: int| 1 <= k < r2.len() ==> r2[k] == rr[k - 1]);
            assert(r2[r2.len() - 1] == rr[rr.len() - 1]);
        },
        Result::Err(_) => {},
    }
}

/// Weakening the line bound preserves `lines_from`.
proof fn lemma_lines_weaken(r: Seq<TokenModel>, l1: nat, l2: nat)
    requires
        lines_from(r, l1),
        l2 <= l1,
    ensures
        lines_from(r, l2),
{
}

/// For every source, position, and line: if scanning succeeds, the token
/// sequence holds the end-of-input sentinel exactly once — as its last
/// element — and its line numbers start at the current line and never
/// decrease.
#[verifier::rlimit(100)]
pub proof fn lemma_scan_ok_invariants(src: Seq<u8>, i: nat, line: nat)
    requires
        i <= src.len(),
    ensures
        scan_from(src, i, line) matches Result::Ok(r) ==> eof_last_only(r) && lines_from(r, line),
    decreases src.len() - i,
{
    if i >= src.len() {
        let r = seq![eof_model(line)];
        assert(r[0] == eof_model(line));
    } else {
        let c = src[i as int];
        if c == ('(' as u8) {
            lemma_scan_ok_invariants(src, i + 1, line);
            lemma_cons_keeps(
                plain_model(TokenType::LeftParen, src, i, (i + 1) as nat, line),
                scan_from(src, i + 1, line),
                line,
            );
        } else if c == (')' as u8) {
            lemma_scan_ok_invariants(src, i + 1, line);
            lemma_cons_keeps(
                plain_model(TokenType::RightParen, src, i, (i + 1) as nat, line),
                scan_from(src, i + 1, line),
                line,
            );
        } else if c == ('{' as u8) {
            lemma_scan_ok_invariants(src, i + 1, line);
            lemma_cons_keeps(
                plain_model(TokenType::LeftBrace, src, i, (i + 1) as nat, line),
                scan_from(src, i + 1, line),
                line,
            );
        } else if c == ('}' as u8) {
            lemma_scan_ok_invariants(src, i + 1, line);
            lemma_cons_keeps(
                plain_model(TokenType::RightBrace, src, i, (i + 1) as nat, line),
                scan_from(src, i + 1, line),
                line,
            );
        } else if c == (',' as u8) {
            lemma_scan_ok_invariants(src, i + 1, line);
            lemma_cons_keeps(
                plain_model(TokenType::Comma, src, i, (i + 1) as nat, line),
                scan_from(src, i + 1, line),
                line,
            );
        } else if c == ('.' as u8) {
            lemma_scan_ok_invariants(src, i + 1, line);
            lemma_cons_keeps(
                plain_model(TokenType::Dot, src, i, (i + 1) as nat, line),
                scan_from(src, i + 1, line),
                line,
            );
        } else if c == ('-' as u8) {
            lemma_scan_ok_invariants(src, i + 1, line);
            lemma_cons_keeps(
                plain_model(TokenType::Minus, src, i, (i + 1) as nat, line),
                scan_from(src, i + 1, line),
                line,
            );
        } else if c == ('+' as u8) {
            lemma_scan_ok_invariants(src, i + 1, line);
            lemma_cons_keeps(
                plain_model(TokenType::Plus, src, i, (i + 1) as nat, line),
                scan_from(src, i + 1, line),
                line,
            );
        } else if c == (';' as u8) {
            lemma_scan_ok_invariants(src, i + 1, line);
            lemma_cons_keeps(
                plain_model(TokenType::Semicolon, src, i, (i + 1) as nat, line),
                scan_from(src, i + 1, line),
                line,
            );
        } else if c == ('*' as u8) {
            lemma_scan_ok_invariants(src, i + 1, line);
            lemma_cons_keeps(
                plain_model(TokenType::Star, src, i, (i + 1) as nat, line),
                scan_from(src, i + 1, line),
                line,
            );
        } else if c == ('!' as u8) {
            if i + 1 < src.len() && src[i as int + 1] == ('=' as u8) {
                lemma_scan_ok_invariants(src, i + 2, line);
                lemma_cons_keeps(
                    plain_model(TokenType::BangEqual, src, i, (i + 2) as nat, line),
                    scan_from(src, i + 2, line),
                    line,
                );
            } else {
                lemma_scan_ok_invariants(src, i + 1, line);
                lemma_cons_keeps(
                    plain_model(TokenType::Bang, src, i, (i + 1) as nat, line),
                    scan_from(src, i + 1, line),
                    line,
                );
            }
        } else if c == ('=' as u8) {
            if i + 1 < src.len() && src[i as int + 1] == ('=' as u8) {
                lemma_scan_ok_invariants(src, i + 2, line);
                lemma_cons_keeps(
                    plain_model(TokenType::EqualEqual, src, i, (i + 2) as nat, line),
                    scan_from(src, i + 2, line),
                    line,
                );
            } else {
                lemma_scan_ok_invariants(src, i + 1, line);
                lemma_cons_keeps(
                    plain_model(TokenType::Equal, src, i, (i + 1) as nat, line),
                    scan_from(src, i + 1, line),
                    line,
                );
            }
        } else if c == ('<' as u8) {
            if i + 1 < src.len() && src[i as int + 1] == ('=' as u8) {
                lemma_scan_ok_invariants(src, i + 2, line);
                lemma_cons_keeps(
                    plain_model(TokenType::LessEqual, src, i, (i + 2) as nat, line),
                    scan_from(src, i + 2, line),
                    line,
                );
            } else {
                lemma_scan_ok_invariants(src, i + 1, line);
                lemma_cons_keeps(
                    plain_model(TokenType::Less, src, i, (i + 1) as nat, line),
                    scan_from(src, i + 1, line),
                    line,
                );
            }
        } else if c == ('>' as u8) {
            if i + 1 < src.len() && src[i as int + 1] == ('=' as u8) {
                lemma_scan_ok_invariants(src, i + 2, line);
                lemma_cons_keeps(
                    plain_model(TokenType::GreaterEqual, src, i, (i + 2) as nat, line),
                    scan_from(src, i + 2, line),
                    line,
                );
            } else {
                lemma_scan_ok_invariants(src, i + 1, line);
                lemma_cons_keeps(
                    plain_model(TokenType::Greater, src, i, (i + 1) as nat, line),
                    scan_from(src, i + 1, line),
                    line,
                );
            }
        } else if c == ('/' as u8) {
            if i + 1 < src.len() && src[i as int + 1] == ('/' as u8) {
                lemma_comment_end(src, (i + 2) as nat);
                lemma_scan_ok_invariants(src, comment_end(src, (i + 2) as nat), line);
            } else {
                lemma_scan_ok_invariants(src, i + 1, line);
                lemma_cons_keeps(
                    plain_model(TokenType::Slash, src, i, (i + 1) as nat, line),
                    scan_from(src, i + 1, line),
                    line,
                );
            }
        } else if c == (' ' as u8) || c == ('\r' as u8) || c == ('\t' as u8) {
            lemma_scan_ok_invariants(src, i + 1, line);
        } else if c == ('\n' as u8) {
            lemma_scan_ok_invariants(src, i + 1, line + 1);
            match scan_from(src, i + 1, line + 1) {
                Result::Ok(rr) => {
                    lemma_lines_weaken(rr, line + 1, line);
                },
                Result::Err(_) => {},
            }
        } else if c == ('"' as u8) {
            let close = string_close(src, i + 1);
            let line2 = line + count_newlines(src.subrange(i as int + 1, close as int));
            lemma_string_close(src, i + 1);
            if close < src.len() {
                lemma_scan_ok_invariants(src, close + 1, line2);
                lemma_cons_keeps(
                    string_model(src, i, close, line2),
                    scan_from(src, close + 1, line2),
                    line,
                );
            }
        } else if spec_is_digit(c) {
            let end = number_token_end(src, i);
            lemma_number_token_end(src, i);
            lemma_scan_ok_invariants(src, end, line);
            lemma_cons_keeps(number_model(src, i, end, line), scan_from(src, end, line), line);
        } else if spec_is_alpha(c) {
            let end = ident_end(src, i + 1);
            lemma_ident_end(src, i + 1);
            lemma_scan_ok_invariants(src, end, line);
            assert(ident_model(src, i, end, line).token_type != TokenType::Eof);
            lemma_cons_keeps(ident_model(src, i, end, line), scan_from(src, end, line), line);
        }
    }
}


/// The exact spelling of a number lexeme: a maximal digit run, then
/// optionally a dot followed by a nonempty digit run reaching the end.
pub open spec fn number_shape(s: Seq<u8>) -> bool {
    &&& s.len() >= 1
    &&& spec_is_digit(s[0])
    &&& {
        let d = digits_end(s, 0);
        ||| d == s.len()
        ||| (d < s.len() && s[d as int] == ('.' as u8) && d + 1 < s.len() && digits_end(
            s,
            d + 1,
        ) == s.len())
    }
}

/// The exact spelling of a string lexeme: both quotes present, none between.
pub open spec fn string_shape(s: Seq<u8>) -> bool {
    &&& s.len() >= 2
    &&& s[0] == ('"' as u8)
    &&& s[s.len() - 1] == ('"' as u8)
    &&& forall|k: int| 1 <= k < s.len() - 1 ==> s[k] != ('"' as u8)
}

/// The exact spelling of an identifier-or-keyword lexeme.
pub open spec fn ident_shape(s: Seq<u8>) -> bool {
    &&& s.len() >= 1
    &&& spec_is_alpha(s[0])
    &&& forall|k: int| 1 <= k < s.len() ==> spec_is_alphanumeric(s[k])
}

/// The kind an identifier-shaped lexeme scans to: its keyword kind, or
/// `Identifier`.
pub open spec fn ident_kind(s: Seq<u8>) -> TokenType {
    match spec_keyword(s) {
        Option::Some(kw) => kw,
        Option::None => TokenType::Identifier,
    }
}

/// A lexeme that scans to exactly one token of kind `tt` when it stands on
/// its own, delimited by spaces or the ends of the input.
pub open spec fn atomic_lexeme(s: Seq<u8>, tt: TokenType) -> bool {
    ||| (s == seq!['(' as u8] && tt == TokenType::LeftParen)
    ||| (s == seq![')' as u8] && tt == TokenType::RightParen)
    ||| (s == seq!['{' as u8] && tt == TokenType::LeftBrace)
    ||| (s == seq!['}' as u8] && tt == TokenType::RightBrace)
    ||| (s == seq![',' as u8] && tt == TokenType::Comma)
    ||| (s == seq!['.' as u8] && tt == TokenType::Dot)
    ||| (s == seq!['-' as u8] && tt == TokenType::Minus)
    ||| (s == seq!['+' as u8] && tt == TokenType::Plus)
    ||| (s == seq![';' as u8] && tt == TokenType::Semicolon)
    ||| (s == seq!['*' as u8] && tt == TokenType::Star)
    ||| (s == seq!['/' as u8] && tt == TokenType::Slash)
    ||| (s == seq!['!' as u8] && tt == TokenType::Bang)
    ||| (s == seq!['=' as u8] && tt == TokenType::Equal)
    ||| (s == seq!['<' as u8] && tt == TokenType::Less)
    ||| (s == seq!['>' as u8] && tt == TokenType::Greater)
    ||| (s == seq!['!' as u8, '=' as u8] && tt == TokenType::BangEqual)
    ||| (s == seq!['=' as u8, '=' as u8] && tt == TokenType::EqualEqual)
    ||| (s == seq!['<' as u8, '=' as u8] && tt == TokenType::LessEqual)
    ||| (s == seq!['>' as u8, '=' as u8] && tt == TokenType::GreaterEqual)
    ||| (number_shape(s) && tt == TokenType::Number)
    ||| (string_shape(s) && tt == TokenType::String)
    ||| (ident_shape(s) && tt == ident_kind(s))
}

/// Prepending a token to a known scan outcome, element by element.
proof fn lemma_cons_shape(t: TokenModel, rest: Result<Seq<TokenModel>, SyntaxErrorModel>)
    ensures
        rest matches Result::Ok(rr) ==> scan_cons(t, rest) matches Result::Ok(r2) && r2.len()
            == rr.len() + 1 && r2[0] == t && (forall|k: int|
            1 <= k < rr.len() + 1 ==> r2[k] == rr[k - 1]),
{
    match rest {
        Result::Ok(rr) => {
            let r2 = seq![t] + rr;
            assert(r2[0] == t);
            assert(forall|k: int| 1 <= k < r2.len() ==> r2[k] == rr[k - 1]);
        },
        Result::Err(_) => {},
    }
}

/// One atomic lexeme at position `i`, delimited by a space or the end of
/// the input, scans to exactly one token: its own kind and spelling,
/// recognized on the current line, with scanning resuming right after it.
#[verifier::rlimit(100)]
proof fn lemma_scan_atomic_at(src: Seq<u8>, i: nat, line: nat, s: Seq<u8>, tt: TokenType)
    requires
        atomic_lexeme(s, tt),
        i + s.len() <= src.len(),
        src.subrange(i as int, i as int + s.len() as int) == s,
        i + s.len() == src.len() || src[i as int + s.len() as int] == (' ' as u8),
    ensures
        scan_from(src, i + s.len(), line + count_newlines(s)) matches Result::Ok(rr)
            ==> scan_from(src, i, line) matches Result::Ok(r2) && r2.len() == rr.len() + 1
            && r2[0].token_type == tt && r2[0].lexeme == s && (forall|k: int|
            1 <= k < rr.len() + 1 ==> r2[k] == rr[k - 1]),
{
    let n = s.len();
    assert forall|k: int| 0 <= k < n implies src[i + k] == s[k] by {
        assert(src.subrange(i as int, i as int + n as int)[k] == s[k]);
    }
    let c = src[i as int];
    if c == ('"' as u8) {
        // a string lexeme
        let close = string_close(src, i + 1);
        assert forall|k: int| i + 1 <= k < i + n - 1 implies src[k] != ('"' as u8) by {
            assert(src[k] == s[k - i]);
        }
        lemma_string_close_is(src, i + 1, (i + n - 1) as nat);
        assert(close == i + n - 1);
        let body = src.subrange(i as int + 1, close as int);
        assert(body =~= s.subrange(1, n as int - 1));
        assert(s =~= seq![s[0]] + s.subrange(1, n as int - 1) + seq![s[n - 1]]);
        lemma_count_newlines_concat(seq![s[0]] + s.subrange(1, n as int - 1), seq![s[n - 1]]);
        lemma_count_newlines_concat(seq![s[0]], s.subrange(1, n as int - 1));
        lemma_count_newlines_zero(seq![s[0]]);
        lemma_count_newlines_zero(seq![s[n - 1]]);
        assert(count_newlines(body) == count_newlines(s));
        let line2 = line + count_newlines(body);
        let t = string_model(src, i, close, line2);
        assert(scan_from(src, i, line) == scan_cons(t, scan_from(src, close + 1, line2)));
        assert(t.lexeme == s);
        lemma_cons_shape(t, scan_from(src, i + n, line + count_newlines(s)));
    } else if spec_is_digit(c) {
        // a number lexeme
        let d = digits_end(s, 0);
        lemma_digits_end(s, 0);
        assert forall|k: int| i <= k < i + d implies spec_is_digit(src[k]) by {
            assert(src[k] == s[k - i]);
        }
        assert forall|k: int| 0 <= k < n implies s[k] != ('\n' as u8) by {
            if k < d {
                assert(spec_is_digit(s[k]));
            } else if d < n && k > d {
                lemma_digits_end(s, d + 1);
                assert(spec_is_digit(s[k]));
            }
        }
        lemma_count_newlines_zero(s);
        if d == n {
            lemma_digits_end_is(src, i, i + d);
            assert(number_token_end(src, i) == i + n);
        } else {
            assert(s[d as int] == ('.' as u8));
            lemma_digits_end_is(src, i, i + d);
            lemma_digits_end(s, d + 1);
            assert(spec_is_digit(s[d as int + 1]));
            assert forall|k: int| i + d + 1 <= k < i + n implies spec_is_digit(src[k]) by {
                assert(src[k] == s[k - i]);
            }
            lemma_digits_end_is(src, i + d + 1, i + n);
            assert(number_token_end(src, i) == i + n);
        }
        let t = number_model(src, i, i + n, line);
        assert(scan_from(src, i, line) == scan_cons(t, scan_from(src, i + n, line)));
        assert(t.lexeme == s);
        lemma_cons_shape(t, scan_from(src, i + n, line + count_newlines(s)));
    } else if spec_is_alpha(c) {
        // an identifier or keyword lexeme
        assert forall|k: int| i + 1 <= k < i + n implies spec_is_alphanumeric(src[k]) by {
            assert(src[k] == s[k - i]);
        }
        lemma_ident_end_is(src, i + 1, i + n);
        assert forall|k: int| 0 <= k < n implies s[k] != ('\n' as u8) by {
            if k == 0 {
                assert(spec_is_alpha(s[0]));
            } else {
                assert(spec_is_alphanumeric(s[k]));
            }
        }
        lemma_count_newlines_zero(s);
        let t = ident_model(src, i, i + n, line);
        assert(scan_from(src, i, line) == scan_cons(t, scan_from(src, i + n, line)));
        assert(t.token_type == tt);
        assert(t.lexeme == s);
        lemma_cons_shape(t, scan_from(src, i + n, line + count_newlines(s)));
    } else {
        // a punctuation or operator lexeme with an exact spelling
        lemma_count_newlines_zero(s);
        let t = plain_model(tt, src, i, i + n, line);
        assert(scan_from(src, i, line) == scan_cons(t, scan_from(src, i + n, line)));
        assert(t.lexeme == s);
        lemma_cons_shape(t, scan_from(src, i + n, line + count_newlines(s)));
    }
}


/// The space-join of the lexemes of a token list: the pieces separated by
/// single spaces.
pub open spec fn join_lexemes(ts: Seq<TokenModel>) -> Seq<u8>
    decreases ts.len(),
{
    if ts.len() == 0 {
        Seq::empty()
    } else if ts.len() == 1 {
        ts[0].lexeme
    } else {
        ts[0].lexeme + seq![' ' as u8] + join_lexemes(ts.skip(1))
    }
}

/// Scanning a suffix that is the space-join of atomic lexemes succeeds and
/// yields exactly those tokens, in order, followed by the end-of-input
/// sentinel.
#[verifier::rlimit(100)]
pub proof fn lemma_scan_join(src: Seq<u8>, i: nat, line: nat, ts: Seq<TokenModel>)
    requires
        forall|k: int|
            0 <= k < ts.len() ==> atomic_lexeme(ts[k].lexeme, ts[k].token_type),
        i <= src.len(),
        src.subrange(i as int, src.len() as int) == join_lexemes(ts),
    ensures
        scan_from(src, i, line) matches Result::Ok(r) && r.len() == ts.len() + 1 && (forall|
            k: int,
        |
            0 <= k < ts.len() ==> r[k].token_type == ts[k].token_type && r[k].lexeme
                == ts[k].lexeme) && r[ts.len() as int].token_type == TokenType::Eof,
    decreases ts.len(),
{
    let suffix = src.subrange(i as int, src.len() as int);
    if ts.len() == 0 {
        assert(suffix.len() == 0);
        assert(i == src.len());
    } else {
        let s = ts[0].lexeme;
        let n = s.len();
        assert(atomic_lexeme(ts[0].lexeme, ts[0].token_type));
        if ts.len() == 1 {
            assert(suffix == s);
            assert(src.len() - i == n);
            assert(src.subrange(i as int, i as int + n as int) =~= s);
            lemma_scan_atomic_at(src, i, line, s, ts[0].token_type);
            let line2 = line + count_newlines(s);
            assert(scan_from(src, i + n, line2) == Result::<
                Seq<TokenModel>,
                SyntaxErrorModel,
            >::Ok(seq![eof_model(line2)]));
        } else {
            let rest = ts.skip(1);
            let jr = join_lexemes(rest);
            assert(suffix == s + seq![' ' as u8] + jr);
            assert(suffix.len() == n + 1 + jr.len());
            assert forall|k: int| 0 <= k < n implies src[i + k] == s[k] by {
                assert(suffix[k] == (s + seq![' ' as u8] + jr)[k]);
            }
            assert(src.subrange(i as int, i as int + n as int) =~= s);
            assert(src[i as int + n as int] == suffix[n as int]);
            assert(src[i as int + n as int] == (' ' as u8));
            lemma_scan_atomic_at(src, i, line, s, ts[0].token_type);
            let line2 = line + count_newlines(s);
            assert(src.subrange(i as int + n as int + 1, src.len() as int) =~= jr) by {
                assert forall|k: int| 0 <= k < jr.len() implies src[i + n + 1 + k] == jr[k] by {
                    assert(suffix[n + 1 + k] == (s + seq![' ' as u8] + jr)[n + 1 + k]);
                }
            }
            assert forall|k: int|
                0 <= k < rest.len() implies atomic_lexeme(
                rest[k].lexeme,
                rest[k].token_type,
            ) by {
                assert(rest[k] == ts[k + 1]);
            }
            lemma_scan_join(src, i + n + 1, line2, rest);
            assert(scan_from(src, i + n, line2) == scan_from(src, i + n + 1, line2));
            match scan_from(src, i, line) {
                Result::Ok(r) => {
                    match scan_from(src, i + n + 1, line2) {
                        Result::Ok(rr) => {
                            assert forall|k: int|
                                1 <= k < ts.len() implies r[k].token_type == ts[k].token_type
                                && r[k].lexeme == ts[k].lexeme by {
                                assert(r[k] == rr[k - 1]);
                                assert(rest[k - 1] == ts[k]);
                            }
                            assert(r[ts.len() as int] == rr[rest.len() as int]);
                        },
                        Result::Err(_) => {
                            assert(false);
                        },
                    }
                },
                Result::Err(_) => {
                    assert(false);
                },
            }
        }
    }
}


/// Prepending a token with an atomic lexeme keeps every recognized token's
/// lexeme atomic.
proof fn lemma_cons_atomic(t: TokenModel, rest: Result<Seq<TokenModel>, SyntaxErrorModel>)
    requires
        atomic_lexeme(t.lexeme, t.token_type),
        rest matches Result::Ok(rr) ==> forall|k: int|
            0 <= k < rr.len() - 1 ==> atomic_lexeme(rr[k].lexeme, rr[k].token_type),
    ensures
        scan_cons(t, rest) matches Result::Ok(r2) ==> forall|k: int|
            0 <= k < r2.len() - 1 ==> atomic_lexeme(r2[k].lexeme, r2[k].token_type),
{
    match rest {
        Result::Ok(rr) => {
            let r2 = seq![t] + rr;
            assert(r2[0] == t);
            assert(forall|k: int| 1 <= k < r2.len() ==> r2[k] == rr[k - 1]);
        },
        Result::Err(_) => {},
    }
}

/// Every token a successful scan recognizes (all but the end-of-input
/// sentinel) carries an atomic lexeme: the verbatim spelling that, standing
/// alone, scans back to the same kind.
#[verifier::rlimit(100)]
pub proof fn lemma_scan_tokens_atomic(src: Seq<u8>, i: nat, line: nat)
    requires
        i <= src.len(),
    ensures
        scan_from(src, i, line) matches Result::Ok(r) ==> forall|k: int|
            0 <= k < r.len() - 1 ==> atomic_lexeme(r[k].lexeme, r[k].token_type),
    decreases src.len() - i,
{
    if i >= src.len() {
    } else {
        let c = src[i as int];
        if c == ('(' as u8) {
            lemma_scan_tokens_atomic(src, i + 1, line);
            let t = plain_model(TokenType::LeftParen, src, i, (i + 1) as nat, line);
            assert(t.lexeme =~= seq!['(' as u8]);
            lemma_cons_atomic(t, scan_from(src, i + 1, line));
        } else if c == (')' as u8) {
            lemma_scan_tokens_atomic(src, i + 1, line);
            let t = plain_model(TokenType::RightParen, src, i, (i + 1) as nat, line);
            assert(t.lexeme =~= seq![')' as u8]);
            lemma_cons_atomic(t, scan_from(src, i + 1, line));
        } else if c == ('{' as u8) {
            lemma_scan_tokens_atomic(src, i + 1, line);
            let t = plain_model(TokenType::LeftBrace, src, i, (i + 1) as nat, line);
            assert(t.lexeme =~= seq!['{' as u8]);
            lemma_cons_atomic(t, scan_from(src, i + 1, line));
        } else if c == ('}' as u8) {
            lemma_scan_tokens_atomic(src, i + 1, line);
            let t = plain_model(TokenType::RightBrace, src, i, (i + 1) as nat, line);
            assert(t.lexeme =~= seq!['}' as u8]);
            lemma_cons_atomic(t, scan_from(src, i + 1, line));
        } else if c == (',' as u8) {
            lemma_scan_tokens_atomic(src, i + 1, line);
            let t = plain_model(TokenType::Comma, src, i, (i + 1) as nat, line);
            assert(t.lexeme =~= seq![',' as u8]);
            lemma_cons_atomic(t, scan_from(src, i + 1, line));
        } else if c == ('.' as u8) {
            lemma_scan_tokens_atomic(src, i + 1, line);
            let t = plain_model(TokenType::Dot, src, i, (i + 1) as nat, line);
            assert(t.lexeme =~= seq!['.' as u8]);
            lemma_cons_atomic(t, scan_from(src, i + 1, line));
        } else if c == ('-' as u8) {
            lemma_scan_tokens_atomic(src, i + 1, line);
            let t = plain_model(TokenType::Minus, src, i, (i + 1) as nat, line);
            assert(t.lexeme =~= seq!['-' as u8]);
            lemma_cons_atomic(t, scan_from(src, i + 1, line));
        } else if c == ('+' as u8) {
            lemma_scan_tokens_atomic(src, i + 1, line);
            let t = plain_model(TokenType::Plus, src, i, (i + 1) as nat, line);
            assert(t.lexeme =~= seq!['+' as u8]);
            lemma_cons_atomic(t, scan_from(src, i + 1, line));
        } else if c == (';' as u8) {
            lemma_scan_tokens_atomic(src, i + 1, line);
            let t = plain_model(TokenType::Semicolon, src, i, (i + 1) as nat, line);
            assert(t.lexeme =~= seq![';' as u8]);
            lemma_cons_atomic(t, scan_from(src, i + 1, line));
        } else if c == ('*' as u8) {
            lemma_scan_tokens_atomic(src, i + 1, line);
            let t = plain_model(TokenType::Star, src, i, (i + 1) as nat, line);
            assert(t.lexeme =~= seq!['*' as u8]);
            lemma_cons_atomic(t, scan_from(src, i + 1, line));
        } else if c == ('!' as u8) {
            if i + 1 < src.len() && src[i as int + 1] == ('=' as u8) {
                lemma_scan_tokens_atomic(src, i + 2, line);
                let t = plain_model(TokenType::BangEqual, src, i, (i + 2) as nat, line);
                assert(t.lexeme =~= seq!['!' as u8, '=' as u8]);
                lemma_cons_atomic(t, scan_from(src, i + 2, line));
            } else {
                lemma_scan_tokens_atomic(src, i + 1, line);
                let t = plain_model(TokenType::Bang, src, i, (i + 1) as nat, line);
                assert(t.lexeme =~= seq!['!' as u8]);
                lemma_cons_atomic(t, scan_from(src, i + 1, line));
            }
        } else if c == ('=' as u8) {
            if i + 1 < src.len() && src[i as int + 1] == ('=' as u8) {
                lemma_scan_tokens_atomic(src, i + 2, line);
                let t = plain_model(TokenType::EqualEqual, src, i, (i + 2) as nat, line);
                assert(t.lexeme =~= seq!['=' as u8, '=' as u8]);
                lemma_cons_atomic(t, scan_from(src, i + 2, line));
            } else {
                lemma_scan_tokens_atomic(src, i + 1, line);
                let t = plain_model(TokenType::Equal, src, i, (i + 1) as nat, line);
                assert(t.lexeme =~= seq!['=' as u8]);
                lemma_cons_atomic(t, scan_from(src, i + 1, line));
            }
        } else if c == ('<' as u8) {
            if i + 1 < src.len() && src[i as int + 1] == ('=' as u8) {
                lemma_scan_tokens_atomic(src, i + 2, line);
                let t = plain_model(TokenType::LessEqual, src, i, (i + 2) as nat, line);
                assert(t.lexeme =~= seq!['<' as u8, '=' as u8]);
                lemma_cons_atomic(t, scan_from(src, i + 2, line));
            } else {
                lemma_scan_tokens_atomic(src, i + 1, line);
                let t = plain_model(TokenType::Less, src, i, (i + 1) as nat, line);
                assert(t.lexeme =~= seq!['<' as u8]);
                lemma_cons_atomic(t, scan_from(src, i + 1, line));
            }
        } else if c == ('>' as u8) {
            if i + 1 < src.len() && src[i as int + 1] == ('=' as u8) {
                lemma_scan_tokens_atomic(src, i + 2, line);
                let t = plain_model(TokenType::GreaterEqual, src, i, (i + 2) as nat, line);
                assert(t.lexeme =~= seq!['>' as u8, '=' as u8]);
                lemma_cons_atomic(t, scan_from(src, i + 2, line));
            } else {
                lemma_scan_tokens_atomic(src, i + 1, line);
                let t = plain_model(TokenType::Greater, src, i, (i + 1) as nat, line);
                assert(t.lexeme =~= seq!['>' as u8]);
                lemma_cons_atomic(t, scan_from(src, i + 1, line));
            }
        } else if c == ('/' as u8) {
            if i + 1 < src.len() && src[i as int + 1] == ('/' as u8) {
                lemma_comment_end(src, (i + 2) as nat);
                lemma_scan_tokens_atomic(src, comment_end(src, (i + 2) as nat), line);
            } else {
                lemma_scan_tokens_atomic(src, i + 1, line);
                let t = plain_model(TokenType::Slash, src, i, (i + 1) as nat, line);
                assert(t.lexeme =~= seq!['/' as u8]);
                lemma_cons_atomic(t, scan_from(src, i + 1, line));
            }
        } else if c == (' ' as u8) || c == ('\r' as u8) || c == ('\t' as u8) {
            lemma_scan_tokens_atomic(src, i + 1, line);
        } else if c == ('\n' as u8) {
            lemma_scan_tokens_atomic(src, i + 1, line + 1);
        } else if c == ('"' as u8) {
            let close = string_close(src, i + 1);
            let line2 = line + count_newlines(src.subrange(i as int + 1, close as int));
            lemma_string_close(src, i + 1);
            if close < src.len() {
                lemma_scan_tokens_atomic(src, close + 1, line2);
                let t = string_model(src, i, close, line2);
                let s = t.lexeme;
                assert(s.len() == close + 1 - i);
                assert(s[0] == src[i as int]);
                assert(s[s.len() - 1] == src[close as int]);
                assert forall|k: int| 1 <= k < s.len() - 1 implies s[k] != ('"' as u8) by {
                    assert(s[k] == src[i + k]);
                }
                assert(string_shape(s));
                lemma_cons_atomic(t, scan_from(src, close + 1, line2));
            }
        } else if spec_is_digit(c) {
            let end = number_token_end(src, i);
            lemma_number_token_end(src, i);
            lemma_scan_tokens_atomic(src, end, line);
            let j = digits_end(src, i);
            lemma_digits_end(src, i);
            let t = number_model(src, i, end, line);
            let s = t.lexeme;
            if j == end {
                assert forall|k: int| 0 <= k < j - i implies spec_is_digit(s[k]) by {
                    assert(s[k] == src[i + k]);
                }
                lemma_digits_end_is(s, 0, (j - i) as nat);
                assert(number_shape(s));
            } else {
                assert(j < src.len() && src[j as int] == ('.' as u8) && j + 1 < src.len()
                    && spec_is_digit(src[j as int + 1]));
                assert(end == digits_end(src, j + 1));
                lemma_digits_end(src, j + 1);
                assert(end >= j + 2);
                assert forall|k: int| 0 <= k < j - i implies spec_is_digit(s[k]) by {
                    assert(s[k] == src[i + k]);
                }
                assert(s[j - i] == src[j as int]);
                lemma_digits_end_is(s, 0, (j - i) as nat);
                assert forall|k: int| j - i + 1 <= k < s.len() implies spec_is_digit(s[k]) by {
                    assert(s[k] == src[i + k]);
                }
                lemma_digits_end_is(s, (j - i + 1) as nat, s.len());
                assert(number_shape(s));
            }
            lemma_cons_atomic(t, scan_from(src, end, line));
        } else if spec_is_alpha(c) {
            let end = ident_end(src, i + 1);
            lemma_ident_end(src, i + 1);
            lemma_scan_tokens_atomic(src, end, line);
            let t = ident_model(src, i, end, line);
            let s = src.subrange(i as int, end as int);
            assert(s[0] == src[i as int]);
            assert forall|k: int| 1 <= k < s.len() implies spec_is_alphanumeric(s[k]) by {
                assert(s[k] == src[i + k]);
            }
            assert(ident_shape(s));
            assert(t.token_type == ident_kind(s));
            assert(t.lexeme == s);
            lemma_cons_atomic(t, scan_from(src, end, line));
        }
    }
}

/// Law: every token sequence the scanner produces holds the end-of-input
/// sentinel exactly once, as its last element, and its line numbers start
/// at 1 and never decrease.
pub proof fn lemma_tokenize_eof_exactly_once(src: Seq<u8>, r: Seq<TokenModel>)
    requires
        scan_from(src, 0, 1) == Result::<Seq<TokenModel>, SyntaxErrorModel>::Ok(r),
    ensures
        eof_last_only(r),
        lines_from(r, 1),
        crate::parse_model::wf_token_seq(r),
{
    lemma_scan_ok_invariants(src, 0, 1);
}

/// Law: tokenizing an empty input yields a sequence of length exactly one,
/// holding only the end-of-input token.
pub proof fn lemma_tokenize_empty(src: Seq<u8>)
    requires
        src.len() == 0,
    ensures
        scan_from(src, 0, 1) == Result::<Seq<TokenModel>, SyntaxErrorModel>::Ok(
            seq![eof_model(1)],
        ),
{
}


/// Law: for every list of pieces that are each the exact spelling of one
/// token, scanning their space-join succeeds, the recognized lexemes equal
/// the pieces in order, and the sequence ends in the end-of-input token.
pub proof fn lemma_tokenize_spaced_pieces(src: Seq<u8>, ts: Seq<TokenModel>)
    requires
        forall|k: int|
            0 <= k < ts.len() ==> atomic_lexeme(ts[k].lexeme, ts[k].token_type),
        src == join_lexemes(ts),
    ensures
        scan_from(src, 0, 1) matches Result::Ok(r) && r.len() == ts.len() + 1 && (forall|k: int|
            0 <= k < ts.len() ==> r[k].token_type == ts[k].token_type && r[k].lexeme
                == ts[k].lexeme) && r[ts.len() as int].token_type == TokenType::Eof,
{
    assert(src.subrange(0, src.len() as int) =~= src);
    lemma_scan_join(src, 0, 1, ts);
}

/// Law: re-tokenizing the space-joined lexemes of a successfully produced
/// token sequence yields the same sequence of token kinds (line numbers may
/// differ).
pub proof fn lemma_retokenize_same_kinds(src: Seq<u8>, r: Seq<TokenModel>)
    requires
        scan_from(src, 0, 1) == Result::<Seq<TokenModel>, SyntaxErrorModel>::Ok(r),
    ensures
        scan_from(join_lexemes(r.drop_last()), 0, 1) matches Result::Ok(r2) && r2.len() == r.len()
            && (forall|k: int| 0 <= k < r.len() ==> r2[k].token_type == r[k].token_type),
{
    lemma_scan_ok_invariants(src, 0, 1);
    lemma_scan_tokens_atomic(src, 0, 1);
    let ts = r.drop_last();
    assert forall|k: int|
        0 <= k < ts.len() implies atomic_lexeme(ts[k].lexeme, ts[k].token_type) by {
        assert(ts[k] == r[k]);
    }
    let joined = join_lexemes(ts);
    assert(joined.subrange(0, joined.len() as int) =~= joined);
    lemma_scan_join(joined, 0, 1, ts);
    match scan_from(joined, 0, 1) {
        Result::Ok(r2) => {
            assert forall|k: int| 0 <= k < r.len() implies r2[k].token_type
                == r[k].token_type by {
                if k < r.len() - 1 {
                    assert(ts[k] == r[k]);
                } else {
                    assert(r[r.len() - 1].token_type == TokenType::Eof);
                }
            }
        },
        Result::Err(_) => {
            assert(false);
        },
    }
}

} // verus!
