//! What holds of every source text that the lexer scans.
use vstd::prelude::*;

use crate::model::{
    digits_end, is_digit, is_letter, is_space, is_word_byte, keyword, lemma_digits_end,
    lemma_lex_token_advances, lemma_line_end, line_end, lemma_quote_from, lemma_word_end, lex_token,
    lines_from, next_byte, quote_from, scan_line, scan_lines, source_bytes, source_lines,
    starts_comment, tokenize_bytes, with_end_marker, word_end,
};
use crate::tokens::{Token, Tokens};

verus! {

/// Each line that `lines_from` yields lies within `b`, from `p` on.
proof fn lemma_lines_in_bounds(b: Seq<u8>, p: int)
    requires
        0 <= p,
    ensures
        forall|i: int|
            0 <= i < lines_from(b, p).len() ==> p <= (#[trigger] lines_from(b, p)[i]).0
                <= lines_from(b, p)[i].1 <= b.len(),
    decreases b.len() + 1 - p,
{
    if p < b.len() {
        let e = line_end(b, p);
        lemma_line_end(b, p);
        lemma_lines_in_bounds(b, e + 1);
        let rest = lines_from(b, e + 1);
        assert forall|i: int| 0 <= i < lines_from(b, p).len() implies p <= (#[trigger] lines_from(
            b,
            p,
        )[i]).0 <= lines_from(b, p)[i].1 <= b.len() by {
            if i > 0 {
                assert(lines_from(b, p)[i] == rest[i - 1]);
            }
        }
    }
}

/// When the lines scan, the `i`-th sequence of tokens is what the `i`-th
/// line scans to.
proof fn lemma_scan_lines_each(b: Seq<u8>, lines: Seq<(int, int)>)
    ensures
        scan_lines(b, lines) matches Ok(ls) ==> ls.len() == lines.len() && forall|i: int|
            0 <= i < lines.len() ==> scan_line(b, lines[i].0, lines[i].1) == Ok::<
                Seq<Token>,
                crate::tokens::LexError,
            >(#[trigger] ls[i]),
    decreases lines.len(),
{
    if lines.len() > 0 {
        let tail = lines.drop_first();
        lemma_scan_lines_each(b, tail);
        if let Ok(ls) = scan_lines(b, lines) {
            let rest = scan_lines(b, tail)->Ok_0;
            assert forall|i: int| 0 <= i < lines.len() implies scan_line(
                b,
                lines[i].0,
                lines[i].1,
            ) == Ok::<Seq<Token>, crate::tokens::LexError>(#[trigger] ls[i]) by {
                if i > 0 {
                    assert(ls[i] == rest[i - 1]);
                    assert(lines[i] == tail[i - 1]);
                }
            }
        }
    }
}

/// A source text that tokenizes has exactly one sequence of tokens per line,
/// each the tokens of its line, but for the end marker on the last one; an
/// empty text has no lines at all.
pub proof fn lemma_one_sequence_per_line(code: Seq<char>)
    ensures
        tokenize_bytes(source_bytes(code)) matches Ok(ls) ==> {
            let lines = source_lines(source_bytes(code));
            &&& ls.len() == lines.len()
            &&& forall|i: int|
                0 <= i < ls.len() - 1 ==> scan_line(source_bytes(code), lines[i].0, lines[i].1)
                    == Ok::<Seq<Token>, crate::tokens::LexError>(#[trigger] ls[i])
        },
        code.len() == 0 ==> tokenize_bytes(source_bytes(code)) == Ok::<
            Seq<Seq<Token>>,
            crate::tokens::LexError,
        >(seq![]),
{
    let b = source_bytes(code);
    lemma_scan_lines_each(b, source_lines(b));
    if code.len() == 0 {
        assert(b.len() == 0);
    }
    if let Ok(ls) = tokenize_bytes(b) {
        let scanned = scan_lines(b, source_lines(b))->Ok_0;
        assert forall|i: int| 0 <= i < ls.len() - 1 implies scan_line(
            b,
            source_lines(b)[i].0,
            source_lines(b)[i].1,
        ) == Ok::<Seq<Token>, crate::tokens::LexError>(#[trigger] ls[i]) by {
            assert(ls[i] == scanned[i]);
        }
    }
}

/// No line scans to an end marker.
proof fn lemma_scan_line_no_end_marker(b: Seq<u8>, pos: int, end: int)
    ensures
        scan_line(b, pos, end) matches Ok(ts) ==> forall|k: int|
            0 <= k < ts.len() ==> #[trigger] ts[k] != Token::Eof,
    decreases end - pos,
{
    if 0 <= pos < end && !is_space(b[pos]) && !starts_comment(b, pos, end) {
        if let Ok((t, next)) = lex_token(b, pos, end) {
            lemma_lex_token_advances(b, pos, end);
            lemma_scan_line_no_end_marker(b, next, end);
            if let Ok(ts) = scan_line(b, pos, end) {
                let rest = scan_line(b, next, end)->Ok_0;
                assert forall|k: int| 0 <= k < ts.len() implies #[trigger] ts[k] != Token::Eof by {
                    if k > 0 {
                        assert(ts[k] == rest[k - 1]);
                    }
                }
            }
        }
    } else if 0 <= pos < end && is_space(b[pos]) {
        lemma_scan_line_no_end_marker(b, pos + 1, end);
    }
}

/// A source text that is not empty and tokenizes has exactly one end marker:
/// the last token of its last line.
pub proof fn lemma_single_end_marker(code: Seq<char>)
    requires
        code.len() > 0,
    ensures
        tokenize_bytes(source_bytes(code)) matches Ok(ls) ==> {
            &&& ls.len() > 0
            &&& ls.last().len() > 0
            &&& ls.last().last() == Token::Eof
            &&& forall|i: int, j: int|
                0 <= i < ls.len() && 0 <= j < ls[i].len() && #[trigger] ls[i][j] == Token::Eof
                    ==> i == ls.len() - 1 && j == ls[i].len() - 1
        },
{
    let b = source_bytes(code);
    assert(b.len() > 0);
    let lines = source_lines(b);
    lemma_line_end(b, 0);
    assert(lines.len() > 0);
    lemma_scan_lines_each(b, lines);
    if let Ok(ls) = tokenize_bytes(b) {
        let scanned = scan_lines(b, lines)->Ok_0;
        assert(ls == with_end_marker(scanned));
        let last = scanned.len() - 1;
        assert forall|i: int, j: int|
            0 <= i < ls.len() && 0 <= j < ls[i].len() && #[trigger] ls[i][j] == Token::Eof
                implies i == ls.len() - 1 && j == ls[i].len() - 1 by {
            lemma_scan_line_no_end_marker(b, lines[i].0, lines[i].1);
            assert(scan_line(b, lines[i].0, lines[i].1) == Ok::<
                Seq<Token>,
                crate::tokens::LexError,
            >(scanned[i]));
            if i < last {
                assert(ls[i] == scanned[i]);
            } else {
                assert(ls[i] == scanned[i].push(Token::Eof));
                if j < scanned[i].len() {
                    assert(ls[i][j] == scanned[i][j]);
                }
            }
        }
    }
}

/// What the span `(a, z)` of a literal token covers in `b`, for a token of
/// the line `b[start..end]`: the inclusive range `b[a..=z]` lies in the line
/// and holds exactly the lexeme that was matched. A number is a longest run of
/// digits; a string runs from its opening quote to the next quote, both
/// included; an identifier is a longest run of word bytes that starts with a
/// letter and spells no keyword. Other tokens carry no span.
pub open spec fn lexeme_fits(b: Seq<u8>, t: Token, start: int, end: int) -> bool {
    match t {
        Token::Number(a, z) => {
            &&& start <= a <= z < end
            &&& forall|k: int| a <= k <= z ==> is_digit(#[trigger] b[k])
            &&& (z + 1 == end || !is_digit(b[z + 1]))
        },
        Token::String(a, z) => {
            &&& start <= a < z < end
            &&& b[a as int] == 34
            &&& b[z as int] == 34
            &&& forall|k: int| a < k < z ==> #[trigger] b[k] != 34
        },
        Token::Identifier(a, z) => {
            &&& start <= a <= z < end
            &&& is_letter(b[a as int])
            &&& forall|k: int| a <= k <= z ==> is_word_byte(#[trigger] b[k])
            &&& (z + 1 == end || !is_word_byte(b[z + 1]))
            &&& keyword(b.subrange(a as int, z + 1)) is None
        },
        _ => true,
    }
}

proof fn lemma_lex_token_fits(b: Seq<u8>, pos: int, end: int)
    requires
        0 <= pos < end <= b.len() <= usize::MAX,
    ensures
        lex_token(b, pos, end) matches Ok((t, _)) ==> lexeme_fits(b, t, pos, end),
{
    lemma_digits_end(b, pos + 1, end);
    lemma_word_end(b, pos + 1, end);
    lemma_quote_from(b, pos + 1, end);
}

/// Every literal that a line scans to fits its lexeme.
proof fn lemma_scan_line_lexemes(b: Seq<u8>, pos: int, end: int)
    requires
        0 <= pos <= end <= b.len() <= usize::MAX,
    ensures
        scan_line(b, pos, end) matches Ok(ts) ==> forall|k: int|
            0 <= k < ts.len() ==> lexeme_fits(b, #[trigger] ts[k], pos, end),
    decreases end - pos,
{
    if pos < end && !is_space(b[pos]) && !starts_comment(b, pos, end) {
        if let Ok((t, next)) = lex_token(b, pos, end) {
            lemma_lex_token_advances(b, pos, end);
            lemma_lex_token_fits(b, pos, end);
            lemma_scan_line_lexemes(b, next, end);
            if let Ok(ts) = scan_line(b, pos, end) {
                let rest = scan_line(b, next, end)->Ok_0;
                assert forall|k: int| 0 <= k < ts.len() implies lexeme_fits(
                    b,
                    #[trigger] ts[k],
                    pos,
                    end,
                ) by {
                    if k > 0 {
                        assert(ts[k] == rest[k - 1]);
                        assert(lexeme_fits(b, rest[k - 1], next, end));
                    }
                }
            }
        }
    } else if pos < end && is_space(b[pos]) {
        lemma_scan_line_lexemes(b, pos + 1, end);
        if let Ok(ts) = scan_line(b, pos, end) {
            assert forall|k: int| 0 <= k < ts.len() implies lexeme_fits(
                b,
                #[trigger] ts[k],
                pos,
                end,
            ) by {
                assert(lexeme_fits(b, ts[k], pos + 1, end));
            }
        }
    }
}

/// In the token stream of a source text, the span of every literal lies
/// within the literal's own line and holds exactly its lexeme (quotes
/// included for a string), as `lexeme_fits` states.
pub proof fn lemma_literal_spans(code: Seq<char>)
    requires
        source_bytes(code).len() <= usize::MAX,
    ensures
        tokenize_bytes(source_bytes(code)) matches Ok(ls) ==> forall|i: int, j: int|
            0 <= i < ls.len() && 0 <= j < ls[i].len() ==> lexeme_fits(
                source_bytes(code),
                #[trigger] ls[i][j],
                source_lines(source_bytes(code))[i].0,
                source_lines(source_bytes(code))[i].1,
            ),
{
    let b = source_bytes(code);
    let lines = source_lines(b);
    lemma_lines_in_bounds(b, 0);
    lemma_scan_lines_each(b, lines);
    if let Ok(ls) = tokenize_bytes(b) {
        let scanned = scan_lines(b, lines)->Ok_0;
        assert(ls == with_end_marker(scanned));
        assert forall|i: int, j: int| 0 <= i < ls.len() && 0 <= j < ls[i].len() implies lexeme_fits(
            b,
            #[trigger] ls[i][j],
            lines[i].0,
            lines[i].1,
        ) by {
            lemma_scan_line_lexemes(b, lines[i].0, lines[i].1);
            assert(scan_line(b, lines[i].0, lines[i].1) == Ok::<
                Seq<Token>,
                crate::tokens::LexError,
            >(scanned[i]));
            let ts = scan_line(b, lines[i].0, lines[i].1)->Ok_0;
            assert(ts == scanned[i]);
            if i < scanned.len() - 1 {
                assert(ls[i] == scanned[i]);
                assert(lexeme_fits(b, ts[j], lines[i].0, lines[i].1));
            } else {
                assert(ls[i] == scanned[i].push(Token::Eof));
                if j < scanned[i].len() {
                    assert(ls[i][j] == scanned[i][j]);
                } else {
                    assert(ls[i][j] == Token::Eof);
                }
            }
        }
    }
}

/// A run of digits that stops before `m` stops at the same place when the
/// line goes on past `m` with a byte that is no digit.
proof fn lemma_digits_end_extend(b: Seq<u8>, p: int, m: int, e: int)
    requires
        p <= m < e,
        !is_digit(b[m]),
    ensures
        digits_end(b, p, e) == digits_end(b, p, m),
    decreases m - p,
{
    if p < m && is_digit(b[p]) {
        lemma_digits_end_extend(b, p + 1, m, e);
    }
}

proof fn lemma_word_end_extend(b: Seq<u8>, p: int, m: int, e: int)
    requires
        p <= m < e,
        !is_word_byte(b[m]),
    ensures
        word_end(b, p, e) == word_end(b, p, m),
    decreases m - p,
{
    if p < m && is_word_byte(b[p]) {
        lemma_word_end_extend(b, p + 1, m, e);
    }
}

proof fn lemma_quote_from_extend(b: Seq<u8>, p: int, m: int, e: int)
    requires
        p <= m <= e,
        quote_from(b, p, m) < m,
    ensures
        quote_from(b, p, e) == quote_from(b, p, m),
    decreases m - p,
{
    if p < m && b[p] != 34 {
        lemma_quote_from_extend(b, p + 1, m, e);
    }
}

/// A token that is recognised before a `/` at `m` is recognised alike when
/// the line goes on past `m`.
proof fn lemma_lex_token_extend(b: Seq<u8>, pos: int, m: int, e: int)
    requires
        0 <= pos < m < e,
        b[m] == 47,
        lex_token(b, pos, m) is Ok,
    ensures
        lex_token(b, pos, e) == lex_token(b, pos, m),
{
    if pos + 1 < m {
        assert(next_byte(b, pos, e) == next_byte(b, pos, m));
    }
    let c = b[pos];
    if is_digit(c) {
        lemma_digits_end_extend(b, pos + 1, m, e);
    } else if c == 34 {
        lemma_quote_from(b, pos + 1, m);
        lemma_quote_from_extend(b, pos + 1, m, e);
    } else if is_letter(c) {
        lemma_word_end_extend(b, pos + 1, m, e);
    }
}

proof fn lemma_comment_hides_rest_from(b: Seq<u8>, s: int, pos: int, m: int, e: int)
    requires
        0 <= s <= pos <= m,
        m + 2 <= e <= b.len(),
        b[m] == 47,
        b[m + 1] == 47,
        m == s || b[m - 1] != 47,
        scan_line(b, pos, m) is Ok,
    ensures
        scan_line(b, pos, e) == scan_line(b, pos, m),
    decreases m - pos,
{
    if pos == m {
        assert(starts_comment(b, pos, e));
    } else if is_space(b[pos]) {
        lemma_comment_hides_rest_from(b, s, pos + 1, m, e);
    } else if starts_comment(b, pos, m) {
        assert(starts_comment(b, pos, e));
    } else {
        if pos + 1 < m {
            assert(next_byte(b, pos, e) == next_byte(b, pos, m));
        }
        assert(!starts_comment(b, pos, e));
        lemma_lex_token_extend(b, pos, m, e);
        lemma_lex_token_advances(b, pos, m);
        let next = lex_token(b, pos, m)->Ok_0.1;
        lemma_comment_hides_rest_from(b, s, next, m, e);
    }
}

/// Nothing after a `//` reaches the tokens. Let the line `b[s..e]` hold `//`
/// at `m`, where the text `b[s..m]` before it scans cleanly as a line of its
/// own and does not end in `/`. Then the whole line scans to the tokens of
/// `b[s..m]`, whatever the comment holds.
pub proof fn lemma_comment_hides_rest(b: Seq<u8>, s: int, m: int, e: int)
    requires
        0 <= s <= m,
        m + 2 <= e <= b.len(),
        b[m] == 47,
        b[m + 1] == 47,
        m == s || b[m - 1] != 47,
        scan_line(b, s, m) is Ok,
    ensures
        scan_line(b, s, e) == scan_line(b, s, m),
{
    lemma_comment_hides_rest_from(b, s, s, m, e);
}

/// Tokenizing the text that a token stream keeps gives that stream again.
pub proof fn lemma_retokenize_stored_code(code: Seq<char>, t: Tokens)
    requires
        t.code@ == code,
        tokenize_bytes(source_bytes(code)) == Ok::<Seq<Seq<Token>>, crate::tokens::LexError>(
            t.token_lines(),
        ),
    ensures
        tokenize_bytes(source_bytes(t.code@)) == Ok::<Seq<Seq<Token>>, crate::tokens::LexError>(
            t.token_lines(),
        ),
{
}

} // verus!
