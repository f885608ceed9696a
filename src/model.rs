//! The mathematical model of the lexer: what each line and each source text
//! scans to, stated over the source's bytes.
use vstd::prelude::*;

use vstd::utf8::encode_utf8;

use crate::tokens::{LexError, Token};

verus! {

/// A byte that Unicode counts as white space when it is read as a Latin-1
/// character.
pub open spec fn is_space(c: u8) -> bool {
    (9 <= c && c <= 13) || c == 32 || c == 0x85 || c == 0xa0
}

pub open spec fn is_digit(c: u8) -> bool {
    48 <= c && c <= 57
}

/// An ASCII letter.
pub open spec fn is_letter(c: u8) -> bool {
    (65 <= c && c <= 90) || (97 <= c && c <= 122)
}

/// A byte that may continue an identifier: a letter, a digit or `_`.
pub open spec fn is_word_byte(c: u8) -> bool {
    is_letter(c) || is_digit(c) || c == 95
}

/// The byte after `pos`, if it lies before `end`.
pub open spec fn next_byte(b: Seq<u8>, pos: int, end: int) -> Option<u8> {
    if pos + 1 < end {
        Some(b[pos + 1])
    } else {
        None
    }
}

/// The first position from `p` on that is `end` or holds no digit.
pub open spec fn digits_end(b: Seq<u8>, p: int, end: int) -> int
    decreases end - p,
{
    if p < end && is_digit(b[p]) {
        digits_end(b, p + 1, end)
    } else {
        p
    }
}

/// The first position from `p` on that is `end` or holds no word byte.
pub open spec fn word_end(b: Seq<u8>, p: int, end: int) -> int
    decreases end - p,
{
    if p < end && is_word_byte(b[p]) {
        word_end(b, p + 1, end)
    } else {
        p
    }
}

/// The first position from `p` on that is `end` or holds a `"`.
pub open spec fn quote_from(b: Seq<u8>, p: int, end: int) -> int
    decreases end - p,
{
    if p < end && b[p] != 34 {
        quote_from(b, p + 1, end)
    } else {
        p
    }
}

pub proof fn lemma_digits_end(b: Seq<u8>, p: int, end: int)
    requires
        p <= end,
    ensures
        p <= digits_end(b, p, end) <= end,
        forall|k: int| p <= k < digits_end(b, p, end) ==> is_digit(#[trigger] b[k]),
        digits_end(b, p, end) < end ==> !is_digit(b[digits_end(b, p, end)]),
    decreases end - p,
{
    if p < end && is_digit(b[p]) {
        lemma_digits_end(b, p + 1, end);
    }
}

pub proof fn lemma_word_end(b: Seq<u8>, p: int, end: int)
    requires
        p <= end,
    ensures
        p <= word_end(b, p, end) <= end,
        forall|k: int| p <= k < word_end(b, p, end) ==> is_word_byte(#[trigger] b[k]),
        word_end(b, p, end) < end ==> !is_word_byte(b[word_end(b, p, end)]),
    decreases end - p,
{
    if p < end && is_word_byte(b[p]) {
        lemma_word_end(b, p + 1, end);
    }
}

pub proof fn lemma_quote_from(b: Seq<u8>, p: int, end: int)
    requires
        p <= end,
    ensures
        p <= quote_from(b, p, end) <= end,
        forall|k: int| p <= k < quote_from(b, p, end) ==> #[trigger] b[k] != 34,
        quote_from(b, p, end) < end ==> b[quote_from(b, p, end)] == 34,
    decreases end - p,
{
    if p < end && b[p] != 34 {
        lemma_quote_from(b, p + 1, end);
    }
}

/// The keyword that `w` spells, if any. Keywords are case-sensitive.
pub open spec fn keyword(w: Seq<u8>) -> Option<Token> {
    if w == seq![97u8, 110u8, 100u8] {  // "and"
        Some(Token::And)
    } else if w == seq![69u8, 76u8, 83u8, 69u8] {  // "ELSE"
        Some(Token::Else)
    } else if w == seq![102u8, 97u8, 108u8, 115u8, 101u8] {  // "false"
        Some(Token::False)
    } else if w == seq![73u8, 70u8] {  // "IF"
        Some(Token::If)
    } else if w == seq![111u8, 114u8] {  // "or"
        Some(Token::Or)
    } else if w == seq![69u8, 78u8, 68u8, 73u8, 70u8] {  // "ENDIF"
        Some(Token::EndIf)
    } else if w == seq![83u8, 69u8, 84u8] {  // "SET"
        Some(Token::SetKeyword)
    } else if w == seq![78u8, 79u8, 80u8] {  // "NOP"
        Some(Token::Nop)
    } else if w == seq![80u8, 82u8, 73u8, 78u8, 84u8] {  // "PRINT"
        Some(Token::Print)
    } else if w == seq![82u8, 69u8, 84u8, 85u8, 82u8, 78u8] {  // "RETURN"
        Some(Token::Return)
    } else if w == seq![116u8, 114u8, 117u8, 101u8] {  // "true"
        Some(Token::True)
    } else {
        None
    }
}

/// The token for the word that occupies `b[start..=end]`.
pub open spec fn word_token(b: Seq<u8>, start: int, end: int) -> Token {
    match keyword(b.subrange(start, end + 1)) {
        Some(k) => k,
        None => Token::Identifier(start as usize, end as usize),
    }
}

/// The token that starts at `pos` in a line that ends before `end`, and the
/// position just after it; or the error that the byte at `pos` raises.
/// White space and comments are not tokens: the caller skips them first.
pub open spec fn lex_token(b: Seq<u8>, pos: int, end: int) -> Result<(Token, int), LexError> {
    let c = b[pos];
    let next = next_byte(b, pos, end);
    if c == 40 {  // "("
        Ok((Token::LeftParen, pos + 1))
    } else if c == 41 {  // ")"
        Ok((Token::RightParen, pos + 1))
    } else if c == 91 {  // "["
        Ok((Token::LeftSquare, pos + 1))
    } else if c == 93 {  // "]"
        Ok((Token::RightSquare, pos + 1))
    } else if c == 44 {  // ","
        Ok((Token::Comma, pos + 1))
    } else if c == 46 {  // "."
        Ok((Token::Dot, pos + 1))
    } else if c == 45 {  // "-"
        Ok((Token::Minus, pos + 1))
    } else if c == 43 {  // "+"
        Ok((Token::Plus, pos + 1))
    } else if c == 42 {  // "*"
        Ok((Token::Star, pos + 1))
    } else if c == 47 {  // "/"
        Ok((Token::Slash, pos + 1))
    } else if c == 58 {  // ":"
        Ok((Token::Colon, pos + 1))
    } else if c == 33 {  // "!"
        if next == Some(61u8) {
            Ok((Token::BangEqual, pos + 2))
        } else {
            Ok((Token::Bang, pos + 1))
        }
    } else if c == 61 {  // "="
        if next == Some(61u8) {
            Ok((Token::EqualEqual, pos + 2))
        } else {
            Err(LexError::UnexpectedToken)
        }
    } else if c == 60 {  // "<"
        if next == Some(61u8) {
            Ok((Token::LessEqual, pos + 2))
        } else {
            Ok((Token::Less, pos + 1))
        }
    } else if c == 62 {  // ">"
        if next == Some(61u8) {
            Ok((Token::GreaterEqual, pos + 2))
        } else {
            Ok((Token::Greater, pos + 1))
        }
    } else if is_digit(c) {
        let e = digits_end(b, pos + 1, end);
        Ok((Token::Number(pos as usize, (e - 1) as usize), e))
    } else if c == 34 {  // a double quote
        let q = quote_from(b, pos + 1, end);
        if q < end {
            Ok((Token::String(pos as usize, q as usize), q + 1))
        } else {
            Err(LexError::UnmatchedString)
        }
    } else if is_letter(c) {
        let e = word_end(b, pos + 1, end);
        Ok((word_token(b, pos, e - 1), e))
    } else {
        Err(LexError::UnexpectedToken)
    }
}

pub proof fn lemma_lex_token_advances(b: Seq<u8>, pos: int, end: int)
    requires
        0 <= pos < end,
    ensures
        lex_token(b, pos, end) matches Ok((_, next)) ==> pos < next <= end,
{
    lemma_digits_end(b, pos + 1, end);
    lemma_word_end(b, pos + 1, end);
    lemma_quote_from(b, pos + 1, end);
}

/// Whether a `//` comment begins at `pos`.
pub open spec fn starts_comment(b: Seq<u8>, pos: int, end: int) -> bool {
    b[pos] == 47 && next_byte(b, pos, end) == Some(47u8)
}

/// `p` followed by the tokens of `rest`, or the error of `rest`.
pub open spec fn prefix_tokens(p: Seq<Token>, rest: Result<Seq<Token>, LexError>) -> Result<
    Seq<Token>,
    LexError,
> {
    match rest {
        Ok(ts) => Ok(p + ts),
        Err(e) => Err(e),
    }
}

/// The tokens of the line `b[pos..end]`, or the first error in it.
pub open spec fn scan_line(b: Seq<u8>, pos: int, end: int) -> Result<Seq<Token>, LexError>
    decreases end - pos,
{
    if pos < 0 || pos >= end {
        Ok(seq![])
    } else if is_space(b[pos]) {
        scan_line(b, pos + 1, end)
    } else if starts_comment(b, pos, end) {
        Ok(seq![])
    } else {
        match lex_token(b, pos, end) {
            Err(e) => Err(e),
            Ok((t, next)) => {
                proof {
                    lemma_lex_token_advances(b, pos, end);
                }
                prefix_tokens(seq![t], scan_line(b, next, end))
            },
        }
    }
}

/// The position of the first line break from `p` on, or the length of `b`.
pub open spec fn line_end(b: Seq<u8>, p: int) -> int
    decreases b.len() - p,
{
    if p < b.len() && b[p] != 10 {
        line_end(b, p + 1)
    } else {
        p
    }
}

pub proof fn lemma_line_end(b: Seq<u8>, p: int)
    requires
        p <= b.len(),
    ensures
        p <= line_end(b, p) <= b.len(),
        forall|k: int| p <= k < line_end(b, p) ==> #[trigger] b[k] != 10,
        line_end(b, p) < b.len() ==> b[line_end(b, p)] == 10,
    decreases b.len() - p,
{
    if p < b.len() && b[p] != 10 {
        lemma_line_end(b, p + 1);
    }
}

/// The lines of `b` from position `p` on, each as the half-open range of its
/// bytes, line break excluded. The text after the last line break is a line
/// when it is not empty.
pub open spec fn lines_from(b: Seq<u8>, p: int) -> Seq<(int, int)>
    decreases b.len() + 1 - p,
{
    if p < 0 || p >= b.len() {
        seq![]
    } else {
        let e = line_end(b, p);
        proof {
            lemma_line_end(b, p);
        }
        seq![(p, e)] + lines_from(b, e + 1)
    }
}

/// The lines of `b`.
pub open spec fn source_lines(b: Seq<u8>) -> Seq<(int, int)> {
    lines_from(b, 0)
}

/// The tokens of each line in `lines`, or the first error among them.
pub open spec fn scan_lines(b: Seq<u8>, lines: Seq<(int, int)>) -> Result<
    Seq<Seq<Token>>,
    LexError,
>
    decreases lines.len(),
{
    if lines.len() == 0 {
        Ok(seq![])
    } else {
        match scan_line(b, lines[0].0, lines[0].1) {
            Err(e) => Err(e),
            Ok(ts) => match scan_lines(b, lines.drop_first()) {
                Err(e) => Err(e),
                Ok(rest) => Ok(seq![ts] + rest),
            },
        }
    }
}

/// `p` followed by the lines of `rest`, or the error of `rest`.
pub open spec fn prefix_lines(p: Seq<Seq<Token>>, rest: Result<Seq<Seq<Token>>, LexError>) -> Result<
    Seq<Seq<Token>>,
    LexError,
> {
    match rest {
        Ok(ls) => Ok(p + ls),
        Err(e) => Err(e),
    }
}

/// `ls` with the end marker appended to its last line, if it has one.
pub open spec fn with_end_marker(ls: Seq<Seq<Token>>) -> Seq<Seq<Token>> {
    if ls.len() == 0 {
        ls
    } else {
        ls.update(ls.len() - 1, ls.last().push(Token::Eof))
    }
}

/// The token stream of the source whose bytes are `b`, one sequence of tokens
/// per line, or the first error met.
pub open spec fn tokenize_bytes(b: Seq<u8>) -> Result<Seq<Seq<Token>>, LexError> {
    match scan_lines(b, source_lines(b)) {
        Err(e) => Err(e),
        Ok(ls) => Ok(with_end_marker(ls)),
    }
}

/// The bytes of a source text: its UTF-8 encoding.
pub open spec fn source_bytes(code: Seq<char>) -> Seq<u8> {
    encode_utf8(code)
}

} // verus!
