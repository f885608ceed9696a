//! The token vocabulary and the scanner.
use vstd::prelude::*;

use crate::model::{
    digits_end, is_digit, is_letter, is_space, is_word_byte, lemma_lex_token_advances,
    lemma_line_end, lex_token, line_end, lines_from, next_byte, prefix_lines, prefix_tokens,
    quote_from, scan_line, scan_lines, source_bytes, source_lines, starts_comment, tokenize_bytes,
    with_end_marker, word_end, word_token,
};

verus! {

/// One lexical unit.
///
/// The literal variants carry the inclusive byte range `(start, end)` of
/// their lexeme in the source text.
#[derive(PartialEq, Eq, Structural, Clone, Copy, Debug)]
pub enum Token {
    LeftParen,
    RightParen,
    LeftSquare,
    RightSquare,
    Comma,
    Dot,
    Minus,
    Plus,
    Slash,
    Star,
    Colon,
    // One or two character tokens.
    Bang,
    BangEqual,
    EqualEqual,
    Greater,
    GreaterEqual,
    Less,
    LessEqual,
    // Literals.
    Identifier(usize, usize),
    String(usize, usize),
    Number(usize, usize),
    // Keywords.
    And,
    Else,
    False,
    If,
    Or,
    EndIf,
    SetKeyword,
    Nop,
    Print,
    Return,
    True,
    Eof,
}

/// The two ways a line can fail to scan.
#[derive(PartialEq, Eq, Structural, Clone, Copy, Debug)]
pub enum LexError {
    /// A byte that starts no token, a lone `=` among them.
    UnexpectedToken,
    /// A string literal that the line ends before closing.
    UnmatchedString,
}

/// The fixed message that reports `e`.
pub open spec fn error_message(e: LexError) -> &'static str {
    match e {
        LexError::UnexpectedToken => "Unexpected Token",
        LexError::UnmatchedString => "Unmatched String",
    }
}

impl LexError {
    /// The fixed message that reports this error.
    pub fn message(&self) -> (r: &'static str)
        ensures
            r == error_message(*self),
    {
        match self {
            LexError::UnexpectedToken => "Unexpected Token",
            LexError::UnmatchedString => "Unmatched String",
        }
    }
}

fn is_space_byte(c: u8) -> (r: bool)
    ensures
        r == is_space(c),
{
    (9 <= c && c <= 13) || c == 32 || c == 0x85 || c == 0xa0
}

fn is_digit_byte(c: u8) -> (r: bool)
    ensures
        r == is_digit(c),
{
    48 <= c && c <= 57
}

fn is_letter_byte(c: u8) -> (r: bool)
    ensures
        r == is_letter(c),
{
    (65 <= c && c <= 90) || (97 <= c && c <= 122)
}

fn is_word_continuation(c: u8) -> (r: bool)
    ensures
        r == is_word_byte(c),
{
    is_letter_byte(c) || is_digit_byte(c) || c == 95
}

/// The byte after `current`, if it lies before `end`.
fn peek_next(line: &[u8], current: usize, end: usize) -> (r: Option<u8>)
    requires
        current < end <= line@.len(),
    ensures
        r == next_byte(line@, current as int, end as int),
{
    if current + 1 >= end {
        return None;
    }
    Some(line[current + 1])
}

/// The token stream of a source text: the tokens of each of its lines, in
/// the order of the lines, and the text itself, which the spans of the
/// literals point into.
#[derive(Debug)]
pub struct Tokens {
    pub tokens: Vec<Vec<Token>>,
    pub code: String,
}

/// The tokens of each line in `v`.
pub open spec fn lines_view(v: Seq<Vec<Token>>) -> Seq<Seq<Token>> {
    v.map_values(|l: Vec<Token>| l@)
}

impl Tokens {
    /// The tokens of each line.
    pub open spec fn token_lines(&self) -> Seq<Seq<Token>> {
        lines_view(self.tokens@)
    }
}

fn same_tokens(x: &Vec<Token>, y: &Vec<Token>) -> (r: bool)
    ensures
        r == (x@ == y@),
{
    if x.len() != y.len() {
        return false;
    }
    let mut i: usize = 0;
    while i < x.len()
        invariant
            x@.len() == y@.len(),
            i <= x@.len(),
            forall|k: int| 0 <= k < i ==> x@[k] == y@[k],
        decreases x@.len() - i,
    {
        if x[i] != y[i] {
            return false;
        }
        i = i + 1;
    }
    assert(x@ =~= y@);
    true
}

fn same_lines(x: &Vec<Vec<Token>>, y: &Vec<Vec<Token>>) -> (r: bool)
    ensures
        r == (lines_view(x@) == lines_view(y@)),
{
    if x.len() != y.len() {
        assert(lines_view(x@).len() != lines_view(y@).len());
        return false;
    }
    let mut i: usize = 0;
    while i < x.len()
        invariant
            x@.len() == y@.len(),
            i <= x@.len(),
            forall|k: int| 0 <= k < i ==> x@[k]@ == y@[k]@,
        decreases x@.len() - i,
    {
        if !same_tokens(&x[i], &y[i]) {
            assert(lines_view(x@)[i as int] != lines_view(y@)[i as int]);
            return false;
        }
        i = i + 1;
    }
    assert(lines_view(x@) =~= lines_view(y@));
    true
}

impl PartialEq for Tokens {
    fn eq(&self, other: &Tokens) -> (r: bool) {
        same_lines(&self.tokens, &other.tokens) && self.code == other.code
    }
}

impl vstd::std_specs::cmp::PartialEqSpecImpl for Tokens {
    open spec fn obeys_eq_spec() -> bool {
        true
    }

    open spec fn eq_spec(&self, other: &Tokens) -> bool {
        self.token_lines() == other.token_lines() && self.code@ == other.code@
    }
}

/// Whether `code[start..end]` spells `word`.
fn spells(code: &[u8], start: usize, end: usize, word: &[u8]) -> (r: bool)
    requires
        start <= end <= code@.len(),
    ensures
        r == (code@.subrange(start as int, end as int) == word@),
{
    if end - start != word.len() {
        return false;
    }
    let mut i: usize = 0;
    while i < word.len()
        invariant
            start <= end <= code@.len(),
            end - start == word@.len(),
            i <= word@.len(),
            forall|k: int| 0 <= k < i ==> code@[start + k] == word@[k],
        decreases word@.len() - i,
    {
        if code[start + i] != word[i] {
            assert(code@.subrange(start as int, end as int)[i as int] != word@[i as int]);
            return false;
        }
        i = i + 1;
    }
    assert(code@.subrange(start as int, end as int) =~= word@);
    true
}

/// The token for the word `code[start..end]`: its keyword if it spells one,
/// an identifier over that range otherwise.
fn get_keyword(code: &[u8], start: usize, end: usize) -> (r: Token)
    requires
        start < end <= code@.len(),
    ensures
        r == word_token(code@, start as int, end - 1),
{
    if spells(code, start, end, [97u8, 110u8, 100u8].as_slice()) {  // "and"
        Token::And
    } else if spells(code, start, end, [69u8, 76u8, 83u8, 69u8].as_slice()) {  // "ELSE"
        Token::Else
    } else if spells(code, start, end, [102u8, 97u8, 108u8, 115u8, 101u8].as_slice()) {  // "false"
        Token::False
    } else if spells(code, start, end, [73u8, 70u8].as_slice()) {  // "IF"
        Token::If
    } else if spells(code, start, end, [111u8, 114u8].as_slice()) {  // "or"
        Token::Or
    } else if spells(code, start, end, [69u8, 78u8, 68u8, 73u8, 70u8].as_slice()) {  // "ENDIF"
        Token::EndIf
    } else if spells(code, start, end, [83u8, 69u8, 84u8].as_slice()) {  // "SET"
        Token::SetKeyword
    } else if spells(code, start, end, [78u8, 79u8, 80u8].as_slice()) {  // "NOP"
        Token::Nop
    } else if spells(code, start, end, [80u8, 82u8, 73u8, 78u8, 84u8].as_slice()) {  // "PRINT"
        Token::Print
    } else if spells(code, start, end, [82u8, 69u8, 84u8, 85u8, 82u8, 78u8].as_slice()) {  // "RETURN"
        Token::Return
    } else if spells(code, start, end, [116u8, 114u8, 117u8, 101u8].as_slice()) {  // "true"
        Token::True
    } else {
        Token::Identifier(start, end - 1)
    }
}

/// Recognises the token that starts at `pos`, in a line that ends before
/// `end`, and returns it with the position just after it.
fn scan_token(bytes: &[u8], pos: usize, end: usize) -> (r: Result<(Token, usize), LexError>)
    requires
        pos < end <= bytes@.len(),
    ensures
        r matches Ok((t, next)) ==> lex_token(bytes@, pos as int, end as int) == Ok::<
            (Token, int),
            LexError,
        >((t, next as int)),
        r matches Err(e) ==> lex_token(bytes@, pos as int, end as int) == Err::<
            (Token, int),
            LexError,
        >(e),
{
    let c = bytes[pos];
    let next = peek_next(bytes, pos, end);
    let followed_by_equal = matches!(next, Some(61u8));
    if c == 40 {  // "("
        Ok((Token::LeftParen, pos + 1))
    } else if c == 41 {  // ")"
        Ok((Token::RightParen, pos + 1))
    } else if c == 91 {  // "["
        Ok((Token::LeftSquare, pos + 1))
    } else if c == 93 {  // "]"
        Ok((Token::RightSquare, pos + 1))
    } else if c == 44 {  // ","
        Ok((Token::Comma, pos + 1))
    } else if c == 46 {  // "."
        Ok((Token::Dot, pos + 1))
    } else if c == 45 {  // "-"
        Ok((Token::Minus, pos + 1))
    } else if c == 43 {  // "+"
        Ok((Token::Plus, pos + 1))
    } else if c == 42 {  // "*"
        Ok((Token::Star, pos + 1))
    } else if c == 47 {  // "/"
        Ok((Token::Slash, pos + 1))
    } else if c == 58 {  // ":"
        Ok((Token::Colon, pos + 1))
    } else if c == 33 {  // "!"
        if followed_by_equal {
            Ok((Token::BangEqual, pos + 2))
        } else {
            Ok((Token::Bang, pos + 1))
        }
    } else if c == 61 {  // "="
        if followed_by_equal {
            Ok((Token::EqualEqual, pos + 2))
        } else {
            Err(LexError::UnexpectedToken)
        }
    } else if c == 60 {  // "<"
        if followed_by_equal {
            Ok((Token::LessEqual, pos + 2))
        } else {
            Ok((Token::Less, pos + 1))
        }
    } else if c == 62 {  // ">"
        if followed_by_equal {
            Ok((Token::GreaterEqual, pos + 2))
        } else {
            Ok((Token::Greater, pos + 1))
        }
    } else if is_digit_byte(c) {
        let mut current: usize = pos + 1;
        while current < end && is_digit_byte(bytes[current])
            invariant
                pos + 1 <= current <= end <= bytes@.len(),
                digits_end(bytes@, pos + 1, end as int) == digits_end(
                    bytes@,
                    current as int,
                    end as int,
                ),
            decreases end - current,
        {
            current = current + 1;
        }
        Ok((Token::Number(pos, current - 1), current))
    } else if c == 34 {  // a double quote
        let mut current: usize = pos + 1;
        while current < end && bytes[current] != 34
            invariant
                pos + 1 <= current <= end <= bytes@.len(),
                quote_from(bytes@, pos + 1, end as int) == quote_from(
                    bytes@,
                    current as int,
                    end as int,
                ),
            decreases end - current,
        {
            current = current + 1;
        }
        if current < end {
            Ok((Token::String(pos, current), current + 1))
        } else {
            Err(LexError::UnmatchedString)
        }
    } else if is_letter_byte(c) {
        let mut current: usize = pos + 1;
        while current < end && is_word_continuation(bytes[current])
            invariant
                pos + 1 <= current <= end <= bytes@.len(),
                word_end(bytes@, pos + 1, end as int) == word_end(
                    bytes@,
                    current as int,
                    end as int,
                ),
            decreases end - current,
        {
            current = current + 1;
        }
        Ok((get_keyword(bytes, pos, current), current))
    } else {
        Err(LexError::UnexpectedToken)
    }
}

/// Scans the line `code[offset..offset + len]` into its tokens.
///
/// White space separates tokens and a `//` ends the line's tokens. The first
/// byte that starts no token fails the whole line, with the message of its
/// error; the spans of the literals are offsets into the whole of `code`.
pub fn tokenize_line(code: &str, offset: usize, len: usize) -> (r: Result<Vec<Token>, &'static str>)
    requires
        offset + len <= source_bytes(code@).len(),
    ensures
        match scan_line(source_bytes(code@), offset as int, offset + len) {
            Ok(ts) => r matches Ok(v) && v@ == ts,
            Err(e) => r == Err::<Vec<Token>, &'static str>(error_message(e)),
        },
{
    let bytes: &[u8] = code.as_bytes();
    let ghost b = bytes@;
    let n = bytes.len();
    let end: usize = offset + len;
    let mut tokens: Vec<Token> = Vec::new();
    let mut current: usize = offset;
    while current < end
        invariant
            b == bytes@,
            b == source_bytes(code@),
            offset <= current <= end <= b.len(),
            end == offset + len,
            scan_line(b, offset as int, end as int) == prefix_tokens(
                tokens@,
                scan_line(b, current as int, end as int),
            ),
        decreases end - current,
    {
        let c = bytes[current];
        if is_space_byte(c) {
            current = current + 1;
        } else if c == 47 && matches!(peek_next(bytes, current, end), Some(47u8)) {  // "//"
            assert(starts_comment(b, current as int, end as int));
            assert(tokens@ + Seq::<Token>::empty() =~= tokens@);
            return Ok(tokens);
        } else {
            match scan_token(bytes, current, end) {
                Ok((t, next)) => {
                    proof {
                        lemma_lex_token_advances(b, current as int, end as int);
                        let rest = scan_line(b, next as int, end as int);
                        if rest is Ok {
                            assert(tokens@ + (seq![t] + rest->Ok_0) =~= tokens@.push(t)
                                + rest->Ok_0);
                        }
                    }
                    tokens.push(t);
                    current = next;
                },
                Err(e) => {
                    return Err(e.message());
                },
            }
        }
    }
    assert(tokens@ + Seq::<Token>::empty() =~= tokens@);
    Ok(tokens)
}

/// Splits `code` into lines and scans each of them.
///
/// The result holds one sequence of tokens per line, blank and commented
/// lines included, with the end marker appended to the last line, and `code`
/// itself. An empty text has no lines and no end marker. The first line that
/// fails to scan fails the whole text, with the message of its error.
pub fn tokenize(code: String) -> (r: Result<Tokens, &'static str>)
    ensures
        match tokenize_bytes(source_bytes(code@)) {
            Ok(ls) => r matches Ok(t) && t.token_lines() == ls && t.code@ == code@,
            Err(e) => r == Err::<Tokens, &'static str>(error_message(e)),
        },
{
    let mut lines: Vec<Vec<Token>> = Vec::new();
    let ghost b = source_bytes(code@);
    {
        let text: &str = code.as_str();
        let bytes: &[u8] = text.as_bytes();
        let n: usize = bytes.len();
        let mut pos: usize = 0;
        while pos < n
            invariant
                b == bytes@,
                b == source_bytes(text@),
                text@ == code@,
                n == b.len(),
                pos <= n,
                scan_lines(b, source_lines(b)) == prefix_lines(
                    lines_view(lines@),
                    scan_lines(b, lines_from(b, pos as int)),
                ),
            decreases n - pos,
        {
            let mut e: usize = pos;
            while e < n && bytes[e] != 10
                invariant
                    b == bytes@,
                    n == b.len(),
                    pos <= e <= n,
                    line_end(b, pos as int) == line_end(b, e as int),
                decreases n - e,
            {
                e = e + 1;
            }
            let ghost here = lines_from(b, pos as int);
            proof {
                lemma_line_end(b, pos as int);
                assert(here[0] == (pos as int, e as int));
                assert(here.drop_first() =~= lines_from(b, e + 1));
            }
            match tokenize_line(text, pos, e - pos) {
                Ok(ts) => {
                    let ghost before = lines_view(lines@);
                    proof {
                        let rest = scan_lines(b, lines_from(b, e + 1));
                        if rest is Ok {
                            assert(lines_view(lines@) + (seq![ts@] + rest->Ok_0) =~= lines_view(
                                lines@,
                            ).push(ts@) + rest->Ok_0);
                        }
                    }
                    lines.push(ts);
                    assert(lines_view(lines@) =~= before.push(ts@));
                },
                Err(m) => {
                    return Err(m);
                },
            }
            if e < n {
                pos = e + 1;
            } else {
                pos = n;
            }
        }
    }
    assert(lines_view(lines@) + Seq::<Seq<Token>>::empty() =~= lines_view(lines@));
    let ghost scanned = lines_view(lines@);
    if lines.len() > 0 {
        let mut last = lines.pop().unwrap();
        last.push(Token::Eof);
        lines.push(last);
        assert(lines_view(lines@) =~= with_end_marker(scanned));
    }
    Ok(Tokens { tokens: lines, code })
}

} // verus!

verus! {

/// The decimal digits of `n`, most significant first.
pub open spec fn decimal(n: nat) -> Seq<char>
    decreases n,
{
    if n < 10 {
        digit_text(n)
    } else {
        decimal(n / 10) + digit_text(n % 10)
    }
}

/// The one-character text of the digit `d`.
pub open spec fn digit_text(d: nat) -> Seq<char> {
    if d == 0 {
        "0"@
    } else if d == 1 {
        "1"@
    } else if d == 2 {
        "2"@
    } else if d == 3 {
        "3"@
    } else if d == 4 {
        "4"@
    } else if d == 5 {
        "5"@
    } else if d == 6 {
        "6"@
    } else if d == 7 {
        "7"@
    } else if d == 8 {
        "8"@
    } else {
        "9"@
    }
}

fn digit_str(d: usize) -> (r: &'static str)
    requires
        d < 10,
    ensures
        r@ == digit_text(d as nat),
{
    if d == 0 {
        "0"
    } else if d == 1 {
        "1"
    } else if d == 2 {
        "2"
    } else if d == 3 {
        "3"
    } else if d == 4 {
        "4"
    } else if d == 5 {
        "5"
    } else if d == 6 {
        "6"
    } else if d == 7 {
        "7"
    } else if d == 8 {
        "8"
    } else {
        "9"
    }
}

fn append_decimal(s: &mut String, n: usize)
    ensures
        final(s)@ == old(s)@ + decimal(n as nat),
    decreases n,
{
    if n >= 10 {
        append_decimal(s, n / 10);
    }
    s.append(digit_str(n % 10));
    if n >= 10 {
        assert(s@ =~= old(s)@ + decimal(n as nat));
    }
}

/// The human-readable form of a token: the symbol of an operator, the kind
/// and the span bounds of a literal, the spelling of a keyword, and `EOF` for
/// the end marker.
pub open spec fn rendering(t: Token) -> Seq<char> {
    match t {
        Token::LeftParen => "("@,
        Token::RightParen => ")"@,
        Token::LeftSquare => "["@,
        Token::RightSquare => "]"@,
        Token::Comma => ","@,
        Token::Dot => "."@,
        Token::Minus => "-"@,
        Token::Plus => "+"@,
        Token::Slash => "/"@,
        Token::Star => "*"@,
        Token::Colon => ":"@,
        Token::Bang => "!"@,
        Token::BangEqual => "!="@,
        Token::EqualEqual => "=="@,
        Token::Greater => ">"@,
        Token::GreaterEqual => ">="@,
        Token::Less => "<"@,
        Token::LessEqual => "<="@,
        Token::Identifier(a, z) => "Identifier("@ + decimal(a as nat) + ", "@ + decimal(z as nat) + ")"@,
        Token::String(a, z) => "String("@ + decimal(a as nat) + ", "@ + decimal(z as nat) + ")"@,
        Token::Number(a, z) => "Number("@ + decimal(a as nat) + ", "@ + decimal(z as nat) + ")"@,
        Token::And => "and"@,
        Token::Else => "ELSE"@,
        Token::False => "false"@,
        Token::If => "IF"@,
        Token::Or => "or"@,
        Token::EndIf => "ENDIF"@,
        Token::SetKeyword => "SET"@,
        Token::Nop => "NOP"@,
        Token::Print => "PRINT"@,
        Token::Return => "RETURN"@,
        Token::True => "true"@,
        Token::Eof => "EOF"@,
    }
}

/// `head` followed by `a, z)`.
fn span_text(head: &str, a: usize, z: usize) -> (r: String)
    ensures
        r@ == head@ + decimal(a as nat) + ", "@ + decimal(z as nat) + ")"@,
{
    let mut s = head.to_owned();
    append_decimal(&mut s, a);
    s.append(", ");
    append_decimal(&mut s, z);
    s.append(")");
    s
}

impl Token {
    /// The human-readable form of this token.
    pub fn render(&self) -> (r: String)
        ensures
            r@ == rendering(*self),
    {
        match self {
            Token::LeftParen => "(".to_owned(),
            Token::RightParen => ")".to_owned(),
            Token::LeftSquare => "[".to_owned(),
            Token::RightSquare => "]".to_owned(),
            Token::Comma => ",".to_owned(),
            Token::Dot => ".".to_owned(),
            Token::Minus => "-".to_owned(),
            Token::Plus => "+".to_owned(),
            Token::Slash => "/".to_owned(),
            Token::Star => "*".to_owned(),
            Token::Colon => ":".to_owned(),
            Token::Bang => "!".to_owned(),
            Token::BangEqual => "!=".to_owned(),
            Token::EqualEqual => "==".to_owned(),
            Token::Greater => ">".to_owned(),
            Token::GreaterEqual => ">=".to_owned(),
            Token::Less => "<".to_owned(),
            Token::LessEqual => "<=".to_owned(),
            Token::Identifier(a, z) => span_text("Identifier(", *a, *z),
            Token::String(a, z) => span_text("String(", *a, *z),
            Token::Number(a, z) => span_text("Number(", *a, *z),
            Token::And => "and".to_owned(),
            Token::Else => "ELSE".to_owned(),
            Token::False => "false".to_owned(),
            Token::If => "IF".to_owned(),
            Token::Or => "or".to_owned(),
            Token::EndIf => "ENDIF".to_owned(),
            Token::SetKeyword => "SET".to_owned(),
            Token::Nop => "NOP".to_owned(),
            Token::Print => "PRINT".to_owned(),
            Token::Return => "RETURN".to_owned(),
            Token::True => "true".to_owned(),
            Token::Eof => "EOF".to_owned(),
        }
    }
}

} // verus!
