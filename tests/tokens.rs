use nodescript_rust::tokenize_string;
use nodescript_rust::tokens::{tokenize, tokenize_line, LexError, Token, Tokens};

fn lines_of(code: &str) -> Vec<Vec<Token>> {
    tokenize_string(code.to_string()).unwrap().tokens
}

fn lexeme(code: &str, a: usize, z: usize) -> &str {
    &code[a..=z]
}

#[test]
fn mod_basic_parse() {
    let result = tokenize_string("PRINT 0, input".to_string()).unwrap();
    assert_eq!(
        result,
        Tokens {
            tokens: vec![vec![
                Token::Print,
                Token::Number(6, 6),
                Token::Comma,
                Token::Identifier(9, 13),
                Token::Eof,
            ]],
            code: "PRINT 0, input".into(),
        }
    );
}

#[test]
fn print_scenario_spans_resolve() {
    let code = "PRINT 0, input";
    let t = tokenize_string(code.to_string()).unwrap();
    assert_eq!(t.tokens.len(), 1);
    match t.tokens[0][1] {
        Token::Number(a, z) => assert_eq!(lexeme(&t.code, a, z), "0"),
        other => panic!("expected a number, got {:?}", other),
    }
    match t.tokens[0][3] {
        Token::Identifier(a, z) => assert_eq!(lexeme(&t.code, a, z), "input"),
        other => panic!("expected an identifier, got {:?}", other),
    }
}

#[test]
fn double_equal_is_one_token() {
    assert_eq!(
        lines_of("x == 1"),
        vec![vec![
            Token::Identifier(0, 0),
            Token::EqualEqual,
            Token::Number(5, 5),
            Token::Eof,
        ]]
    );
}

#[test]
fn lone_equal_is_unexpected() {
    assert_eq!(tokenize_string("x = 1".to_string()), Err("Unexpected Token"));
}

#[test]
fn unclosed_string_is_unmatched() {
    assert_eq!(tokenize_string("SET s: \"abc".to_string()), Err("Unmatched String"));
}

#[test]
fn comment_only_line_gets_end_marker() {
    assert_eq!(lines_of("// comment only"), vec![vec![Token::Eof]]);
}

#[test]
fn empty_source_has_no_lines() {
    let t = tokenize(String::new()).unwrap();
    assert!(t.tokens.is_empty());
    assert_eq!(t.code, "");
}

#[test]
fn one_sequence_per_line() {
    assert_eq!(
        lines_of("a\n\nb\n"),
        vec![
            vec![Token::Identifier(0, 0)],
            vec![],
            vec![Token::Identifier(3, 3), Token::Eof],
        ]
    );
    assert_eq!(lines_of("a\n\n"), vec![vec![Token::Identifier(0, 0)], vec![Token::Eof]]);
    assert_eq!(lines_of("\n"), vec![vec![Token::Eof]]);
}

#[test]
fn crlf_line_breaks() {
    assert_eq!(
        lines_of("a\r\nb"),
        vec![vec![Token::Identifier(0, 0)], vec![Token::Identifier(3, 3), Token::Eof]]
    );
}

#[test]
fn exactly_one_end_marker_at_the_end() {
    let lines = lines_of("IF x\n  PRINT 1\nENDIF\n\n");
    let count: usize = lines
        .iter()
        .map(|l| l.iter().filter(|t| **t == Token::Eof).count())
        .sum();
    assert_eq!(count, 1);
    assert_eq!(lines.len(), 4);
    assert_eq!(lines[3], vec![Token::Eof]);
}

#[test]
fn string_span_includes_quotes() {
    let code = "SET s: \"a // b\"";
    let t = tokenize_string(code.to_string()).unwrap();
    assert_eq!(
        t.tokens,
        vec![vec![
            Token::SetKeyword,
            Token::Identifier(4, 4),
            Token::Colon,
            Token::String(7, 14),
            Token::Eof,
        ]]
    );
    assert_eq!(lexeme(&t.code, 7, 14), "\"a // b\"");
}

#[test]
fn spans_point_into_later_lines() {
    let code = "x\n  yy 42\n\"é\"";
    let t = tokenize_string(code.to_string()).unwrap();
    assert_eq!(
        t.tokens,
        vec![
            vec![Token::Identifier(0, 0)],
            vec![Token::Identifier(4, 5), Token::Number(7, 8)],
            vec![Token::String(10, 13), Token::Eof],
        ]
    );
    assert_eq!(lexeme(&t.code, 4, 5), "yy");
    assert_eq!(lexeme(&t.code, 7, 8), "42");
    assert_eq!(lexeme(&t.code, 10, 13), "\"é\"");
}

#[test]
fn comment_hides_valid_text() {
    assert_eq!(lines_of("x // y == 1"), vec![vec![Token::Identifier(0, 0), Token::Eof]]);
    assert_eq!(lines_of("1 // = \"open"), vec![vec![Token::Number(0, 0), Token::Eof]]);
    assert_eq!(lines_of("a ///b"), vec![vec![Token::Identifier(0, 0), Token::Eof]]);
}

#[test]
fn retokenizing_stored_code_is_idempotent() {
    let first = tokenize_string("IF a <= 10 and b != \"x\"\nPRINT a // done".to_string()).unwrap();
    let second = tokenize(first.code.clone()).unwrap();
    assert_eq!(first, second);
}

#[test]
fn all_operators() {
    assert_eq!(
        lines_of("( ) [ ] , . - + * / : ! != < <= > >= =="),
        vec![vec![
            Token::LeftParen,
            Token::RightParen,
            Token::LeftSquare,
            Token::RightSquare,
            Token::Comma,
            Token::Dot,
            Token::Minus,
            Token::Plus,
            Token::Star,
            Token::Slash,
            Token::Colon,
            Token::Bang,
            Token::BangEqual,
            Token::Less,
            Token::LessEqual,
            Token::Greater,
            Token::GreaterEqual,
            Token::EqualEqual,
            Token::Eof,
        ]]
    );
}

#[test]
fn operators_without_spaces() {
    assert_eq!(
        lines_of("!x<=3>(y)"),
        vec![vec![
            Token::Bang,
            Token::Identifier(1, 1),
            Token::LessEqual,
            Token::Number(4, 4),
            Token::Greater,
            Token::LeftParen,
            Token::Identifier(7, 7),
            Token::RightParen,
            Token::Eof,
        ]]
    );
}

#[test]
fn all_keywords_are_case_sensitive() {
    assert_eq!(
        lines_of("and ELSE false IF or ENDIF SET NOP PRINT RETURN true"),
        vec![vec![
            Token::And,
            Token::Else,
            Token::False,
            Token::If,
            Token::Or,
            Token::EndIf,
            Token::SetKeyword,
            Token::Nop,
            Token::Print,
            Token::Return,
            Token::True,
            Token::Eof,
        ]]
    );
    assert_eq!(
        lines_of("print AND Set"),
        vec![vec![
            Token::Identifier(0, 4),
            Token::Identifier(6, 8),
            Token::Identifier(10, 12),
            Token::Eof,
        ]]
    );
}

#[test]
fn identifiers_and_numbers() {
    assert_eq!(
        lines_of("a_1b 123 1a IFX"),
        vec![vec![
            Token::Identifier(0, 3),
            Token::Number(5, 7),
            Token::Number(9, 9),
            Token::Identifier(10, 10),
            Token::Identifier(12, 14),
            Token::Eof,
        ]]
    );
}

#[test]
fn unexpected_bytes() {
    assert_eq!(tokenize_string("_a".to_string()), Err("Unexpected Token"));
    assert_eq!(tokenize_string("x ; y".to_string()), Err("Unexpected Token"));
    assert_eq!(tokenize_string("é".to_string()), Err("Unexpected Token"));
    assert_eq!(tokenize_string("x =".to_string()), Err("Unexpected Token"));
}

#[test]
fn first_failing_line_decides() {
    assert_eq!(tokenize_string("x\n\"open\n= y".to_string()), Err("Unmatched String"));
    assert_eq!(tokenize_string("x\n= y\n\"open".to_string()), Err("Unexpected Token"));
}

#[test]
fn string_closing_at_line_end() {
    assert_eq!(tokenize_string("\"a\nb\"".to_string()), Err("Unmatched String"));
    assert_eq!(lines_of("\"\""), vec![vec![Token::String(0, 1), Token::Eof]]);
}

#[test]
fn scanning_a_single_line() {
    assert_eq!(tokenize_line("ab cd\nef", 3, 2), Ok(vec![Token::Identifier(3, 4)]));
    assert_eq!(tokenize_line("ab cd", 0, 0), Ok(vec![]));
    assert_eq!(tokenize_line("x = 1", 0, 5), Err("Unexpected Token"));
    assert_eq!(tokenize_line("x == 1", 0, 3), Err("Unexpected Token"));
}

#[test]
fn whitespace_kinds() {
    assert_eq!(
        lines_of("\tx\x0b\x0c y \r"),
        vec![vec![Token::Identifier(1, 1), Token::Identifier(5, 5), Token::Eof]]
    );
}

#[test]
fn error_messages() {
    assert_eq!(LexError::UnexpectedToken.message(), "Unexpected Token");
    assert_eq!(LexError::UnmatchedString.message(), "Unmatched String");
}

#[test]
fn streams_differ_by_code_or_tokens() {
    let a = tokenize_string("x".to_string()).unwrap();
    let b = tokenize_string("y".to_string()).unwrap();
    let c = tokenize_string("x ".to_string()).unwrap();
    assert_ne!(a, b);
    assert_ne!(a, c);
    assert_eq!(a.tokens, c.tokens);
}

#[test]
fn rendering_of_tokens() {
    assert_eq!(Token::LeftParen.render(), "(");
    assert_eq!(Token::GreaterEqual.render(), ">=");
    assert_eq!(Token::Print.render(), "PRINT");
    assert_eq!(Token::And.render(), "and");
    assert_eq!(Token::SetKeyword.render(), "SET");
    assert_eq!(Token::Eof.render(), "EOF");
    assert_eq!(Token::Number(12, 3).render(), "Number(12, 3)");
    assert_eq!(Token::Identifier(0, 105).render(), "Identifier(0, 105)");
    assert_eq!(Token::String(7, 14).render(), "String(7, 14)");
}
