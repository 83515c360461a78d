use kaleidoscope::lexer::{Lexer, Token};

fn lexer(input: &str) -> Lexer {
    Lexer::new(input.chars().collect())
}

fn value(t: &Token) -> Option<f64> {
    match t {
        Token::Number(text) => text.parse().ok(),
        _ => None,
    }
}

#[test]
fn test_identifier() {
    let mut lexer = lexer("a b c");
    assert_eq!(Token::Identifier("a".into()), lexer.next_token());
    assert_eq!(Token::Identifier("b".into()), lexer.next_token());
    assert_eq!(Token::Identifier("c".into()), lexer.next_token());
    assert_eq!(Token::Eof, lexer.next_token());
}

#[test]
fn test_keyword() {
    let mut lexer = lexer("def extern");
    assert_eq!(Token::Def, lexer.next_token());
    assert_eq!(Token::Extern, lexer.next_token());
    assert_eq!(Token::Eof, lexer.next_token());
}

#[test]
fn test_number() {
    let mut lexer = lexer("12.34");
    assert_eq!(Some(12.34f64), value(&lexer.next_token()));
    assert_eq!(Token::Eof, lexer.next_token());

    let mut lexer = self::lexer(" 1.0 2.0 3.1");
    assert_eq!(Some(1.0f64), value(&lexer.next_token()));
    assert_eq!(Some(2.0f64), value(&lexer.next_token()));
    assert_eq!(Some(3.1f64), value(&lexer.next_token()));
    assert_eq!(Token::Eof, lexer.next_token());

    let mut lexer = self::lexer("12.34.1");
    assert_eq!(Some(0f64), value(&lexer.next_token()));
    assert_eq!(Token::Eof, lexer.next_token());
}

#[test]
fn test_comment() {
    let mut lexer = lexer("# seom comment");
    assert_eq!(Token::Eof, lexer.next_token());

    let mut lexer = self::lexer("abc # comment \n xyz");
    assert_eq!(Token::Identifier("abc".into()), lexer.next_token());
    assert_eq!(Token::Identifier("xyz".into()), lexer.next_token());
    assert_eq!(Token::Eof, lexer.next_token());
}

#[test]
fn test_chars() {
    let mut lexer = lexer("a+b-c");
    assert_eq!(Token::Identifier("a".into()), lexer.next_token());
    assert_eq!(Token::Char('+'), lexer.next_token());
    assert_eq!(Token::Identifier("b".into()), lexer.next_token());
    assert_eq!(Token::Char('-'), lexer.next_token());
    assert_eq!(Token::Identifier("c".into()), lexer.next_token());
    assert_eq!(Token::Eof, lexer.next_token());
}

#[test]
fn test_whitespaces() {
    let mut lexer = lexer("    +a  b     c!    ");
    assert_eq!(Token::Char('+'), lexer.next_token());
    assert_eq!(Token::Identifier("a".into()), lexer.next_token());
    assert_eq!(Token::Identifier("b".into()), lexer.next_token());
    assert_eq!(Token::Identifier("c".into()), lexer.next_token());
    assert_eq!(Token::Char('!'), lexer.next_token());
    assert_eq!(Token::Eof, lexer.next_token());

    let mut lexer = self::lexer("\n    a \n\r  b \r \n   c \r\r  \n  ");
    assert_eq!(Token::Identifier("a".into()), lexer.next_token());
    assert_eq!(Token::Identifier("b".into()), lexer.next_token());
    assert_eq!(Token::Identifier("c".into()), lexer.next_token());
    assert_eq!(Token::Eof, lexer.next_token());
}

#[test]
fn blank_and_comment_input_reads_as_end() {
    for input in ["", "   \t\n\r ", "# only a comment", "  # one\n# two\r\n   # three"] {
        let mut lexer = lexer(input);
        assert_eq!(Token::Eof, lexer.next_token());
        assert_eq!(Token::Eof, lexer.next_token());
        assert_eq!(Token::Eof, lexer.next_token());
    }
}

#[test]
fn words_read_as_identifiers_in_order() {
    let mut lexer = lexer("  alpha b2c3 define\textern2 x  ");
    assert_eq!(Token::Identifier("alpha".into()), lexer.next_token());
    assert_eq!(Token::Identifier("b2c3".into()), lexer.next_token());
    assert_eq!(Token::Identifier("define".into()), lexer.next_token());
    assert_eq!(Token::Identifier("extern2".into()), lexer.next_token());
    assert_eq!(Token::Identifier("x".into()), lexer.next_token());
    assert_eq!(Token::Eof, lexer.next_token());
}

#[test]
fn identifier_stops_at_other_characters() {
    let mut lexer = lexer("foo_bar");
    assert_eq!(Token::Identifier("foo".into()), lexer.next_token());
    assert_eq!(Token::Char('_'), lexer.next_token());
    assert_eq!(Token::Identifier("bar".into()), lexer.next_token());
    assert_eq!(Token::Eof, lexer.next_token());
}

#[test]
fn numerals_round_trip() {
    for v in [0.0f64, 1.0, 0.5, 12.34, 123.25, 1e10, 3.141592653589793, 1e-7] {
        let text = format!("{}", v);
        let mut lexer = lexer(&text);
        assert_eq!(Some(v), value(&lexer.next_token()));
        assert_eq!(Token::Eof, lexer.next_token());
    }
}

#[test]
fn numerals_keep_their_text() {
    let mut lexer = lexer("1. .5 007");
    assert_eq!(Token::Number("1.".into()), lexer.next_token());
    assert_eq!(Token::Number(".5".into()), lexer.next_token());
    assert_eq!(Token::Number("007".into()), lexer.next_token());
    assert_eq!(Token::Eof, lexer.next_token());
}

#[test]
fn malformed_numerals_read_as_zero() {
    let mut lexer = lexer("1..2 . 1.2.3");
    assert_eq!(Token::Number("0".into()), lexer.next_token());
    assert_eq!(Token::Number("0".into()), lexer.next_token());
    assert_eq!(Token::Number("0".into()), lexer.next_token());
    assert_eq!(Token::Eof, lexer.next_token());
}

#[test]
fn number_followed_by_word() {
    let mut lexer = lexer("12ab");
    assert_eq!(Some(12.0), value(&lexer.next_token()));
    assert_eq!(Token::Identifier("ab".into()), lexer.next_token());
    assert_eq!(Token::Eof, lexer.next_token());
}

#[test]
fn comment_ends_at_carriage_return() {
    let mut lexer = lexer("# note\rx");
    assert_eq!(Token::Identifier("x".into()), lexer.next_token());
    assert_eq!(Token::Eof, lexer.next_token());
}

#[test]
fn step_moves_one_character() {
    let mut lexer = lexer("ab");
    assert_eq!(Some('b'), lexer.step());
    assert_eq!(None, lexer.step());
    assert_eq!(None, lexer.step());
    assert_eq!(Token::Eof, lexer.next_token());
}

#[test]
fn words_after_other_tokens_read_as_identifiers() {
    let mut lexer = lexer("1+ foo bar7  baz");
    assert_eq!(Some(1.0), value(&lexer.next_token()));
    assert_eq!(Token::Char('+'), lexer.next_token());
    assert_eq!(Token::Identifier("foo".into()), lexer.next_token());
    assert_eq!(Token::Identifier("bar7".into()), lexer.next_token());
    assert_eq!(Token::Identifier("baz".into()), lexer.next_token());
    assert_eq!(Token::Eof, lexer.next_token());
}
