use json_parser::lexer::Lexer;
use json_parser::token::Token;

#[test]
fn token_stream_of_a_small_object() {
    let mut l = Lexer::new("{\"a\":1}");
    assert_eq!(l.next_token(), Token::LBraces);
    assert_eq!(l.next_token(), Token::String("a".to_string()));
    assert_eq!(l.next_token(), Token::DoubleDot);
    assert_eq!(l.next_token(), Token::Int(1));
    assert_eq!(l.next_token(), Token::RBraces);
    assert_eq!(l.next_token(), Token::EOF);
    // The end of the stream is reported again on every further request.
    assert_eq!(l.next_token(), Token::EOF);
}

#[test]
fn whitespace_runs_are_skipped_before_each_token() {
    let mut l = Lexer::new("  \t\n [ ,\r: ]");
    assert_eq!(l.next_token(), Token::LBracket);
    assert_eq!(l.next_token(), Token::Comma);
    assert_eq!(l.next_token(), Token::DoubleDot);
    assert_eq!(l.next_token(), Token::RBracket);
    assert_eq!(l.next_token(), Token::EOF);
}

#[test]
fn boolean_lexing_takes_four_characters_greedily() {
    assert_eq!(Lexer::new("true").next_token(), Token::Boolean(true));
    assert_eq!(Lexer::new("false").next_token(), Token::Boolean(false));
    // Too short for four characters.
    assert_eq!(Lexer::new("tru").next_token(), Token::Illegal);
    // Four characters that spell neither `true` nor `fals`.
    assert_eq!(Lexer::new("truX").next_token(), Token::Illegal);
    // `fals` wants a fifth character, and it must be `e`.
    assert_eq!(Lexer::new("fals").next_token(), Token::Illegal);
    assert_eq!(Lexer::new("falsx").next_token(), Token::Illegal);
    // The fifth character is consumed: nothing but the end follows.
    let mut l = Lexer::new("false");
    assert_eq!(l.next_token(), Token::Boolean(false));
    assert_eq!(l.next_token(), Token::EOF);
}

#[test]
fn an_underscore_opens_a_literal_and_fails_it() {
    assert_eq!(Lexer::new("_rue").next_token(), Token::Illegal);
}

#[test]
fn number_lexing_takes_the_maximal_digit_run() {
    let mut l = Lexer::new("123 456");
    assert_eq!(l.next_token(), Token::Int(123));
    assert_eq!(l.next_token(), Token::Int(456));
    assert_eq!(l.next_token(), Token::EOF);
}

#[test]
fn number_overflow_yields_the_illegal_token() {
    assert_eq!(Lexer::new("2147483647").next_token(), Token::Int(2147483647));
    assert_eq!(Lexer::new("2147483648").next_token(), Token::Illegal);
}

#[test]
fn string_lexing_consumes_the_closing_quote() {
    let mut l = Lexer::new("\"ab\"\"cd\"");
    assert_eq!(l.next_token(), Token::String("ab".to_string()));
    assert_eq!(l.next_token(), Token::String("cd".to_string()));
    assert_eq!(l.next_token(), Token::EOF);
}

#[test]
fn lone_quote_at_the_end_is_illegal() {
    assert_eq!(Lexer::new("\"").next_token(), Token::Illegal);
}

#[test]
fn unrecognized_characters_are_illegal_not_errors() {
    assert_eq!(Lexer::new("*").next_token(), Token::Illegal);
    assert_eq!(Lexer::new("+1").next_token(), Token::Illegal);
}
