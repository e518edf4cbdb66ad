use json_parser::parse_error::ParseError;
use json_parser::parser::Parser;
use json_parser::value::JsonValue;

fn parse(input: &str) -> Result<JsonValue, ParseError> {
    Parser::new(input).parse()
}

#[test]
fn empty_object() {
    assert_eq!(parse("{}"), Ok(JsonValue::Object(vec![])));
}

#[test]
fn empty_array() {
    assert_eq!(parse("[]"), Ok(JsonValue::Array(vec![])));
}

#[test]
fn top_level_string() {
    assert_eq!(parse("\"hello\""), Ok(JsonValue::String("hello".to_string())));
}

#[test]
fn top_level_int() {
    assert_eq!(parse("42"), Ok(JsonValue::Number(42)));
}

#[test]
fn top_level_true() {
    assert_eq!(parse("true"), Ok(JsonValue::Boolean(true)));
}

#[test]
fn top_level_false_needs_fifth_char() {
    assert_eq!(parse("false"), Ok(JsonValue::Boolean(false)));
    assert_eq!(parse("fals"), Err(ParseError::ParsingError));
    assert_eq!(parse("falsx"), Err(ParseError::ParsingError));
}

#[test]
fn object_with_nested_array() {
    let expected = JsonValue::Object(vec![
        ("a".to_string(), JsonValue::Number(1)),
        (
            "b".to_string(),
            JsonValue::Array(vec![JsonValue::Boolean(true), JsonValue::Boolean(false)]),
        ),
    ]);
    assert_eq!(parse("{\"a\":1,\"b\":[true,false]}"), Ok(expected));
}

#[test]
fn array_of_three_numbers() {
    let expected = JsonValue::Array(vec![
        JsonValue::Number(1),
        JsonValue::Number(2),
        JsonValue::Number(3),
    ]);
    assert_eq!(parse("[1,2,3]"), Ok(expected));
}

#[test]
fn unterminated_array_is_an_error_not_a_crash() {
    assert_eq!(parse("[1,2"), Err(ParseError::ParsingError));
}

#[test]
fn duplicate_keys_last_write_wins() {
    let expected = JsonValue::Object(vec![("a".to_string(), JsonValue::Number(2))]);
    assert_eq!(parse("{\"a\":1,\"a\":2}"), Ok(expected));
}

#[test]
fn whitespace_between_tokens_changes_nothing() {
    let compact = parse("{\"a\":1,\"b\":[true,false]}");
    let spaced = parse(" {\t\"a\" :\n 1 ,\n\"b\" : [ true ,\tfalse ] }\n");
    assert_eq!(compact, spaced);
    assert_eq!(parse("  \t\n42  "), parse("42"));
}

#[test]
fn integer_key_becomes_its_decimal_string() {
    let expected = JsonValue::Object(vec![("1".to_string(), JsonValue::Number(2))]);
    assert_eq!(parse("{1:2}"), Ok(expected));
    let expected = JsonValue::Object(vec![("207".to_string(), JsonValue::Boolean(true))]);
    assert_eq!(parse("{ 207 : true }"), Ok(expected));
}

#[test]
fn extra_commas_between_pairs_are_skipped() {
    let expected = JsonValue::Object(vec![
        ("a".to_string(), JsonValue::Number(1)),
        ("b".to_string(), JsonValue::Number(2)),
    ]);
    assert_eq!(parse("{,\"a\":1,,\"b\":2,}"), Ok(expected));
}

#[test]
fn nested_objects() {
    let inner = JsonValue::Object(vec![(
        "b".to_string(),
        JsonValue::Array(vec![JsonValue::Number(1)]),
    )]);
    let expected = JsonValue::Object(vec![("a".to_string(), inner)]);
    assert_eq!(parse("{\"a\":{\"b\":[1]}}"), Ok(expected));
}

#[test]
fn bare_close_bracket_surfaces_the_array_end_signal() {
    assert_eq!(parse("]"), Err(ParseError::ArrayEnd));
}

#[test]
fn bare_close_brace_is_a_plain_error() {
    assert_eq!(parse("}"), Err(ParseError::ParsingError));
}

#[test]
fn end_of_stream_is_a_plain_error() {
    assert_eq!(parse(""), Err(ParseError::ParsingError));
    assert_eq!(parse("   "), Err(ParseError::ParsingError));
}

#[test]
fn text_after_the_first_value_is_not_examined() {
    assert_eq!(parse("1 2"), Ok(JsonValue::Number(1)));
}

#[test]
fn string_reads_verbatim_to_the_next_quote() {
    // The character right after the opening quote is taken unconditionally,
    // so a string of two bare quotes holds one quote character.
    assert_eq!(parse("\"\""), Ok(JsonValue::String("\"".to_string())));
    // An unterminated string runs to the end of the text without an error.
    assert_eq!(parse("\"ab"), Ok(JsonValue::String("ab".to_string())));
    // No escape handling: a backslash is an ordinary character.
    assert_eq!(
        parse("\"a\\nb\""),
        Ok(JsonValue::String("a\\nb".to_string()))
    );
}

#[test]
fn number_beyond_the_signed_32_bit_range_is_rejected() {
    assert_eq!(parse("2147483647"), Ok(JsonValue::Number(2147483647)));
    assert_eq!(parse("2147483648"), Err(ParseError::ParsingError));
    assert_eq!(parse("99999999999"), Err(ParseError::ParsingError));
}

#[test]
fn error_messages() {
    assert_eq!(ParseError::ParsingError.message(), "Parse Error");
    assert_eq!(ParseError::CommaEndingObject.message(), "Comma Ending Object");
    assert_eq!(ParseError::ArrayEnd.message(), "Array End");
}
