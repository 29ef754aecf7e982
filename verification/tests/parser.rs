use redis_starter_rust::parser::{DecodeKind, RedisParser};
use redis_starter_rust::value::Value;

#[test]
fn test_parse_positive_integer() {
    // Given
    let input = b":100\r\n";

    // When
    let mut parser = RedisParser::new(&input[..]);

    // Then
    let parsed = parser.next().unwrap().unwrap();

    assert_eq!(parsed, Value::Integer(100));
}

#[test]
fn test_parse_negative_integer() {
    // Given
    let input = b":-100\r\n";

    // When
    let mut parser = RedisParser::new(&input[..]);

    // Then
    let parsed = parser.next().unwrap().unwrap();

    assert_eq!(parsed, Value::Integer(-100));
}

#[test]
fn test_parse_empty_string() {
    // Given
    let input = b"$0\r\n\r\n";

    // When
    let mut parser = RedisParser::new(&input[..]);

    // Then
    let parsed = parser.next().unwrap().unwrap();

    assert_eq!(parsed, Value::String(String::from("")));
}

#[test]
fn test_parse_string() {
    // Given
    let input = b"$5\r\nhello\r\n";

    // When
    let mut parser = RedisParser::new(&input[..]);

    // Then
    let parsed = parser.next().unwrap().unwrap();

    assert_eq!(parsed, Value::String(String::from("hello")));
}

#[test]
fn test_parse_empty_array() {
    // Given
    let input = b"*0\r\n";

    // When
    let mut parser = RedisParser::new(&input[..]);

    // Then
    let parsed = parser.next().unwrap().unwrap();

    assert_eq!(parsed, Value::Array(Vec::new()));
}

#[test]
fn test_parse_array() {
    // Given
    let input = b"*2\r\n$5\r\nhello\r\n$5\r\nworld\r\n";

    // When
    let mut parser = RedisParser::new(&input[..]);

    // Then
    let parsed = parser.next().unwrap().unwrap();

    assert_eq!(
        parsed,
        Value::Array(vec![
            Value::String("hello".into()),
            Value::String("world".into())
        ])
    );
}

#[test]
fn test_parse_array_mix() {
    // Given
    let input = b"*2\r\n$5\r\nhello\r\n:-50\r\n";

    // When
    let mut parser = RedisParser::new(&input[..]);

    // Then
    let parsed = parser.next().unwrap().unwrap();

    assert_eq!(
        parsed,
        Value::Array(vec![Value::String("hello".into()), Value::Integer(-50)])
    );
}

#[test]
fn test_array_inner() {
    // Given
    let input = b"*2\r\n*3\r\n:1\r\n:2\r\n:3\r\n*2\r\n+Hello\r\n-World\r\n";

    // When
    let mut parser = RedisParser::new(&input[..]);

    // Then
    let parsed = parser.next().unwrap().unwrap();

    assert_eq!(
        parsed,
        Value::Array(vec![
            Value::Array(vec![
                Value::Integer(1),
                Value::Integer(2),
                Value::Integer(3)
            ]),
            Value::Array(vec![
                Value::String("Hello".into()),
                Value::Error("World".into())
            ])
        ])
    );
}

#[test]
fn simple_string_and_error_forms() {
    let input = b"+OK\r\n-ERR something\r\n";
    let mut parser = RedisParser::new(&input[..]);
    assert_eq!(
        parser.next().unwrap().unwrap(),
        Value::String("OK".into())
    );
    assert_eq!(
        parser.next().unwrap().unwrap(),
        Value::Error("ERR something".into())
    );
    assert!(parser.next().is_none());
}

#[test]
fn cursor_exhausted_after_exact_input() {
    // an empty array consumes exactly its header, nothing more
    let input = b"*0\r\n";
    let mut parser = RedisParser::new(&input[..]);
    assert_eq!(parser.next().unwrap().unwrap(), Value::Array(Vec::new()));
    assert!(parser.next().is_none());
}

#[test]
fn repeated_calls_continue_from_previous_unit() {
    let input = b":1\r\n:2\r\n";
    let mut parser = RedisParser::new(&input[..]);
    assert_eq!(parser.next().unwrap().unwrap(), Value::Integer(1));
    assert_eq!(parser.next().unwrap().unwrap(), Value::Integer(2));
    assert!(parser.next().is_none());
}

#[test]
fn unknown_marker_is_located() {
    let input = b"!oops\r\n";
    let mut parser = RedisParser::new(&input[..]);
    let err = parser.next().unwrap().unwrap_err();
    assert_eq!(err.kind, DecodeKind::UnknownMarker);
    assert_eq!(err.offset, 0);
}

#[test]
fn missing_newline_terminator_fails() {
    let input = b":100";
    let mut parser = RedisParser::new(&input[..]);
    let err = parser.next().unwrap().unwrap_err();
    assert_eq!(err.kind, DecodeKind::MissingTerminator);
    assert!(err.offset <= input.len());
}

#[test]
fn non_digit_integer_fails_at_digits() {
    let input = b":12x\r\n";
    let mut parser = RedisParser::new(&input[..]);
    let err = parser.next().unwrap().unwrap_err();
    assert_eq!(err.kind, DecodeKind::BadInteger);
    assert_eq!(err.offset, 1);
}

#[test]
fn integer_overflow_fails() {
    let input = b":2147483648\r\n";
    let mut parser = RedisParser::new(&input[..]);
    let err = parser.next().unwrap().unwrap_err();
    assert_eq!(err.kind, DecodeKind::BadInteger);
    // the sign is stripped before the digits are parsed, so the digits of
    // the smallest value overflow on their own and are rejected too
    let min = b":-2147483648\r\n";
    let mut parser = RedisParser::new(&min[..]);
    let err = parser.next().unwrap().unwrap_err();
    assert_eq!(err.kind, DecodeKind::BadInteger);
    let max = b":2147483647\r\n";
    let mut parser = RedisParser::new(&max[..]);
    assert_eq!(parser.next().unwrap().unwrap(), Value::Integer(i32::MAX));
}

#[test]
fn non_utf8_payload_fails_at_payload() {
    let input = b"+\xff\xfe\r\n";
    let mut parser = RedisParser::new(&input[..]);
    let err = parser.next().unwrap().unwrap_err();
    assert_eq!(err.kind, DecodeKind::BadUtf8);
    assert_eq!(err.offset, 1);
}

#[test]
fn truncated_array_fails_inside_input() {
    // the header declares two elements but only one follows
    let input = b"*2\r\n:1\r\n";
    let mut parser = RedisParser::new(&input[..]);
    let err = parser.next().unwrap().unwrap_err();
    assert_eq!(err.kind, DecodeKind::EmptyInput);
    assert_eq!(err.offset, input.len());
}

#[test]
fn bad_array_length_fails_at_count() {
    let input = b"*x\r\n";
    let mut parser = RedisParser::new(&input[..]);
    let err = parser.next().unwrap().unwrap_err();
    assert_eq!(err.kind, DecodeKind::BadArrayLength);
    assert_eq!(err.offset, 1);
}

#[test]
fn string_missing_final_linefeed_fails() {
    // the payload's CR is the last byte: no room for the final LF
    let input = b"+hi\r";
    let mut parser = RedisParser::new(&input[..]);
    let err = parser.next().unwrap().unwrap_err();
    assert_eq!(err.kind, DecodeKind::MissingTerminator);
    assert!(err.offset <= input.len());
}
