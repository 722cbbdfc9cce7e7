use exprlang::common::{ParseError, Position};
use exprlang::value::{any_value, identifier, Identifier, Value};

fn pos(line: usize, col: usize) -> Position {
    Position { line, col }
}

#[test]
fn signed_literal_exact() {
    let r = any_value(b"42", 0);
    assert_eq!(r, Ok((Value::Int { pos: pos(1, 1), val: 42 }, 2)));
}

#[test]
fn signed_literal_consumes_surrounding_whitespace() {
    let r = any_value(b"  42  ", 0);
    assert_eq!(r, Ok((Value::Int { pos: pos(1, 3), val: 42 }, 6)));
}

#[test]
fn signed_literal_max() {
    let r = any_value(b"2147483647", 0);
    assert_eq!(r, Ok((Value::Int { pos: pos(1, 1), val: 2147483647 }, 10)));
}

#[test]
fn signed_literal_with_leading_zeros() {
    let r = any_value(b"007", 0);
    assert_eq!(r, Ok((Value::Int { pos: pos(1, 1), val: 7 }, 3)));
}

#[test]
fn unsigned_literal_exact() {
    let r = any_value(b"42u", 0);
    assert_eq!(r, Ok((Value::Uint { pos: pos(1, 1), val: 42 }, 3)));
}

#[test]
fn unsigned_literal_max() {
    let r = any_value(b"4294967295u", 0);
    assert_eq!(r, Ok((Value::Uint { pos: pos(1, 1), val: 4294967295 }, 11)));
}

#[test]
fn plain_digits_are_never_unsigned() {
    let r = any_value(b"42", 0);
    assert!(matches!(r, Ok((Value::Int { .. }, _))));
}

#[test]
fn signed_overflow_reported_not_wrapped() {
    let r = any_value(b"2147483648", 0);
    assert_eq!(
        r,
        Err(ParseError::NumericOverflow { pos: pos(1, 1), literal: b"2147483648".to_vec() })
    );
}

#[test]
fn unsigned_overflow_reported_not_wrapped() {
    let r = any_value(b"4294967296u", 0);
    assert_eq!(
        r,
        Err(ParseError::NumericOverflow { pos: pos(1, 1), literal: b"4294967296".to_vec() })
    );
}

#[test]
fn huge_digit_run_overflows() {
    let r = any_value(b"99999999999999999999999999999", 0);
    assert!(matches!(r, Err(ParseError::NumericOverflow { .. })));
}

#[test]
fn empty_array() {
    let r = any_value(b"[]", 0);
    assert_eq!(r, Ok((Value::Array { pos: pos(1, 1), elems: vec![] }, 2)));
}

#[test]
fn empty_array_with_inner_whitespace() {
    let r = any_value(b"[ ]", 0);
    assert_eq!(r, Ok((Value::Array { pos: pos(1, 1), elems: vec![] }, 3)));
}

#[test]
fn nested_array() {
    let r = any_value(b"[1, 2u, [3]]", 0);
    let expected = Value::Array {
        pos: pos(1, 1),
        elems: vec![
            Value::Int { pos: pos(1, 2), val: 1 },
            Value::Uint { pos: pos(1, 5), val: 2 },
            Value::Array {
                pos: pos(1, 9),
                elems: vec![Value::Int { pos: pos(1, 10), val: 3 }],
            },
        ],
    };
    assert_eq!(r, Ok((expected, 12)));
}

#[test]
fn array_missing_close_fails() {
    let r = any_value(b"[1,", 0);
    assert_eq!(r, Err(ParseError::UnexpectedCharacter { pos: pos(1, 4) }));
}

#[test]
fn array_missing_separator_fails() {
    let r = any_value(b"[1 2]", 0);
    assert_eq!(r, Err(ParseError::UnexpectedCharacter { pos: pos(1, 4) }));
}

#[test]
fn value_rejects_letter() {
    let r = any_value(b"abc", 0);
    assert_eq!(r, Err(ParseError::UnexpectedCharacter { pos: pos(1, 1) }));
}

#[test]
fn value_rejects_end_of_input() {
    let r = any_value(b"", 0);
    assert_eq!(r, Err(ParseError::UnexpectedCharacter { pos: pos(1, 1) }));
}

#[test]
fn identifier_underscore_start() {
    let r = identifier(b"_foo1", 0);
    assert_eq!(r, Ok((Identifier { pos: pos(1, 1), name: b"_foo1".to_vec() }, 5)));
}

#[test]
fn identifier_plain() {
    let r = identifier(b"abc", 0);
    assert_eq!(r, Ok((Identifier { pos: pos(1, 1), name: b"abc".to_vec() }, 3)));
}

#[test]
fn identifier_case_and_digits_preserved() {
    let r = identifier(b"A_1", 0);
    assert_eq!(r, Ok((Identifier { pos: pos(1, 1), name: b"A_1".to_vec() }, 3)));
}

#[test]
fn identifier_rejects_digit_start() {
    let r = identifier(b"1abc", 0);
    assert_eq!(r, Err(ParseError::UnexpectedCharacter { pos: pos(1, 1) }));
}

#[test]
fn identifier_stops_at_non_identifier_byte() {
    let r = identifier(b"foo(bar)", 0);
    assert_eq!(r, Ok((Identifier { pos: pos(1, 1), name: b"foo".to_vec() }, 3)));
}

#[test]
fn whitespace_insensitive_modulo_position() {
    let padded = any_value(b"  42u  ", 0).unwrap();
    let bare = any_value(b"42u", 0).unwrap();
    match (&padded.0, &bare.0) {
        (Value::Uint { pos: p1, val: v1 }, Value::Uint { pos: p2, val: v2 }) => {
            assert_eq!(v1, v2);
            assert_eq!(*p1, pos(1, 3));
            assert_eq!(*p2, pos(1, 1));
        },
        _ => panic!("expected unsigned literals"),
    }
}
