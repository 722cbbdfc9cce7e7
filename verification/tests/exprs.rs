use exprlang::common::{drop_ws, position_at, ParseError, ParserState, Position};
use exprlang::driver::{caret_line, parse_program, Diagnostic};
use exprlang::expr::{expression, Expression};
use exprlang::statement::Statement;
use exprlang::value::{Identifier, Value};

fn pos(line: usize, col: usize) -> Position {
    Position { line, col }
}

#[test]
fn expression_routes_digits_to_value() {
    let r = expression(b"1abc", 0);
    assert_eq!(r, Ok((Expression::Value(Value::Int { pos: pos(1, 1), val: 1 }), 1)));
}

#[test]
fn expression_routes_letters_to_identifier() {
    let r = expression(b"abc", 0);
    assert_eq!(
        r,
        Ok((Expression::Identifier(Identifier { pos: pos(1, 1), name: b"abc".to_vec() }), 3))
    );
}

#[test]
fn expression_reports_value_failure() {
    let r = expression(b"4294967296u", 0);
    assert_eq!(
        r,
        Err(ParseError::NumericOverflow { pos: pos(1, 1), literal: b"4294967296".to_vec() })
    );
}

#[test]
fn expression_rejects_stray_symbol() {
    let r = expression(b"@", 0);
    assert_eq!(r, Err(ParseError::UnexpectedCharacter { pos: pos(1, 1) }));
}

#[test]
fn second_identifier_on_second_line() {
    let r = parse_program(b"abc\ndef").unwrap();
    assert_eq!(r.len(), 2);
    assert_eq!(
        r[1],
        Expression::Identifier(Identifier { pos: pos(2, 1), name: b"def".to_vec() })
    );
}

#[test]
fn end_to_end_sequence() {
    let r = parse_program(b"1u 2u foo [3,4]\n").unwrap();
    let expected = vec![
        Expression::Value(Value::Uint { pos: pos(1, 1), val: 1 }),
        Expression::Value(Value::Uint { pos: pos(1, 4), val: 2 }),
        Expression::Identifier(Identifier { pos: pos(1, 7), name: b"foo".to_vec() }),
        Expression::Value(Value::Array {
            pos: pos(1, 11),
            elems: vec![
                Value::Int { pos: pos(1, 12), val: 3 },
                Value::Int { pos: pos(1, 14), val: 4 },
            ],
        }),
    ];
    assert_eq!(r, expected);
}

#[test]
fn failure_reports_line_column_and_source_line() {
    let d = parse_program(b"1u @bad").unwrap_err();
    assert_eq!(
        d,
        Diagnostic {
            error: ParseError::IncompleteParse { pos: pos(1, 4) },
            found: Some(b'@'),
            line_text: b"1u @bad".to_vec(),
        }
    );
    assert_eq!(caret_line(4), b"   ^".to_vec());
}

#[test]
fn failure_on_later_line_reports_that_line() {
    let d = parse_program(b"ok fine\n1u ?x\n").unwrap_err();
    assert_eq!(d.error, ParseError::IncompleteParse { pos: pos(2, 4) });
    assert_eq!(d.found, Some(b'?'));
    assert_eq!(d.line_text, b"1u ?x".to_vec());
}

#[test]
fn empty_input_is_a_failure() {
    let d = parse_program(b"").unwrap_err();
    assert_eq!(d.error, ParseError::IncompleteParse { pos: pos(1, 1) });
    assert_eq!(d.found, None);
    assert_eq!(d.line_text, b"".to_vec());
}

#[test]
fn whitespace_only_input_is_a_failure_with_placeholder() {
    let d = parse_program(b"  \n ").unwrap_err();
    assert_eq!(d.found, None);
}

#[test]
fn overflow_stops_the_driver_at_the_literal() {
    let d = parse_program(b"1u 2147483648").unwrap_err();
    assert_eq!(d.error, ParseError::IncompleteParse { pos: pos(1, 4) });
    assert_eq!(d.found, Some(b'2'));
    assert_eq!(d.line_text, b"1u 2147483648".to_vec());
}

#[test]
fn caret_line_shape() {
    assert_eq!(caret_line(1), b"^".to_vec());
    assert_eq!(caret_line(3), b"  ^".to_vec());
}

#[test]
fn drop_ws_skips_blanks_tabs_and_newlines() {
    assert_eq!(drop_ws(b" \t\r\nx", 0), 4);
    assert_eq!(drop_ws(b"x", 0), 0);
    assert_eq!(drop_ws(b"  ", 0), 2);
}

#[test]
fn position_at_tracks_lines_and_columns() {
    let s = b"ab\ncd\n\nx";
    assert_eq!(position_at(s, 0), pos(1, 1));
    assert_eq!(position_at(s, 2), pos(1, 3));
    assert_eq!(position_at(s, 3), pos(2, 1));
    assert_eq!(position_at(s, 5), pos(2, 3));
    assert_eq!(position_at(s, 6), pos(3, 1));
    assert_eq!(position_at(s, 7), pos(4, 1));
}

#[test]
fn parser_state_update_walks_the_consumed_span() {
    let s = b"ab\ncd";
    let mut st = ParserState::new();
    assert_eq!((st.pos, st.line, st.col), (0, 1, 1));
    st.update(s, 2);
    assert_eq!((st.pos, st.line, st.col), (2, 1, 3));
    st.update(s, 4);
    assert_eq!((st.pos, st.line, st.col), (4, 2, 2));
}

#[test]
fn statement_carries_destination_and_source() {
    let dest = Identifier { pos: pos(1, 1), name: b"x".to_vec() };
    let (src, _) = expression(b"42", 0).unwrap();
    let st = Statement::Assignment { dest, src };
    match st {
        Statement::Assignment { dest, src } => {
            assert_eq!(dest.name, b"x".to_vec());
            assert!(matches!(src, Expression::Value(Value::Int { val: 42, .. })));
        },
    }
}
