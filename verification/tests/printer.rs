use exprlang::common::Position;
use exprlang::driver::parse_program;
use exprlang::expr::{expression, Expression};
use exprlang::printer::{print_expression, print_value};
use exprlang::value::{Identifier, Value};

fn pos(line: usize, col: usize) -> Position {
    Position { line, col }
}

/// Structural equality with positions disregarded.
fn same_value(a: &Value, b: &Value) -> bool {
    match (a, b) {
        (Value::Int { val: x, .. }, Value::Int { val: y, .. }) => x == y,
        (Value::Uint { val: x, .. }, Value::Uint { val: y, .. }) => x == y,
        (Value::Array { elems: xs, .. }, Value::Array { elems: ys, .. }) => {
            xs.len() == ys.len() && xs.iter().zip(ys.iter()).all(|(x, y)| same_value(x, y))
        },
        _ => false,
    }
}

fn same_expression(a: &Expression, b: &Expression) -> bool {
    match (a, b) {
        (Expression::Value(x), Expression::Value(y)) => same_value(x, y),
        (Expression::Identifier(x), Expression::Identifier(y)) => x.name == y.name,
        _ => false,
    }
}

#[test]
fn print_signed_literal() {
    let mut out = Vec::new();
    print_value(&Value::Int { pos: pos(1, 1), val: 1234 }, &mut out);
    assert_eq!(out, b"1234".to_vec());
}

#[test]
fn print_zero() {
    let mut out = Vec::new();
    print_value(&Value::Int { pos: pos(1, 1), val: 0 }, &mut out);
    assert_eq!(out, b"0".to_vec());
}

#[test]
fn print_unsigned_literal() {
    let mut out = Vec::new();
    print_value(&Value::Uint { pos: pos(1, 1), val: 4294967295 }, &mut out);
    assert_eq!(out, b"4294967295u".to_vec());
}

#[test]
fn print_nested_array() {
    let v = Value::Array {
        pos: pos(1, 1),
        elems: vec![
            Value::Int { pos: pos(1, 2), val: 1 },
            Value::Uint { pos: pos(1, 5), val: 2 },
            Value::Array {
                pos: pos(1, 9),
                elems: vec![Value::Int { pos: pos(1, 10), val: 3 }],
            },
        ],
    };
    let mut out = Vec::new();
    print_value(&v, &mut out);
    assert_eq!(out, b"[1,2u,[3]]".to_vec());
}

#[test]
fn print_empty_array() {
    let mut out = Vec::new();
    print_value(&Value::Array { pos: pos(1, 1), elems: vec![] }, &mut out);
    assert_eq!(out, b"[]".to_vec());
}

#[test]
fn print_identifier() {
    let e = Expression::Identifier(Identifier { pos: pos(1, 1), name: b"A_1".to_vec() });
    assert_eq!(print_expression(&e), b"A_1".to_vec());
}

#[test]
fn round_trip_of_parsed_value() {
    let (e, _) = expression(b"  [1, 2u, [3, []]]  ", 0).unwrap();
    let printed = print_expression(&e);
    let (e2, n) = expression(&printed, 0).unwrap();
    assert_eq!(n, printed.len());
    assert!(same_expression(&e, &e2));
}

#[test]
fn round_trip_of_parsed_identifier() {
    let (e, _) = expression(b"_foo1 ", 0).unwrap();
    let printed = print_expression(&e);
    assert_eq!(printed, b"_foo1".to_vec());
    let (e2, n) = expression(&printed, 0).unwrap();
    assert_eq!(n, printed.len());
    assert!(same_expression(&e, &e2));
}

#[test]
fn round_trip_of_every_parsed_program_expression() {
    let es = parse_program(b"1u 2u foo [3,4]\n").unwrap();
    for e in &es {
        let printed = print_expression(e);
        let (e2, n) = expression(&printed, 0).unwrap();
        assert_eq!(n, printed.len());
        assert!(same_expression(e, &e2));
    }
}
