//! Expressions: a literal value or a reference to an identifier.

use vstd::prelude::*;
use crate::common::{
    ParseError, ParseErrorV, err_sim, is_digit, is_ident_start, is_ws, ws_end, ident_end,
    lemma_ws_end_bounds, lemma_ws_end_pass, lemma_ws_end_shift, lemma_ws_end_extend,
    lemma_ident_end_bounds, lemma_ident_end_shift, lemma_ident_end_extend, lemma_pos_at_prefix,
};
use crate::value::{
    Value, ValueV, Identifier, IdentifierV, any_value, identifier, spec_value, spec_identifier,
    vsim, lemma_value_shift, lemma_value_extend, lemma_value_ws_insensitive,
    lemma_identifier_ws_insensitive,
};

verus! {

/// An expression is either a literal value or a reference to an identifier.
#[derive(Debug, PartialEq, Eq)]
pub enum Expression {
    Value(Value),
    Identifier(Identifier),
}

/// Mathematical model of an [`Expression`].
pub ghost enum ExpressionV {
    Value(ValueV),
    Identifier(IdentifierV),
}

impl View for Expression {
    type V = ExpressionV;

    open spec fn view(&self) -> ExpressionV {
        match self {
            Expression::Value(v) => ExpressionV::Value(v@),
            Expression::Identifier(id) => ExpressionV::Identifier(id@),
        }
    }
}

/// Structural equality of expressions with positions disregarded.
pub open spec fn esim(a: ExpressionV, b: ExpressionV) -> bool {
    match (a, b) {
        (ExpressionV::Value(x), ExpressionV::Value(y)) => vsim(x, y),
        (ExpressionV::Identifier(x), ExpressionV::Identifier(y)) => x.name == y.name,
        _ => false,
    }
}

/// Model of an expression parse: a value if one starts here, otherwise an
/// identifier. When both alternatives fail, the value alternative's failure
/// is reported: it is the one that reached deepest into the input (the two
/// alternatives are disjoint on their first character, so an identifier can
/// only fail at the very first non-whitespace byte).
pub open spec fn spec_expression(s: Seq<u8>, i: int) -> Result<(ExpressionV, int), ParseErrorV> {
    match spec_value(s, i) {
        Ok((v, k)) => Ok((ExpressionV::Value(v), k)),
        Err(e) => match spec_identifier(s, i) {
            Ok((id, k)) => Ok((ExpressionV::Identifier(id), k)),
            Err(_) => Err(e),
        },
    }
}

/// Law: a digit after leading whitespace always routes an expression parse
/// to the numeric value alternative — the outcome, success or failure, is the
/// value parser's, and a successful parse is never an identifier.
pub proof fn lemma_digit_starts_value(s: Seq<u8>, i: int)
    requires
        0 <= i <= s.len(),
        ({
            let j = ws_end(s, i);
            j < s.len() && is_digit(s[j])
        }),
    ensures
        spec_value(s, i) matches Ok(p) ==> spec_expression(s, i) == Ok::<
            (ExpressionV, int),
            ParseErrorV,
        >((ExpressionV::Value(p.0), p.1)),
        spec_value(s, i) matches Err(e) ==> spec_expression(s, i) == Err::<
            (ExpressionV, int),
            ParseErrorV,
        >(e),
        spec_expression(s, i) matches Ok(p) ==> p.0 is Value,
{
    lemma_ws_end_bounds(s, i);
}

/// Law: parsing an expression is insensitive to leading whitespace —
/// starting at `i` and starting directly at the first non-whitespace byte
/// after `i` give the same result, position included.
pub proof fn lemma_expression_ws_insensitive(s: Seq<u8>, i: int)
    requires
        0 <= i <= s.len(),
    ensures
        spec_expression(s, ws_end(s, i)) == spec_expression(s, i),
{
    crate::value::lemma_value_ws_insensitive(s, i);
    crate::value::lemma_identifier_ws_insensitive(s, i);
}

/// As [`lemma_value_shift`], for an identifier parse: a prefix shifts the
/// parse by its length, changing nothing but positions.
pub proof fn lemma_identifier_shift(w: Seq<u8>, s: Seq<u8>, i: int)
    requires
        0 <= i <= s.len(),
    ensures
        ({
            let d = w.len() as int;
            match (spec_identifier(s, i), spec_identifier(w + s, d + i)) {
                (Ok(p), Ok(q)) => q.0.name == p.0.name && q.1 == d + p.1,
                (Err(e), Err(f)) => err_sim(f, e),
                _ => false,
            }
        }),
{
    let t = w + s;
    let d = w.len() as int;
    lemma_ws_end_bounds(s, i);
    lemma_ws_end_shift(w, s, i);
    let j = ws_end(s, i);
    assert(forall|k: int| 0 <= k < s.len() ==> t[d + k] == #[trigger] s[k]);
    if j < s.len() && is_ident_start(s[j]) {
        lemma_ident_end_bounds(s, j);
        lemma_ident_end_shift(w, s, j);
        let k = ident_end(s, j);
        assert(t.subrange(d + j, d + k) =~= s.subrange(j, k));
        lemma_ws_end_shift(w, s, k);
    }
}

/// Law: an expression parse is insensitive to whitespace padding across
/// inputs — prepending whitespace yields a structurally equal expression
/// (positions aside) with the cursor moved past the padding, and a failure
/// stays the same failure. Trailing whitespace is consumed by the parse
/// itself.
pub proof fn lemma_expression_padding_insensitive(w: Seq<u8>, s: Seq<u8>)
    requires
        forall|k: int| 0 <= k < w.len() ==> is_ws(#[trigger] w[k]),
    ensures
        ({
            match (spec_expression(s, 0), spec_expression(w + s, 0)) {
                (Ok(p), Ok(q)) => esim(q.0, p.0) && q.1 == w.len() + p.1,
                (Err(e), Err(f)) => err_sim(f, e),
                _ => false,
            }
        }),
{
    let t = w + s;
    lemma_value_shift(w, s, 0);
    lemma_identifier_shift(w, s, 0);
    assert forall|k: int| 0 <= k < w.len() implies is_ws(#[trigger] t[k]) by {
        assert(t[k] == w[k]);
    }
    lemma_ws_end_pass(t, 0, w.len() as int);
    lemma_value_ws_insensitive(t, 0);
    lemma_value_ws_insensitive(t, w.len() as int);
    lemma_identifier_ws_insensitive(t, 0);
    lemma_identifier_ws_insensitive(t, w.len() as int);
}

/// As [`lemma_value_extend`], for an identifier parse: appending whitespace
/// changes nothing but the final cursor.
pub proof fn lemma_identifier_extend(s: Seq<u8>, w: Seq<u8>, i: int)
    requires
        0 <= i <= s.len(),
        forall|k: int| 0 <= k < w.len() ==> is_ws(#[trigger] w[k]),
    ensures
        ({
            match (spec_identifier(s, i), spec_identifier(s + w, i)) {
                (Ok(p), Ok(q)) => q.0 == p.0 && q.1 == (if p.1 < s.len() {
                    p.1
                } else {
                    s.len() + w.len() as int
                }),
                (Err(e), Err(f)) => err_sim(f, e),
                _ => false,
            }
        }),
{
    let t = s + w;
    lemma_ws_end_bounds(s, i);
    lemma_ws_end_extend(s, w, i);
    let j = ws_end(s, i);
    if j < s.len() {
        assert(t[j] == s[j]);
        lemma_pos_at_prefix(s, w, j);
        if is_ident_start(s[j]) {
            lemma_ident_end_bounds(s, j);
            lemma_ident_end_extend(s, w, j);
            let k = ident_end(s, j);
            assert(t.subrange(j, k) =~= s.subrange(j, k));
            lemma_ws_end_extend(s, w, k);
        }
    }
}

/// Law: whitespace insensitivity across inputs — surrounding the input with
/// whitespace on both sides yields a structurally equal expression (positions
/// aside), and a failure stays the same failure.
pub proof fn lemma_expression_whitespace_insensitive(w1: Seq<u8>, s: Seq<u8>, w2: Seq<u8>)
    requires
        forall|k: int| 0 <= k < w1.len() ==> is_ws(#[trigger] w1[k]),
        forall|k: int| 0 <= k < w2.len() ==> is_ws(#[trigger] w2[k]),
    ensures
        ({
            match (spec_expression(s, 0), spec_expression(w1 + s + w2, 0)) {
                (Ok(p), Ok(q)) => esim(q.0, p.0),
                (Err(e), Err(f)) => err_sim(f, e),
                _ => false,
            }
        }),
{
    lemma_value_extend(s, w2, 0);
    lemma_identifier_extend(s, w2, 0);
    lemma_expression_padding_insensitive(w1, s + w2);
    assert(w1 + (s + w2) =~= w1 + s + w2);
}

/// Parses an expression at index `i` of `s`: first a value, then an
/// identifier; see [`spec_expression`].
pub fn expression(s: &[u8], i: usize) -> (r: Result<(Expression, usize), ParseError>)
    requires
        i <= s@.len(),
        s@.len() < usize::MAX,
    ensures
        match r {
            Ok((e, n)) => spec_expression(s@, i as int) == Ok::<(ExpressionV, int), ParseErrorV>(
                (e@, n as int),
            ) && i < n <= s@.len(),
            Err(e) => spec_expression(s@, i as int) == Err::<(ExpressionV, int), ParseErrorV>(e@),
        },
{
    match any_value(s, i) {
        Ok((v, n)) => Ok((Expression::Value(v), n)),
        Err(e) => match identifier(s, i) {
            Ok((id, n)) => Ok((Expression::Identifier(id), n)),
            Err(_) => Err(e),
        },
    }
}

} // verus!
