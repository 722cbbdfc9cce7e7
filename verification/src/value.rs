//! Literal values and identifiers, their mathematical models, and the
//! parsers that recognize them.

use vstd::prelude::*;
use crate::common::{
    Position, ParseError, ParseErrorV, err_sim, is_digit, is_ident_start, is_ws, ws_end,
    ident_end, digits_end, pos_at, drop_ws, position_at, lemma_ws_end_bounds,
    lemma_ws_end_idempotent, lemma_ws_end_pass, lemma_ws_end_shift, lemma_ws_end_extend,
    lemma_ident_end_bounds, lemma_digits_end_bounds, lemma_digits_end_shift,
    lemma_digits_end_extend, lemma_pos_at_prefix,
};

verus! {

/// A name appearing in the source, with the position of its first character.
#[derive(Debug, Clone, PartialEq, Eq)]
pub struct Identifier {
    pub pos: Position,
    pub name: Vec<u8>,
}

/// A literal value: a signed integer, an explicitly `u`-suffixed unsigned
/// integer, or a bracketed, comma-separated array of values.
#[derive(Debug, PartialEq, Eq)]
pub enum Value {
    Int { pos: Position, val: i32 },
    Uint { pos: Position, val: u32 },
    Array { pos: Position, elems: Vec<Value> },
}

/// Mathematical model of an [`Identifier`]: its name as a byte sequence.
pub ghost struct IdentifierV {
    pub pos: Position,
    pub name: Seq<u8>,
}

/// Mathematical model of a [`Value`].
pub ghost enum ValueV {
    Int { pos: Position, val: i32 },
    Uint { pos: Position, val: u32 },
    Array { pos: Position, elems: Seq<ValueV> },
}

impl View for Identifier {
    type V = IdentifierV;

    open spec fn view(&self) -> IdentifierV {
        IdentifierV { pos: self.pos, name: self.name@ }
    }
}

impl Value {
    pub open spec fn view_seq(elems: Seq<Value>) -> Seq<ValueV>
        decreases elems,
    {
        if elems.len() == 0 {
            Seq::empty()
        } else {
            Self::view_seq(elems.drop_last()).push(elems.last()@)
        }
    }
}

impl View for Value {
    type V = ValueV;

    open spec fn view(&self) -> ValueV
        decreases self,
    {
        match self {
            Value::Int { pos, val } => ValueV::Int { pos: *pos, val: *val },
            Value::Uint { pos, val } => ValueV::Uint { pos: *pos, val: *val },
            Value::Array { pos, elems } => ValueV::Array { pos: *pos, elems: Value::view_seq(elems@) },
        }
    }
}

pub proof fn lemma_view_seq_push(elems: Seq<Value>, v: Value)
    ensures
        Value::view_seq(elems.push(v)) == Value::view_seq(elems).push(v@),
{
    assert(elems.push(v).drop_last() =~= elems);
    assert(elems.push(v).last() == v);
}

pub proof fn lemma_view_seq_index(elems: Seq<Value>)
    ensures
        Value::view_seq(elems).len() == elems.len(),
        forall|k: int| 0 <= k < elems.len() ==> Value::view_seq(elems)[k] == #[trigger] elems[k]@,
    decreases elems,
{
    if elems.len() > 0 {
        lemma_view_seq_index(elems.drop_last());
        assert(Value::view_seq(elems) == Value::view_seq(elems.drop_last()).push(
            elems.last()@,
        ));
        assert forall|k: int| 0 <= k < elems.len() implies Value::view_seq(elems)[k]
            == #[trigger] elems[k]@ by {
            if k < elems.len() - 1 {
                let vv = Value::view_seq(elems.drop_last());
                assert(elems.drop_last()[k] == elems[k]);
                assert(Value::view_seq(elems) == vv.push(elems.last()@));
                assert(vv.push(elems.last()@)[k] == vv[k]);
            }
        }
    }
}

/// Structural equality of values with positions disregarded: positions are
/// diagnostic metadata, not part of a value's identity.
pub open spec fn vsim(a: ValueV, b: ValueV) -> bool
    decreases a,
{
    match (a, b) {
        (ValueV::Int { val: x, .. }, ValueV::Int { val: y, .. }) => x == y,
        (ValueV::Uint { val: x, .. }, ValueV::Uint { val: y, .. }) => x == y,
        (ValueV::Array { elems: xs, .. }, ValueV::Array { elems: ys, .. }) => xs.len() == ys.len()
            && forall|k: int| 0 <= k < xs.len() ==> vsim(#[trigger] xs[k], ys[k]),
        _ => false,
    }
}

/// The numeric value of a run of decimal digit characters.
pub open spec fn digits_val(s: Seq<u8>) -> int
    decreases s.len(),
{
    if s.len() == 0 {
        0
    } else {
        10 * digits_val(s.drop_last()) + (s.last() - 48)
    }
}

pub proof fn lemma_digits_val_nonneg(s: Seq<u8>)
    requires
        forall|k: int| 0 <= k < s.len() ==> is_digit(#[trigger] s[k]),
    ensures
        digits_val(s) >= 0,
    decreases s.len(),
{
    if s.len() > 0 {
        lemma_digits_val_nonneg(s.drop_last());
    }
}

/// Model of a numeric literal parse at index `j`, the first digit: the
/// maximal digit run, a `u` suffix selecting the unsigned reading, a failure
/// where the run does not fit the selected width, and trailing whitespace
/// consumed after the token.
pub open spec fn spec_number(s: Seq<u8>, j: int) -> Result<(ValueV, int), ParseErrorV> {
    let k = digits_end(s, j);
    let lit = s.subrange(j, k);
    let v = digits_val(lit);
    if 0 <= k < s.len() && s[k] == 117 {
        if v <= u32::MAX {
            Ok((ValueV::Uint { pos: pos_at(s, j), val: v as u32 }, ws_end(s, k + 1)))
        } else {
            Err(ParseErrorV::NumericOverflow { pos: pos_at(s, j), literal: lit })
        }
    } else {
        if v <= i32::MAX {
            Ok((ValueV::Int { pos: pos_at(s, j), val: v as i32 }, ws_end(s, k)))
        } else {
            Err(ParseErrorV::NumericOverflow { pos: pos_at(s, j), literal: lit })
        }
    }
}

/// Model of an identifier parse: after leading whitespace the input must hold
/// a letter or underscore; the name is the maximal run of letters, digits and
/// underscores from there, and trailing whitespace is consumed.
pub open spec fn spec_identifier(s: Seq<u8>, i: int) -> Result<(IdentifierV, int), ParseErrorV> {
    let j = ws_end(s, i);
    if 0 <= j < s.len() && is_ident_start(s[j]) {
        let k = ident_end(s, j);
        Ok((IdentifierV { pos: pos_at(s, j), name: s.subrange(j, k) }, ws_end(s, k)))
    } else {
        Err(ParseErrorV::UnexpectedCharacter { pos: pos_at(s, j) })
    }
}

/// Model of a value parse at index `i`: after leading whitespace, a `[`
/// starts an array, a digit starts a numeric literal, and anything else
/// (including the end of the input) is rejected. Trailing whitespace is
/// consumed after the value.
pub open spec fn spec_value(s: Seq<u8>, i: int) -> Result<(ValueV, int), ParseErrorV>
    decreases s.len() - i, 1int,
{
    let j = ws_end(s, i);
    if j < i || j >= s.len() {
        Err(ParseErrorV::UnexpectedCharacter { pos: pos_at(s, j) })
    } else if s[j] == 91 {
        let m = ws_end(s, j + 1);
        if m < s.len() && s[m] == 93 {
            Ok((ValueV::Array { pos: pos_at(s, j), elems: Seq::empty() }, ws_end(s, m + 1)))
        } else {
            match spec_elems(s, j + 1) {
                Ok((vs, n)) => Ok((ValueV::Array { pos: pos_at(s, j), elems: vs }, n)),
                Err(e) => Err(e),
            }
        }
    } else if is_digit(s[j]) {
        spec_number(s, j)
    } else {
        Err(ParseErrorV::UnexpectedCharacter { pos: pos_at(s, j) })
    }
}

/// Model of a non-empty, comma-separated run of values followed by the
/// closing `]` of an array (the bracket and its trailing whitespace are
/// consumed as well).
pub open spec fn spec_elems(s: Seq<u8>, cur: int) -> Result<(Seq<ValueV>, int), ParseErrorV>
    decreases s.len() - cur, 2int,
{
    match spec_value(s, cur) {
        Ok((v, k)) => {
            if k <= cur || k > s.len() {
                Err(ParseErrorV::UnexpectedCharacter { pos: pos_at(s, k) })
            } else if k < s.len() && s[k] == 44 {
                match spec_elems(s, k + 1) {
                    Ok((vs, n)) => Ok((seq![v] + vs, n)),
                    Err(e) => Err(e),
                }
            } else if k < s.len() && s[k] == 93 {
                Ok((seq![v], ws_end(s, k + 1)))
            } else {
                Err(ParseErrorV::UnexpectedCharacter { pos: pos_at(s, k) })
            }
        },
        Err(e) => Err(e),
    }
}

/// A successful value parse consumes at least one byte beyond `i`, never
/// passes the end, and leaves the cursor on a non-whitespace byte.
pub proof fn lemma_spec_value_progress(s: Seq<u8>, i: int)
    requires
        0 <= i <= s.len(),
    ensures
        spec_value(s, i) matches Ok(p) ==> i < p.1 <= s.len() && ws_end(s, p.1) == p.1,
    decreases s.len() - i, 1int,
{
    lemma_ws_end_bounds(s, i);
    let j = ws_end(s, i);
    if i <= j && j < s.len() {
        if s[j] == 91 {
            lemma_ws_end_bounds(s, j + 1);
            let m = ws_end(s, j + 1);
            if m < s.len() && s[m] == 93 {
                lemma_ws_end_bounds(s, m + 1);
                lemma_ws_end_idempotent(s, m + 1);
            } else {
                lemma_spec_elems_progress(s, j + 1);
            }
        } else if is_digit(s[j]) {
            let k = digits_end(s, j);
            lemma_digits_end_bounds(s, j);
            if 0 <= k < s.len() && s[k] == 117 {
                lemma_ws_end_bounds(s, k + 1);
                lemma_ws_end_idempotent(s, k + 1);
            } else {
                lemma_ws_end_bounds(s, k);
                lemma_ws_end_idempotent(s, k);
            }
        }
    }
}

/// As [`lemma_spec_value_progress`], for an element run: on success the
/// cursor moves strictly forward and ends past the closing bracket, on a
/// non-whitespace byte.
pub proof fn lemma_spec_elems_progress(s: Seq<u8>, cur: int)
    requires
        0 <= cur <= s.len(),
    ensures
        spec_elems(s, cur) matches Ok(p) ==> cur < p.1 <= s.len() && ws_end(s, p.1) == p.1,
    decreases s.len() - cur, 2int,
{
    lemma_spec_value_progress(s, cur);
    if let Ok((v, k)) = spec_value(s, cur) {
        if cur < k <= s.len() {
            if k < s.len() && s[k] == 44 {
                lemma_spec_elems_progress(s, k + 1);
            } else if k < s.len() && s[k] == 93 {
                lemma_ws_end_bounds(s, k + 1);
                lemma_ws_end_idempotent(s, k + 1);
            }
        }
    }
}

/// Law: a digit run not followed by `u`, whose value fits the 32-bit signed
/// range, parses as a signed literal holding exactly that value, consuming
/// the digit run and the whitespace around it.
pub proof fn lemma_signed_literal(s: Seq<u8>, i: int)
    requires
        0 <= i <= s.len(),
        ({
            let j = ws_end(s, i);
            j < s.len() && is_digit(s[j])
        }),
        ({
            let k = digits_end(s, ws_end(s, i));
            !(k < s.len() && s[k] == 117)
        }),
        digits_val(s.subrange(ws_end(s, i), digits_end(s, ws_end(s, i)))) <= i32::MAX,
    ensures
        ({
            let j = ws_end(s, i);
            let k = digits_end(s, j);
            spec_value(s, i) == Ok::<(ValueV, int), ParseErrorV>(
                (
                    ValueV::Int {
                        pos: pos_at(s, j),
                        val: digits_val(s.subrange(j, k)) as i32,
                    },
                    ws_end(s, k),
                ),
            )
        }),
{
    lemma_ws_end_bounds(s, i);
    lemma_digits_end_bounds(s, ws_end(s, i));
}

/// Law: a digit run immediately followed by `u`, whose value fits the 32-bit
/// unsigned range, parses as an unsigned literal holding exactly that value,
/// consuming the run, the suffix, and the whitespace around them.
pub proof fn lemma_unsigned_literal(s: Seq<u8>, i: int)
    requires
        0 <= i <= s.len(),
        ({
            let j = ws_end(s, i);
            j < s.len() && is_digit(s[j])
        }),
        ({
            let k = digits_end(s, ws_end(s, i));
            k < s.len() && s[k] == 117
        }),
        digits_val(s.subrange(ws_end(s, i), digits_end(s, ws_end(s, i)))) <= u32::MAX,
    ensures
        ({
            let j = ws_end(s, i);
            let k = digits_end(s, j);
            spec_value(s, i) == Ok::<(ValueV, int), ParseErrorV>(
                (
                    ValueV::Uint {
                        pos: pos_at(s, j),
                        val: digits_val(s.subrange(j, k)) as u32,
                    },
                    ws_end(s, k + 1),
                ),
            )
        }),
{
    lemma_ws_end_bounds(s, i);
    lemma_digits_end_bounds(s, ws_end(s, i));
}

/// Law: without the `u` suffix a digit run is never read as an unsigned
/// literal — when it parses at all, it parses as a signed literal.
pub proof fn lemma_no_suffix_never_unsigned(s: Seq<u8>, i: int)
    requires
        0 <= i <= s.len(),
        ({
            let j = ws_end(s, i);
            j < s.len() && is_digit(s[j])
        }),
        ({
            let k = digits_end(s, ws_end(s, i));
            !(k < s.len() && s[k] == 117)
        }),
    ensures
        spec_value(s, i) matches Ok(p) ==> p.0 is Int,
{
    lemma_ws_end_bounds(s, i);
    lemma_digits_end_bounds(s, ws_end(s, i));
}

/// Law: a digit run whose value exceeds the width selected by its suffix
/// (unsigned with `u`, signed without) fails with `NumericOverflow` carrying
/// the run itself — it never wraps into a successful parse.
pub proof fn lemma_numeric_overflow(s: Seq<u8>, i: int)
    requires
        0 <= i <= s.len(),
        ({
            let j = ws_end(s, i);
            j < s.len() && is_digit(s[j])
        }),
        ({
            let j = ws_end(s, i);
            let k = digits_end(s, j);
            let v = digits_val(s.subrange(j, k));
            if k < s.len() && s[k] == 117 {
                v > u32::MAX
            } else {
                v > i32::MAX
            }
        }),
    ensures
        ({
            let j = ws_end(s, i);
            let k = digits_end(s, j);
            spec_value(s, i) == Err::<(ValueV, int), ParseErrorV>(
                ParseErrorV::NumericOverflow { pos: pos_at(s, j), literal: s.subrange(j, k) },
            )
        }),
{
    lemma_ws_end_bounds(s, i);
    lemma_digits_end_bounds(s, ws_end(s, i));
}

/// Law: after leading whitespace, a letter or underscore always starts a
/// successful identifier parse, whose name is exactly the matched run of
/// letters, digits and underscores, case preserved, and whose position is
/// that of its first character.
pub proof fn lemma_identifier_exact(s: Seq<u8>, i: int)
    requires
        0 <= i <= s.len(),
        ({
            let j = ws_end(s, i);
            j < s.len() && is_ident_start(s[j])
        }),
    ensures
        ({
            let j = ws_end(s, i);
            let k = ident_end(s, j);
            spec_identifier(s, i) == Ok::<(IdentifierV, int), ParseErrorV>(
                (IdentifierV { pos: pos_at(s, j), name: s.subrange(j, k) }, ws_end(s, k)),
            )
        }),
{
    lemma_ws_end_bounds(s, i);
}

/// Law: parsing a value is insensitive to leading whitespace — starting at
/// `i` and starting directly at the first non-whitespace byte after `i` give
/// the same result, position included.
pub proof fn lemma_value_ws_insensitive(s: Seq<u8>, i: int)
    requires
        0 <= i <= s.len(),
    ensures
        spec_value(s, ws_end(s, i)) == spec_value(s, i),
{
    lemma_ws_end_bounds(s, i);
    lemma_ws_end_idempotent(s, i);
}

/// Law: parsing an identifier is insensitive to leading whitespace.
pub proof fn lemma_identifier_ws_insensitive(s: Seq<u8>, i: int)
    requires
        0 <= i <= s.len(),
    ensures
        spec_identifier(s, ws_end(s, i)) == spec_identifier(s, i),
{
    lemma_ws_end_bounds(s, i);
    lemma_ws_end_idempotent(s, i);
}

/// Prepending a prefix to the input shifts a value parse by the prefix's
/// length: the same value comes out (positions aside), with the cursor moved
/// by the length, and a failure stays the same failure.
pub proof fn lemma_value_shift(w: Seq<u8>, s: Seq<u8>, i: int)
    requires
        0 <= i <= s.len(),
    ensures
        ({
            let d = w.len() as int;
            match (spec_value(s, i), spec_value(w + s, d + i)) {
                (Ok(p), Ok(q)) => vsim(q.0, p.0) && q.1 == d + p.1,
                (Err(e), Err(f)) => err_sim(f, e),
                _ => false,
            }
        }),
    decreases s.len() - i, 1int,
{
    let t = w + s;
    let d = w.len() as int;
    lemma_ws_end_bounds(s, i);
    lemma_ws_end_shift(w, s, i);
    let j = ws_end(s, i);
    assert(forall|k: int| 0 <= k < s.len() ==> t[d + k] == #[trigger] s[k]);
    if j < s.len() {
        if s[j] == 91 {
            lemma_ws_end_bounds(s, j + 1);
            lemma_ws_end_shift(w, s, j + 1);
            let m = ws_end(s, j + 1);
            if m < s.len() && s[m] == 93 {
                lemma_ws_end_shift(w, s, m + 1);
            } else {
                lemma_elems_shift(w, s, j + 1);
            }
        } else if is_digit(s[j]) {
            lemma_digits_end_bounds(s, j);
            lemma_digits_end_shift(w, s, j);
            let k = digits_end(s, j);
            assert(t.subrange(d + j, d + k) =~= s.subrange(j, k));
            if k < s.len() && s[k] == 117 {
                lemma_ws_end_shift(w, s, k + 1);
            } else {
                lemma_ws_end_shift(w, s, k);
            }
        }
    }
}

/// As [`lemma_value_shift`], for an element run.
pub proof fn lemma_elems_shift(w: Seq<u8>, s: Seq<u8>, cur: int)
    requires
        0 <= cur <= s.len(),
    ensures
        ({
            let d = w.len() as int;
            match (spec_elems(s, cur), spec_elems(w + s, d + cur)) {
                (Ok(p), Ok(q)) => p.0.len() == q.0.len() && (forall|k: int|
                    0 <= k < p.0.len() ==> vsim(#[trigger] q.0[k], p.0[k])) && q.1 == d + p.1,
                (Err(e), Err(f)) => err_sim(f, e),
                _ => false,
            }
        }),
    decreases s.len() - cur, 2int,
{
    let t = w + s;
    let d = w.len() as int;
    lemma_value_shift(w, s, cur);
    lemma_spec_value_progress(s, cur);
    assert(forall|k: int| 0 <= k < s.len() ==> t[d + k] == #[trigger] s[k]);
    if let Ok((v, k)) = spec_value(s, cur) {
        if let Ok((v2, k2)) = spec_value(t, d + cur) {
            if cur < k <= s.len() {
                if k < s.len() && s[k] == 44 {
                    lemma_elems_shift(w, s, k + 1);
                    if let Ok((vs, n)) = spec_elems(s, k + 1) {
                        if let Ok((vs2, n2)) = spec_elems(t, d + k + 1) {
                            let whole = seq![v] + vs;
                            let whole2 = seq![v2] + vs2;
                            assert forall|x: int| 0 <= x < whole.len() implies vsim(
                                #[trigger] whole2[x],
                                whole[x],
                            ) by {
                                if x == 0 {
                                    assert(whole[0] == v && whole2[0] == v2);
                                } else {
                                    assert(whole[x] == vs[x - 1] && whole2[x] == vs2[x - 1]);
                                }
                            }
                        }
                    }
                } else if k < s.len() && s[k] == 93 {
                    lemma_ws_end_shift(w, s, k + 1);
                    assert(seq![v][0] == v && seq![v2][0] == v2);
                }
            }
        }
    }
}

/// Appending whitespace to the input changes nothing about a value parse but
/// the final cursor, which then consumes the appended whitespace as well
/// whenever the parse had already reached the end of the original input.
pub proof fn lemma_value_extend(s: Seq<u8>, w: Seq<u8>, i: int)
    requires
        0 <= i <= s.len(),
        forall|k: int| 0 <= k < w.len() ==> is_ws(#[trigger] w[k]),
    ensures
        ({
            match (spec_value(s, i), spec_value(s + w, i)) {
                (Ok(p), Ok(q)) => q.0 == p.0 && q.1 == (if p.1 < s.len() {
                    p.1
                } else {
                    s.len() + w.len() as int
                }),
                (Err(e), Err(f)) => err_sim(f, e),
                _ => false,
            }
        }),
    decreases s.len() - i, 1int,
{
    let t = s + w;
    lemma_ws_end_bounds(s, i);
    lemma_ws_end_extend(s, w, i);
    let j = ws_end(s, i);
    if j < s.len() {
        assert(t[j] == s[j]);
        lemma_pos_at_prefix(s, w, j);
        if s[j] == 91 {
            lemma_ws_end_bounds(s, j + 1);
            lemma_ws_end_extend(s, w, j + 1);
            let m = ws_end(s, j + 1);
            if m < s.len() && s[m] == 93 {
                assert(t[m] == s[m]);
                lemma_ws_end_extend(s, w, m + 1);
            } else {
                if m < s.len() {
                    assert(t[m] == s[m]);
                }
                lemma_elems_extend(s, w, j + 1);
            }
        } else if is_digit(s[j]) {
            lemma_digits_end_bounds(s, j);
            lemma_digits_end_extend(s, w, j);
            let k = digits_end(s, j);
            assert(t.subrange(j, k) =~= s.subrange(j, k));
            if k < s.len() {
                assert(t[k] == s[k]);
            } else if k < t.len() {
                assert(t[k] == w[k - s.len()]);
            }
            if k < s.len() && s[k] == 117 {
                lemma_ws_end_extend(s, w, k + 1);
            } else {
                lemma_ws_end_extend(s, w, k);
            }
        }
    }
}

/// As [`lemma_value_extend`], for an element run.
pub proof fn lemma_elems_extend(s: Seq<u8>, w: Seq<u8>, cur: int)
    requires
        0 <= cur <= s.len(),
        forall|k: int| 0 <= k < w.len() ==> is_ws(#[trigger] w[k]),
    ensures
        ({
            match (spec_elems(s, cur), spec_elems(s + w, cur)) {
                (Ok(p), Ok(q)) => q.0 == p.0 && q.1 == (if p.1 < s.len() {
                    p.1
                } else {
                    s.len() + w.len() as int
                }),
                (Err(e), Err(f)) => err_sim(f, e),
                _ => false,
            }
        }),
    decreases s.len() - cur, 2int,
{
    let t = s + w;
    lemma_value_extend(s, w, cur);
    lemma_spec_value_progress(s, cur);
    if let Ok((v, k)) = spec_value(s, cur) {
        if cur < k <= s.len() {
            if k < s.len() {
                assert(t[k] == s[k]);
            }
            if k < s.len() && s[k] == 44 {
                lemma_elems_extend(s, w, k + 1);
            } else if k < s.len() && s[k] == 93 {
                lemma_ws_end_extend(s, w, k + 1);
            }
        }
    }
}

/// Law: whitespace insensitivity across inputs — surrounding the input with
/// whitespace on both sides yields the same value modulo position, and a
/// failure stays the same failure.
pub proof fn lemma_value_whitespace_insensitive(w1: Seq<u8>, s: Seq<u8>, w2: Seq<u8>)
    requires
        forall|k: int| 0 <= k < w1.len() ==> is_ws(#[trigger] w1[k]),
        forall|k: int| 0 <= k < w2.len() ==> is_ws(#[trigger] w2[k]),
    ensures
        ({
            match (spec_value(s, 0), spec_value(w1 + s + w2, 0)) {
                (Ok(p), Ok(q)) => vsim(q.0, p.0),
                (Err(e), Err(f)) => err_sim(f, e),
                _ => false,
            }
        }),
{
    lemma_value_extend(s, w2, 0);
    lemma_value_padding_insensitive(w1, s + w2);
    assert(w1 + (s + w2) =~= w1 + s + w2);
}

/// Law: parsing is insensitive to whitespace padding across inputs —
/// prepending whitespace to the input yields the same value (positions
/// aside) with the cursor moved past the padding, and a failure stays the
/// same failure. Trailing whitespace is consumed by the parse itself, so the
/// padded and bare inputs agree on everything but positions.
pub proof fn lemma_value_padding_insensitive(w: Seq<u8>, s: Seq<u8>)
    requires
        forall|k: int| 0 <= k < w.len() ==> is_ws(#[trigger] w[k]),
    ensures
        ({
            match (spec_value(s, 0), spec_value(w + s, 0)) {
                (Ok(p), Ok(q)) => vsim(q.0, p.0) && q.1 == w.len() + p.1,
                (Err(e), Err(f)) => err_sim(f, e),
                _ => false,
            }
        }),
{
    let t = w + s;
    lemma_value_shift(w, s, 0);
    assert forall|k: int| 0 <= k < w.len() implies is_ws(#[trigger] t[k]) by {
        assert(t[k] == w[k]);
    }
    lemma_ws_end_pass(t, 0, w.len() as int);
    lemma_value_ws_insensitive(t, 0);
    lemma_value_ws_insensitive(t, w.len() as int);
}

fn scan_ident(s: &[u8], j: usize) -> (k: usize)
    requires
        j <= s@.len(),
    ensures
        k == ident_end(s@, j as int),
        j <= k <= s@.len(),
{
    proof {
        lemma_ident_end_bounds(s@, j as int);
    }
    let mut cur: usize = j;
    while cur < s.len() && (s[cur] == 95 || (65 <= s[cur] && s[cur] <= 90) || (97 <= s[cur]
        && s[cur] <= 122) || (48 <= s[cur] && s[cur] <= 57))
        invariant
            j <= cur <= s@.len(),
            ident_end(s@, j as int) == ident_end(s@, cur as int),
        decreases s@.len() - cur,
    {
        cur = cur + 1;
    }
    cur
}

fn scan_digits(s: &[u8], j: usize) -> (k: usize)
    requires
        j <= s@.len(),
    ensures
        k == digits_end(s@, j as int),
        j <= k <= s@.len(),
{
    proof {
        lemma_digits_end_bounds(s@, j as int);
    }
    let mut cur: usize = j;
    while cur < s.len() && 48 <= s[cur] && s[cur] <= 57
        invariant
            j <= cur <= s@.len(),
            digits_end(s@, j as int) == digits_end(s@, cur as int),
        decreases s@.len() - cur,
    {
        cur = cur + 1;
    }
    cur
}

pub(crate) fn copy_range(s: &[u8], a: usize, b: usize) -> (r: Vec<u8>)
    requires
        a <= b <= s@.len(),
    ensures
        r@ == s@.subrange(a as int, b as int),
{
    let mut r: Vec<u8> = Vec::new();
    let mut cur: usize = a;
    while cur < b
        invariant
            a <= cur <= b <= s@.len(),
            r@ == s@.subrange(a as int, cur as int),
        decreases b - cur,
    {
        r.push(s[cur]);
        proof {
            assert(r@ =~= s@.subrange(a as int, cur + 1));
        }
        cur = cur + 1;
    }
    r
}

/// Reads the digit run `s[a..b]` as a number, reporting instead of wrapping
/// when it exceeds `u32::MAX`.
fn digits_value(s: &[u8], a: usize, b: usize) -> (r: (u64, bool))
    requires
        a <= b <= s@.len(),
        forall|k: int| a <= k < b ==> is_digit(#[trigger] s@[k]),
    ensures
        !r.1 ==> r.0 == digits_val(s@.subrange(a as int, b as int)) && r.0 <= u32::MAX,
        r.1 ==> digits_val(s@.subrange(a as int, b as int)) > u32::MAX,
{
    let mut val: u64 = 0;
    let mut overflow: bool = false;
    let mut cur: usize = a;
    proof {
        assert(s@.subrange(a as int, a as int) =~= Seq::<u8>::empty());
    }
    while cur < b
        invariant
            a <= cur <= b <= s@.len(),
            forall|k: int| a <= k < b ==> is_digit(#[trigger] s@[k]),
            !overflow ==> val == digits_val(s@.subrange(a as int, cur as int)) && val
                <= u32::MAX,
            overflow ==> digits_val(s@.subrange(a as int, cur as int)) > u32::MAX,
        decreases b - cur,
    {
        let d = s[cur];
        proof {
            assert(s@.subrange(a as int, cur + 1).drop_last() =~= s@.subrange(
                a as int,
                cur as int,
            ));
            assert(s@.subrange(a as int, cur + 1).last() == s@[cur as int]);
        }
        if overflow {
        } else {
            let next = val * 10 + (d - 48) as u64;
            if next > 0xffff_ffff {
                overflow = true;
            } else {
                val = next;
            }
        }
        cur = cur + 1;
    }
    (val, overflow)
}

/// Parses an identifier at index `i` of `s`, skipping whitespace on both
/// sides; see [`spec_identifier`] for the exact grammar.
pub fn identifier(s: &[u8], i: usize) -> (r: Result<(Identifier, usize), ParseError>)
    requires
        i <= s@.len(),
        s@.len() < usize::MAX,
    ensures
        match r {
            Ok((id, n)) => spec_identifier(s@, i as int) == Ok::<(IdentifierV, int), ParseErrorV>(
                (id@, n as int),
            ) && i < n <= s@.len(),
            Err(e) => spec_identifier(s@, i as int) == Err::<(IdentifierV, int), ParseErrorV>(e@),
        },
{
    let j = drop_ws(s, i);
    if j < s.len() && (s[j] == 95 || (65 <= s[j] && s[j] <= 90) || (97 <= s[j] && s[j] <= 122)) {
        let k = scan_ident(s, j);
        proof {
            lemma_ident_end_bounds(s@, j as int + 1);
            lemma_ws_end_bounds(s@, k as int);
        }
        let name = copy_range(s, j, k);
        let n = drop_ws(s, k);
        Ok((Identifier { pos: position_at(s, j), name }, n))
    } else {
        Err(ParseError::UnexpectedCharacter { pos: position_at(s, j) })
    }
}

/// Parses a value (array, unsigned or signed literal) at index `i` of `s`,
/// skipping whitespace on both sides; see [`spec_value`] for the exact
/// grammar and [`spec_number`] for the overflow rule.
pub fn any_value(s: &[u8], i: usize) -> (r: Result<(Value, usize), ParseError>)
    requires
        i <= s@.len(),
        s@.len() < usize::MAX,
    ensures
        match r {
            Ok((v, n)) => spec_value(s@, i as int) == Ok::<(ValueV, int), ParseErrorV>(
                (v@, n as int),
            ) && i < n <= s@.len(),
            Err(e) => spec_value(s@, i as int) == Err::<(ValueV, int), ParseErrorV>(e@),
        },
    decreases s@.len() - i, 1int,
{
    let j = drop_ws(s, i);
    if j == s.len() {
        return Err(ParseError::UnexpectedCharacter { pos: position_at(s, j) });
    }
    let c = s[j];
    if c == 91 {
        let pos = position_at(s, j);
        let m = drop_ws(s, j + 1);
        if m < s.len() && s[m] == 93 {
            let n = drop_ws(s, m + 1);
            return Ok((Value::Array { pos, elems: Vec::new() }, n));
        }
        let mut elems: Vec<Value> = Vec::new();
        let mut cur: usize = j + 1;
        proof {
            if let Ok((vs, n2)) = spec_elems(s@, j as int + 1) {
                assert(Value::view_seq(Seq::<Value>::empty()) + vs =~= vs);
            }
        }
        loop
            invariant
                i < j + 1 <= cur <= s@.len(),
                s@.len() < usize::MAX,
                j < s@.len(),
                ws_end(s@, i as int) == j,
                s@[j as int] == 91,
                pos == pos_at(s@, j as int),
                !(ws_end(s@, j as int + 1) < s@.len() && s@[ws_end(s@, j as int + 1)] == 93),
                spec_elems(s@, j as int + 1) == match spec_elems(s@, cur as int) {
                    Ok::<(Seq<ValueV>, int), ParseErrorV>((vs, n)) => Ok::<
                        (Seq<ValueV>, int),
                        ParseErrorV,
                    >((Value::view_seq(elems@) + vs, n)),
                    Err(e) => Err::<(Seq<ValueV>, int), ParseErrorV>(e),
                },
            decreases s@.len() - cur,
        {
            match any_value(s, cur) {
                Err(e) => {
                    return Err(e);
                },
                Ok((v, k)) => {
                    let ghost old_elems = elems@;
                    let ghost vv = v@;
                    proof {
                        lemma_view_seq_push(elems@, v);
                    }
                    elems.push(v);
                    if k < s.len() && s[k] == 44 {
                        proof {
                            if let Ok((vs, n2)) = spec_elems(s@, k as int + 1) {
                                assert(Value::view_seq(old_elems) + (seq![vv] + vs)
                                    =~= Value::view_seq(elems@) + vs);
                            }
                        }
                        cur = k + 1;
                    } else if k < s.len() && s[k] == 93 {
                        let n = drop_ws(s, k + 1);
                        proof {
                            assert(Value::view_seq(elems@) =~= Value::view_seq(old_elems)
                                + seq![vv]);
                        }
                        return Ok((Value::Array { pos, elems }, n));
                    } else {
                        return Err(ParseError::UnexpectedCharacter { pos: position_at(s, k) });
                    }
                },
            }
        }
    } else if 48 <= c && c <= 57 {
        let k = scan_digits(s, j);
        proof {
            lemma_digits_end_bounds(s@, j as int + 1);
            lemma_digits_val_nonneg(s@.subrange(j as int, k as int));
        }
        let pos = position_at(s, j);
        let (val, overflow) = digits_value(s, j, k);
        if k < s.len() && s[k] == 117 {
            if overflow {
                Err(ParseError::NumericOverflow { pos, literal: copy_range(s, j, k) })
            } else {
                let n = drop_ws(s, k + 1);
                Ok((Value::Uint { pos, val: val as u32 }, n))
            }
        } else {
            if overflow || val > 0x7fff_ffff {
                Err(ParseError::NumericOverflow { pos, literal: copy_range(s, j, k) })
            } else {
                let n = drop_ws(s, k);
                Ok((Value::Int { pos, val: val as i32 }, n))
            }
        }
    } else {
        Err(ParseError::UnexpectedCharacter { pos: position_at(s, j) })
    }
}

} // verus!
