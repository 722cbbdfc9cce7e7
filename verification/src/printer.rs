//! Printing parsed expressions back to source text, and the round-trip law:
//! re-parsing the printed form of a parsed expression gives a structurally
//! equal expression (positions aside).

use vstd::prelude::*;
use crate::common::{
    is_digit, is_ident_start, is_ident_cont, ws_end, digits_end, ident_end,
    lemma_digits_end_of_run, lemma_ident_end_of_run,
};
use crate::value::{
    Value, ValueV, IdentifierV, digits_val, copy_range, spec_value, spec_elems, vsim,
};
use crate::expr::{Expression, ExpressionV, esim};

verus! {

/// A value the printer can render faithfully: exactly what the parsers
/// produce. Signed literals are never negative (the grammar has no sign),
/// and array elements are themselves well formed.
pub open spec fn value_wf(v: ValueV) -> bool
    decreases v,
{
    match v {
        ValueV::Int { val, .. } => val >= 0,
        ValueV::Uint { .. } => true,
        ValueV::Array { elems, .. } => forall|k: int|
            0 <= k < elems.len() ==> value_wf(#[trigger] elems[k]),
    }
}

/// An identifier the printer can render faithfully: a non-empty name that
/// matches the identifier grammar.
pub open spec fn ident_wf(id: IdentifierV) -> bool {
    &&& id.name.len() >= 1
    &&& is_ident_start(id.name[0])
    &&& forall|k: int| 0 <= k < id.name.len() ==> is_ident_cont(#[trigger] id.name[k])
}

/// An expression the printer can render faithfully.
pub open spec fn expr_wf(e: ExpressionV) -> bool {
    match e {
        ExpressionV::Value(v) => value_wf(v),
        ExpressionV::Identifier(id) => ident_wf(id),
    }
}

/// The decimal digits of `n`, most significant first.
pub open spec fn spec_digits(n: int) -> Seq<u8>
    decreases n,
{
    if n < 10 {
        seq![(48 + n) as u8]
    } else {
        spec_digits(n / 10).push((48 + n % 10) as u8)
    }
}

pub proof fn lemma_spec_digits_wf(n: int)
    requires
        0 <= n,
    ensures
        spec_digits(n).len() >= 1,
        forall|k: int| 0 <= k < spec_digits(n).len() ==> is_digit(#[trigger] spec_digits(n)[k]),
        digits_val(spec_digits(n)) == n,
    decreases n,
{
    if n < 10 {
        assert(digits_val(spec_digits(n)) == n) by {
            assert(spec_digits(n).drop_last() =~= Seq::<u8>::empty());
            assert(digits_val(Seq::<u8>::empty()) == 0);
        }
    } else {
        lemma_spec_digits_wf(n / 10);
        assert(spec_digits(n).drop_last() =~= spec_digits(n / 10));
        assert forall|k: int| 0 <= k < spec_digits(n).len() implies is_digit(
            #[trigger] spec_digits(n)[k],
        ) by {
            if k < spec_digits(n).len() - 1 {
                assert(spec_digits(n)[k] == spec_digits(n / 10)[k]);
            }
        }
    }
}

/// The printed form of a value: digits for a signed literal, digits and the
/// `u` suffix for an unsigned one, and bracketed comma-separated elements
/// for an array. No whitespace is emitted.
pub open spec fn spec_print_value(v: ValueV) -> Seq<u8>
    decreases v, 0int,
{
    match v {
        ValueV::Int { val, .. } => spec_digits(val as int),
        ValueV::Uint { val, .. } => spec_digits(val as int).push(117),
        ValueV::Array { elems, .. } => if elems.len() == 0 {
            seq![91u8, 93u8]
        } else {
            seq![91u8] + spec_print_elems(elems)
        },
    }
}

/// The printed form of an array's elements from the first one on, commas
/// between them, with the closing bracket.
pub open spec fn spec_print_elems(vs: Seq<ValueV>) -> Seq<u8>
    decreases vs, 1int,
{
    if vs.len() == 0 {
        seq![93u8]
    } else if vs.len() == 1 {
        spec_print_value(vs[0]) + seq![93u8]
    } else {
        spec_print_value(vs[0]) + seq![44u8] + spec_print_elems(vs.drop_first())
    }
}

/// The printed form of an expression: the value's text, or the identifier's
/// name.
pub open spec fn spec_print_expr(e: ExpressionV) -> Seq<u8> {
    match e {
        ExpressionV::Value(v) => spec_print_value(v),
        ExpressionV::Identifier(id) => id.name,
    }
}

fn push_digits(n: u32, out: &mut Vec<u8>)
    ensures
        final(out)@ == old(out)@ + spec_digits(n as int),
    decreases n,
{
    if n < 10 {
        out.push(48 + n as u8);
        proof {
            assert(out@ =~= old(out)@ + spec_digits(n as int));
        }
    } else {
        push_digits(n / 10, out);
        out.push(48 + (n % 10) as u8);
        proof {
            assert(out@ =~= old(out)@ + spec_digits(n as int));
        }
    }
}

/// Appends the printed form of `v` to `out`; see [`spec_print_value`].
pub fn print_value(v: &Value, out: &mut Vec<u8>)
    requires
        value_wf(v@),
    ensures
        final(out)@ == old(out)@ + spec_print_value(v@),
    decreases v,
{
    match v {
        Value::Int { val, .. } => {
            push_digits(*val as u32, out);
        },
        Value::Uint { val, .. } => {
            push_digits(*val, out);
            out.push(117);
            proof {
                assert(out@ =~= old(out)@ + spec_print_value(v@));
            }
        },
        Value::Array { elems, .. } => {
            let ghost vs = Value::view_seq(elems@);
            proof {
                crate::value::lemma_view_seq_index(elems@);
            }
            out.push(91);
            if elems.len() == 0 {
                out.push(93);
                proof {
                    assert(out@ =~= old(out)@ + spec_print_value(v@));
                }
            } else {
                let mut i: usize = 0;
                proof {
                    assert(vs.skip(0) =~= vs);
                    assert(old(out)@.push(91u8) + spec_print_elems(vs) =~= old(out)@
                        + spec_print_value(v@));
                }
                loop
                    invariant_except_break
                        out@ + spec_print_elems(vs.skip(i as int)) == old(out)@
                            + spec_print_value(v@),
                    invariant
                        (*v) is Array,
                        (*v)->Array_elems == *elems,
                        value_wf(v@),
                        spec_print_value(v@) == seq![91u8] + spec_print_elems(vs),
                        0 <= i < elems@.len(),
                        vs == Value::view_seq(elems@),
                        vs.len() == elems@.len(),
                        forall|k: int| 0 <= k < vs.len() ==> vs[k] == #[trigger] elems@[k]@,
                        forall|k: int| 0 <= k < vs.len() ==> value_wf(#[trigger] vs[k]),
                        elems@.len() <= usize::MAX,
                    ensures
                        out@ == old(out)@ + spec_print_value(v@),
                    decreases elems@.len() - i,
                {
                    proof {
                        assert(vs.skip(i as int)[0] == vs[i as int]);
                        assert(vs.skip(i as int).len() == vs.len() - i);
                        assert(value_wf(vs[i as int]));
                        assert(decreases_to!((*v) => (*v)->Array_elems@[i as int]));
                    }
                    let ghost mid = out@;
                    print_value(&elems[i], out);
                    if i + 1 == elems.len() {
                        out.push(93);
                        proof {
                            assert(spec_print_elems(vs.skip(i as int)) == spec_print_value(
                                vs[i as int],
                            ) + seq![93u8]);
                            assert(out@ =~= mid + spec_print_elems(vs.skip(i as int)));
                        }
                        break ;
                    } else {
                        out.push(44);
                        proof {
                            assert(vs.skip(i as int).drop_first() =~= vs.skip(i as int + 1));
                            assert(spec_print_elems(vs.skip(i as int)) == spec_print_value(
                                vs[i as int],
                            ) + seq![44u8] + spec_print_elems(vs.skip(i as int + 1)));
                            assert(out@ + spec_print_elems(vs.skip(i as int + 1)) =~= mid
                                + spec_print_elems(vs.skip(i as int)));
                        }
                        i = i + 1;
                    }
                }
            }
        },
    }
}

pub proof fn lemma_print_value_first(v: ValueV)
    requires
        value_wf(v),
    ensures
        spec_print_value(v).len() >= 1,
        is_digit(spec_print_value(v)[0]) || spec_print_value(v)[0] == 91,
{
    match v {
        ValueV::Int { val, .. } => {
            lemma_spec_digits_wf(val as int);
        },
        ValueV::Uint { val, .. } => {
            lemma_spec_digits_wf(val as int);
            assert(spec_print_value(v)[0] == spec_digits(val as int)[0]);
        },
        ValueV::Array { .. } => {
        },
    }
}

/// Parsing the printed form of a well-formed value, embedded in a larger
/// input right before a comma, a closing bracket, or the end, succeeds,
/// consumes exactly the printed text, and reproduces the value (positions
/// aside).
pub proof fn lemma_print_value_parses(v: ValueV, s: Seq<u8>, j: int)
    requires
        value_wf(v),
        0 <= j,
        j + spec_print_value(v).len() <= s.len(),
        s.subrange(j, j + spec_print_value(v).len()) == spec_print_value(v),
        ({
            let e = j + spec_print_value(v).len();
            e == s.len() || s[e] == 44 || s[e] == 93
        }),
    ensures
        ({
            let e = j + spec_print_value(v).len();
            &&& spec_value(s, j) matches Ok(p)
            &&& spec_value(s, j) matches Ok(p) ==> vsim(p.0, v) && p.1 == e
        }),
    decreases v, 0int,
{
    let p = spec_print_value(v);
    let l = p.len();
    let e = j + l;
    lemma_print_value_first(v);
    assert(forall|t: int| 0 <= t < l ==> s[j + t] == #[trigger] p[t]) by {
        assert(forall|t: int|
            0 <= t < l ==> s.subrange(j, j + l)[t] == #[trigger] p[t]);
    }
    assert(s[j] == p[0]);
    assert(ws_end(s, j) == j);
    match v {
        ValueV::Int { val, .. } => {
            lemma_spec_digits_wf(val as int);
            assert forall|k: int| j <= k < e implies is_digit(#[trigger] s[k]) by {
                assert(s[k] == p[k - j]);
            }
            lemma_digits_end_of_run(s, j, e);
            assert(s.subrange(j, e) == p);
            assert(digits_val(s.subrange(j, e)) == val);
            assert(ws_end(s, e) == e);
        },
        ValueV::Uint { val, .. } => {
            let d = spec_digits(val as int);
            lemma_spec_digits_wf(val as int);
            assert(forall|t: int| 0 <= t < d.len() ==> #[trigger] p[t] == d[t]);
            assert(p[l - 1] == 117);
            assert forall|k: int| j <= k < e - 1 implies is_digit(#[trigger] s[k]) by {
                assert(s[k] == p[k - j]);
            }
            lemma_digits_end_of_run(s, j, e - 1);
            assert(s.subrange(j, e - 1) =~= d);
            assert(digits_val(s.subrange(j, e - 1)) == val);
            assert(s[e - 1] == 117);
            assert(ws_end(s, e) == e);
        },
        ValueV::Array { elems, .. } => {
            if elems.len() == 0 {
                assert(s[j + 1] == 93);
                assert(ws_end(s, j + 1) == j + 1);
                assert(ws_end(s, e) == e);
            } else {
                let q = spec_print_elems(elems);
                assert(p == seq![91u8] + q);
                assert(forall|t: int| 0 <= t < q.len() ==> #[trigger] q[t] == p[t + 1]);
                assert(value_wf(elems[0]));
                lemma_print_value_first(elems[0]);
                assert(q[0] == spec_print_value(elems[0])[0]);
                assert(s[j + 1] == q[0]);
                assert(ws_end(s, j + 1) == j + 1);
                assert(s.subrange(j + 1, e) =~= q);
                assert(decreases_to!(v => v->Array_elems));
                lemma_print_elems_parses(elems, s, j + 1);
            }
        },
    }
}

/// As [`lemma_print_value_parses`], for the printed form of a non-empty
/// element list with its closing bracket.
pub proof fn lemma_print_elems_parses(vs: Seq<ValueV>, s: Seq<u8>, j: int)
    requires
        vs.len() >= 1,
        forall|k: int| 0 <= k < vs.len() ==> value_wf(#[trigger] vs[k]),
        0 <= j,
        j + spec_print_elems(vs).len() <= s.len(),
        s.subrange(j, j + spec_print_elems(vs).len()) == spec_print_elems(vs),
        ({
            let e = j + spec_print_elems(vs).len();
            e == s.len() || s[e] == 44 || s[e] == 93
        }),
    ensures
        ({
            let e = j + spec_print_elems(vs).len();
            &&& spec_elems(s, j) matches Ok(p)
            &&& spec_elems(s, j) matches Ok(p) ==> p.0.len() == vs.len() && (forall|k: int|
                0 <= k < vs.len() ==> vsim(#[trigger] p.0[k], vs[k])) && p.1 == e
        }),
    decreases vs, 1int,
{
    let q = spec_print_elems(vs);
    let e = j + q.len();
    let p0 = spec_print_value(vs[0]);
    let l0 = p0.len();
    lemma_print_value_first(vs[0]);
    assert(forall|t: int| 0 <= t < q.len() ==> s[j + t] == #[trigger] q[t]) by {
        assert(forall|t: int|
            0 <= t < q.len() ==> s.subrange(j, j + q.len())[t] == #[trigger] q[t]);
    }
    assert(decreases_to!(vs => vs[0]));
    if vs.len() == 1 {
        assert(q == p0 + seq![93u8]);
        assert(forall|t: int| 0 <= t < l0 ==> #[trigger] q[t] == p0[t]);
        assert(s.subrange(j, j + l0) =~= p0);
        assert(q[l0 as int] == 93);
        assert(s[j + l0] == q[l0 as int]);
        lemma_print_value_parses(vs[0], s, j);
        assert(ws_end(s, j + l0 + 1) == e);
    } else {
        let rest = vs.drop_first();
        let qr = spec_print_elems(rest);
        assert(q == p0 + seq![44u8] + qr);
        assert(forall|t: int| 0 <= t < l0 ==> #[trigger] q[t] == p0[t]);
        assert(s.subrange(j, j + l0) =~= p0);
        assert(q[l0 as int] == 44);
        assert(s[j + l0] == q[l0 as int]);
        lemma_print_value_parses(vs[0], s, j);
        assert(forall|t: int| 0 <= t < qr.len() ==> #[trigger] qr[t] == q[t + l0 + 1]);
        assert(s.subrange(j + l0 + 1, e) =~= qr);
        assert(forall|k: int| 0 <= k < rest.len() ==> #[trigger] rest[k] == vs[k + 1]);
        assert(decreases_to!(vs => rest));
        lemma_print_elems_parses(rest, s, j + l0 + 1);
        if let Ok((v0, k0)) = spec_value(s, j) {
            if let Ok((vr, nr)) = spec_elems(s, j + l0 + 1) {
                let whole = seq![v0] + vr;
                assert(spec_elems(s, j) == Ok::<(Seq<ValueV>, int), crate::common::ParseErrorV>(
                    (whole, nr),
                ));
                assert forall|k: int| 0 <= k < vs.len() implies vsim(
                    #[trigger] whole[k],
                    vs[k],
                ) by {
                    if k == 0 {
                        assert(whole[0] == v0);
                    } else {
                        assert(whole[k] == vr[k - 1]);
                        assert(vsim(vr[k - 1], rest[k - 1]));
                    }
                }
            }
        }
    }
}

/// Every value a successful parse produces is well formed: the printer can
/// render it faithfully.
pub proof fn lemma_parsed_value_wf(s: Seq<u8>, i: int)
    requires
        0 <= i <= s.len(),
    ensures
        spec_value(s, i) matches Ok(p) ==> value_wf(p.0),
    decreases s.len() - i, 1int,
{
    crate::common::lemma_ws_end_bounds(s, i);
    let j = ws_end(s, i);
    if i <= j && j < s.len() {
        if s[j] == 91 {
            crate::common::lemma_ws_end_bounds(s, j + 1);
            let m = ws_end(s, j + 1);
            if !(m < s.len() && s[m] == 93) {
                lemma_parsed_elems_wf(s, j + 1);
            }
        } else if is_digit(s[j]) {
            let k = digits_end(s, j);
            crate::common::lemma_digits_end_bounds(s, j);
            crate::value::lemma_digits_val_nonneg(s.subrange(j, k));
        }
    }
}

/// As [`lemma_parsed_value_wf`], for each element of a parsed element run.
pub proof fn lemma_parsed_elems_wf(s: Seq<u8>, cur: int)
    requires
        0 <= cur <= s.len(),
    ensures
        spec_elems(s, cur) matches Ok(p) ==> forall|k: int|
            0 <= k < p.0.len() ==> value_wf(#[trigger] p.0[k]),
    decreases s.len() - cur, 2int,
{
    lemma_parsed_value_wf(s, cur);
    crate::value::lemma_spec_value_progress(s, cur);
    if let Ok((v, k)) = spec_value(s, cur) {
        if cur < k <= s.len() {
            if k < s.len() && s[k] == 44 {
                lemma_parsed_elems_wf(s, k + 1);
                if let Ok((vs, n)) = spec_elems(s, k + 1) {
                    let whole = seq![v] + vs;
                    assert forall|t: int| 0 <= t < whole.len() implies value_wf(
                        #[trigger] whole[t],
                    ) by {
                        if t == 0 {
                            assert(whole[0] == v);
                        } else {
                            assert(whole[t] == vs[t - 1]);
                        }
                    }
                }
            } else if k < s.len() && s[k] == 93 {
                assert forall|t: int| 0 <= t < 1 implies value_wf(
                    #[trigger] seq![v][t],
                ) by {
                    assert(seq![v][0] == v);
                }
            }
        }
    }
}

/// Every expression a successful parse produces is well formed.
pub proof fn lemma_parsed_expression_wf(s: Seq<u8>, i: int)
    requires
        0 <= i <= s.len(),
    ensures
        crate::expr::spec_expression(s, i) matches Ok(p) ==> expr_wf(p.0),
{
    lemma_parsed_value_wf(s, i);
    crate::common::lemma_ws_end_bounds(s, i);
    let j = ws_end(s, i);
    if j < s.len() && is_ident_start(s[j]) {
        let k = ident_end(s, j);
        crate::common::lemma_ident_end_bounds(s, j + 1);
        crate::common::lemma_ident_end_bounds(s, j);
        let name = s.subrange(j, k);
        assert(name[0] == s[j]);
        assert forall|t: int| 0 <= t < name.len() implies is_ident_cont(
            #[trigger] name[t],
        ) by {
            assert(name[t] == s[j + t]);
        }
    }
}

/// Law: re-parsing the printed form of a well-formed expression — in
/// particular, of any expression a successful parse produced — succeeds,
/// consumes the whole text, and yields a structurally equal expression,
/// positions aside.
pub proof fn lemma_print_round_trip(e: ExpressionV)
    requires
        expr_wf(e),
    ensures
        ({
            let s = spec_print_expr(e);
            &&& crate::expr::spec_expression(s, 0) matches Ok(p)
            &&& crate::expr::spec_expression(s, 0) matches Ok(p) ==> esim(p.0, e) && p.1
                == s.len()
        }),
{
    let s = spec_print_expr(e);
    match e {
        ExpressionV::Value(v) => {
            assert(s.subrange(0, s.len() as int) =~= s);
            lemma_print_value_parses(v, s, 0);
        },
        ExpressionV::Identifier(id) => {
            assert(s[0] == id.name[0]);
            assert(ws_end(s, 0) == 0);
            lemma_ident_end_of_run(s, 0, s.len() as int);
            assert(s.subrange(0, s.len() as int) =~= id.name);
            assert(spec_value(s, 0) is Err);
        },
    }
}

/// The printed form of an expression as a byte vector; see
/// [`spec_print_expr`].
pub fn print_expression(e: &Expression) -> (r: Vec<u8>)
    requires
        expr_wf(e@),
    ensures
        r@ == spec_print_expr(e@),
{
    match e {
        Expression::Value(v) => {
            let mut out: Vec<u8> = Vec::new();
            print_value(v, &mut out);
            proof {
                assert(Seq::<u8>::empty() + spec_print_value(v@) =~= spec_print_value(v@));
            }
            out
        },
        Expression::Identifier(id) => {
            let r = copy_range(id.name.as_slice(), 0, id.name.len());
            proof {
                assert(id.name@.subrange(0, id.name@.len() as int) =~= id.name@);
            }
            r
        },
    }
}

} // verus!
