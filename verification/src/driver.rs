//! Top-level driver: repeatedly parses expressions across the whole input
//! and, when parsing stops short of the end, produces a diagnostic locating
//! the first unconsumed character.

use vstd::prelude::*;
use crate::common::{ParseError, ParseErrorV, ws_end, pos_at, drop_ws, position_at};
use crate::expr::{Expression, ExpressionV, expression, spec_expression};
use crate::value::copy_range;

verus! {

/// The index where the source line holding index `i` begins: right after the
/// last newline before `i`, or the start of the input.
pub open spec fn line_start(s: Seq<u8>, i: int) -> int
    decreases i,
{
    if i <= 0 {
        0
    } else if 0 <= i - 1 < s.len() && s[i - 1] == 10 {
        i
    } else {
        line_start(s, i - 1)
    }
}

/// The index where the source line holding index `i` ends: the next newline
/// at or after `i`, or the end of the input.
pub open spec fn line_end(s: Seq<u8>, i: int) -> int
    decreases s.len() - i,
{
    if i < 0 || i >= s.len() {
        s.len() as int
    } else if s[i] == 10 {
        i
    } else {
        line_end(s, i + 1)
    }
}

pub proof fn lemma_line_start_bounds(s: Seq<u8>, i: int)
    requires
        0 <= i,
    ensures
        0 <= line_start(s, i) <= i,
    decreases i,
{
    if i > 0 && !(0 <= i - 1 < s.len() && s[i - 1] == 10) {
        lemma_line_start_bounds(s, i - 1);
    }
}

pub proof fn lemma_line_end_bounds(s: Seq<u8>, i: int)
    requires
        0 <= i <= s.len(),
    ensures
        i <= line_end(s, i) <= s.len(),
    decreases s.len() - i,
{
    if i < s.len() && s[i] != 10 {
        lemma_line_end_bounds(s, i + 1);
    }
}

/// The sequence of expressions that repeated parsing consumes from index `i`
/// on, together with the index where the repetition stops (the cursor of the
/// first failing attempt).
pub open spec fn spec_exprs(s: Seq<u8>, i: int) -> (Seq<ExpressionV>, int)
    decreases s.len() - i,
{
    match spec_expression(s, i) {
        Ok((e, k)) => {
            if i < k <= s.len() {
                let (rest, fin) = spec_exprs(s, k);
                (seq![e] + rest, fin)
            } else {
                (Seq::empty(), i)
            }
        },
        Err(_) => (Seq::empty(), i),
    }
}

/// Mathematical model of a sequence of parsed expressions.
pub open spec fn view_exprs(es: Seq<Expression>) -> Seq<ExpressionV>
    decreases es,
{
    if es.len() == 0 {
        Seq::empty()
    } else {
        view_exprs(es.drop_last()).push(es.last()@)
    }
}

pub proof fn lemma_view_exprs_push(es: Seq<Expression>, e: Expression)
    ensures
        view_exprs(es.push(e)) == view_exprs(es).push(e@),
{
    assert(es.push(e).drop_last() =~= es);
    assert(es.push(e).last() == e);
}

pub proof fn lemma_view_exprs_len(es: Seq<Expression>)
    ensures
        view_exprs(es).len() == es.len(),
    decreases es,
{
    if es.len() > 0 {
        lemma_view_exprs_len(es.drop_last());
    }
}

/// What a failed top-level parse reports, given the index `fin` where the
/// repetition stopped: the position of the first unconsumed non-whitespace
/// character, that character itself (or nothing, when only whitespace — or
/// nothing at all — remains), and the full source line holding the position.
pub open spec fn spec_diagnostic(s: Seq<u8>, fin: int) -> DiagnosticV {
    let u = ws_end(s, fin);
    DiagnosticV {
        error: ParseErrorV::IncompleteParse { pos: pos_at(s, u) },
        found: if u < s.len() {
            Some(s[u])
        } else {
            None
        },
        line_text: s.subrange(line_start(s, u), line_end(s, u)),
    }
}

/// Model of the top-level parse: one or more expressions covering the whole
/// input, or a diagnostic at the point where parsing stopped.
pub open spec fn spec_program(s: Seq<u8>) -> Result<Seq<ExpressionV>, DiagnosticV> {
    let (es, fin) = spec_exprs(s, 0);
    if es.len() >= 1 && fin == s.len() {
        Ok(es)
    } else {
        Err(spec_diagnostic(s, fin))
    }
}

/// A structured, caller-renderable description of a failed top-level parse.
#[derive(Debug, Clone, PartialEq, Eq)]
pub struct Diagnostic {
    /// Where valid expressions stopped.
    pub error: ParseError,
    /// The first unconsumed non-whitespace byte, if any.
    pub found: Option<u8>,
    /// The full source line holding the reported position.
    pub line_text: Vec<u8>,
}

/// Mathematical model of a [`Diagnostic`].
pub ghost struct DiagnosticV {
    pub error: ParseErrorV,
    pub found: Option<u8>,
    pub line_text: Seq<u8>,
}

impl View for Diagnostic {
    type V = DiagnosticV;

    open spec fn view(&self) -> DiagnosticV {
        DiagnosticV { error: self.error@, found: self.found, line_text: self.line_text@ }
    }
}

fn scan_line_start(s: &[u8], i: usize) -> (r: usize)
    requires
        i <= s@.len(),
    ensures
        r == line_start(s@, i as int),
        r <= i,
{
    proof {
        lemma_line_start_bounds(s@, i as int);
    }
    let mut cur: usize = i;
    while cur > 0 && s[cur - 1] != 10
        invariant
            cur <= i <= s@.len(),
            line_start(s@, i as int) == line_start(s@, cur as int),
        decreases cur,
    {
        cur = cur - 1;
    }
    cur
}

fn scan_line_end(s: &[u8], i: usize) -> (r: usize)
    requires
        i <= s@.len(),
    ensures
        r == line_end(s@, i as int),
        i <= r <= s@.len(),
{
    proof {
        lemma_line_end_bounds(s@, i as int);
    }
    let mut cur: usize = i;
    while cur < s.len() && s[cur] != 10
        invariant
            i <= cur <= s@.len(),
            line_end(s@, i as int) == line_end(s@, cur as int),
        decreases s@.len() - cur,
    {
        cur = cur + 1;
    }
    cur
}

/// The caret marker of a compiler-style diagnostic: spaces up to 1-based
/// column `col`, then a `^` directly under that column.
pub fn caret_line(col: usize) -> (r: Vec<u8>)
    requires
        1 <= col,
    ensures
        r@.len() == col,
        r@[col - 1] == 94,
        forall|k: int| 0 <= k < col - 1 ==> r@[k] == 32,
{
    let mut r: Vec<u8> = Vec::new();
    let mut n: usize = 0;
    while n < col - 1
        invariant
            n <= col - 1,
            r@.len() == n,
            forall|k: int| 0 <= k < n ==> r@[k] == 32,
        decreases col - 1 - n,
    {
        r.push(32);
        n = n + 1;
    }
    r.push(94);
    r
}

/// Builds the diagnostic for a top-level parse that stopped at index `fin`.
fn diagnose(s: &[u8], fin: usize) -> (d: Diagnostic)
    requires
        fin <= s@.len(),
        s@.len() < usize::MAX,
    ensures
        d@ == spec_diagnostic(s@, fin as int),
{
    let u = drop_ws(s, fin);
    let found = if u < s.len() {
        Some(s[u])
    } else {
        None
    };
    let ls = scan_line_start(s, u);
    let le = scan_line_end(s, u);
    proof {
        lemma_line_end_bounds(s@, u as int);
    }
    Diagnostic {
        error: ParseError::IncompleteParse { pos: position_at(s, u) },
        found,
        line_text: copy_range(s, ls, le),
    }
}

/// Parses the whole input as a sequence of one or more expressions. On
/// success every byte of `s` has been consumed; otherwise the result is a
/// [`Diagnostic`] locating the first unconsumed character.
pub fn parse_program(s: &[u8]) -> (r: Result<Vec<Expression>, Diagnostic>)
    requires
        s@.len() < usize::MAX,
    ensures
        match r {
            Ok(es) => spec_program(s@) == Ok::<Seq<ExpressionV>, DiagnosticV>(view_exprs(es@))
                && es@.len() >= 1,
            Err(d) => spec_program(s@) == Err::<Seq<ExpressionV>, DiagnosticV>(d@),
        },
{
    let mut out: Vec<Expression> = Vec::new();
    let mut cur: usize = 0;
    proof {
        let (rest, fin) = spec_exprs(s@, 0);
        assert(view_exprs(Seq::<Expression>::empty()) + rest =~= rest);
    }
    loop
        invariant
            cur <= s@.len(),
            s@.len() < usize::MAX,
            out@.len() >= 1 ==> cur > 0,
            spec_exprs(s@, 0).1 == spec_exprs(s@, cur as int).1,
            spec_exprs(s@, 0).0 == view_exprs(out@) + spec_exprs(s@, cur as int).0,
        ensures
            cur <= s@.len(),
            out@.len() >= 1 ==> cur > 0,
            spec_exprs(s@, 0).0 == view_exprs(out@),
            spec_exprs(s@, 0).1 == cur,
        decreases s@.len() - cur,
    {
        match expression(s, cur) {
            Ok((e, k)) => {
                let ghost old_out = out@;
                let ghost ev = e@;
                proof {
                    lemma_view_exprs_push(out@, e);
                    let (rest, fin) = spec_exprs(s@, k as int);
                    assert(view_exprs(old_out) + (seq![ev] + rest) =~= view_exprs(
                        old_out.push(e),
                    ) + rest);
                }
                out.push(e);
                cur = k;
            },
            Err(_) => {
                proof {
                    assert(view_exprs(out@) + Seq::<ExpressionV>::empty() =~= view_exprs(out@));
                }
                break ;
            },
        }
    }
    proof {
        lemma_view_exprs_len(out@);
    }
    if out.len() >= 1 && cur == s.len() {
        Ok(out)
    } else {
        Err(diagnose(s, cur))
    }
}

} // verus!
