//! Byte classes, whitespace skipping, and line/column position tracking.

use vstd::prelude::*;

verus! {

/// A 1-based line/column location in the source text.
#[derive(Debug, Clone, Copy, PartialEq, Eq, Structural)]
pub struct Position {
    pub line: usize,
    pub col: usize,
}

/// Whitespace: space, tab, newline, carriage return.
pub open spec fn is_ws(c: u8) -> bool {
    c == 32 || c == 9 || c == 10 || c == 13
}

/// ASCII decimal digit.
pub open spec fn is_digit(c: u8) -> bool {
    48 <= c && c <= 57
}

/// ASCII letter or underscore: what an identifier may start with.
pub open spec fn is_ident_start(c: u8) -> bool {
    (65 <= c && c <= 90) || (97 <= c && c <= 122) || c == 95
}

/// ASCII letter, digit or underscore: what an identifier may continue with.
pub open spec fn is_ident_cont(c: u8) -> bool {
    is_ident_start(c) || is_digit(c)
}

/// The first index at or after `i` holding a non-whitespace byte (or the end).
pub open spec fn ws_end(s: Seq<u8>, i: int) -> int
    decreases s.len() - i,
{
    if i < 0 || i >= s.len() {
        i
    } else if is_ws(s[i]) {
        ws_end(s, i + 1)
    } else {
        i
    }
}

pub proof fn lemma_ws_end_bounds(s: Seq<u8>, i: int)
    requires
        0 <= i <= s.len(),
    ensures
        i <= ws_end(s, i) <= s.len(),
        forall|k: int| i <= k < ws_end(s, i) ==> is_ws(s[k]),
        ws_end(s, i) < s.len() ==> !is_ws(s[ws_end(s, i)]),
    decreases s.len() - i,
{
    if i < s.len() && is_ws(s[i]) {
        lemma_ws_end_bounds(s, i + 1);
    }
}

/// Skipping whitespace twice skips no more than once.
pub proof fn lemma_ws_end_idempotent(s: Seq<u8>, i: int)
    requires
        0 <= i <= s.len(),
    ensures
        ws_end(s, ws_end(s, i)) == ws_end(s, i),
    decreases s.len() - i,
{
    if i < s.len() && is_ws(s[i]) {
        lemma_ws_end_idempotent(s, i + 1);
    }
}

/// The first index at or after `i` holding a byte that cannot continue an
/// identifier (or the end).
pub open spec fn ident_end(s: Seq<u8>, i: int) -> int
    decreases s.len() - i,
{
    if i < 0 || i >= s.len() {
        i
    } else if is_ident_cont(s[i]) {
        ident_end(s, i + 1)
    } else {
        i
    }
}

pub proof fn lemma_ident_end_bounds(s: Seq<u8>, i: int)
    requires
        0 <= i <= s.len(),
    ensures
        i <= ident_end(s, i) <= s.len(),
        forall|k: int| i <= k < ident_end(s, i) ==> is_ident_cont(s[k]),
        ident_end(s, i) < s.len() ==> !is_ident_cont(s[ident_end(s, i)]),
    decreases s.len() - i,
{
    if i < s.len() && is_ident_cont(s[i]) {
        lemma_ident_end_bounds(s, i + 1);
    }
}

/// The first index at or after `i` holding a non-digit byte (or the end).
pub open spec fn digits_end(s: Seq<u8>, i: int) -> int
    decreases s.len() - i,
{
    if i < 0 || i >= s.len() {
        i
    } else if is_digit(s[i]) {
        digits_end(s, i + 1)
    } else {
        i
    }
}

pub proof fn lemma_digits_end_bounds(s: Seq<u8>, i: int)
    requires
        0 <= i <= s.len(),
    ensures
        i <= digits_end(s, i) <= s.len(),
        forall|k: int| i <= k < digits_end(s, i) ==> is_digit(s[k]),
        digits_end(s, i) < s.len() ==> !is_digit(s[digits_end(s, i)]),
    decreases s.len() - i,
{
    if i < s.len() && is_digit(s[i]) {
        lemma_digits_end_bounds(s, i + 1);
    }
}

/// A maximal digit run is delimited by its first non-digit (or the end).
pub proof fn lemma_digits_end_of_run(s: Seq<u8>, j: int, m: int)
    requires
        0 <= j <= m <= s.len(),
        forall|k: int| j <= k < m ==> is_digit(#[trigger] s[k]),
        m == s.len() || !is_digit(s[m]),
    ensures
        digits_end(s, j) == m,
    decreases m - j,
{
    if j < m {
        lemma_digits_end_of_run(s, j + 1, m);
    }
}

/// A maximal identifier run is delimited by its first byte that cannot
/// continue an identifier (or the end).
pub proof fn lemma_ident_end_of_run(s: Seq<u8>, j: int, m: int)
    requires
        0 <= j <= m <= s.len(),
        forall|k: int| j <= k < m ==> is_ident_cont(#[trigger] s[k]),
        m == s.len() || !is_ident_cont(s[m]),
    ensures
        ident_end(s, j) == m,
    decreases m - j,
{
    if j < m {
        lemma_ident_end_of_run(s, j + 1, m);
    }
}

/// Whitespace skipping passes over any all-whitespace span.
pub proof fn lemma_ws_end_pass(s: Seq<u8>, a: int, b: int)
    requires
        0 <= a <= b <= s.len(),
        forall|k: int| a <= k < b ==> is_ws(#[trigger] s[k]),
    ensures
        ws_end(s, a) == ws_end(s, b),
    decreases b - a,
{
    if a < b {
        lemma_ws_end_pass(s, a + 1, b);
    }
}

/// Prepending a prefix shifts whitespace skipping by its length.
pub proof fn lemma_ws_end_shift(w: Seq<u8>, s: Seq<u8>, i: int)
    requires
        0 <= i <= s.len(),
    ensures
        ws_end(w + s, w.len() + i) == w.len() + ws_end(s, i),
    decreases s.len() - i,
{
    if i < s.len() {
        assert((w + s)[w.len() + i] == s[i]);
        if is_ws(s[i]) {
            lemma_ws_end_shift(w, s, i + 1);
        }
    }
}

/// Prepending a prefix shifts a digit-run scan by its length.
pub proof fn lemma_digits_end_shift(w: Seq<u8>, s: Seq<u8>, i: int)
    requires
        0 <= i <= s.len(),
    ensures
        digits_end(w + s, w.len() + i) == w.len() + digits_end(s, i),
    decreases s.len() - i,
{
    if i < s.len() {
        assert((w + s)[w.len() + i] == s[i]);
        if is_digit(s[i]) {
            lemma_digits_end_shift(w, s, i + 1);
        }
    }
}

/// Prepending a prefix shifts an identifier-run scan by its length.
pub proof fn lemma_ident_end_shift(w: Seq<u8>, s: Seq<u8>, i: int)
    requires
        0 <= i <= s.len(),
    ensures
        ident_end(w + s, w.len() + i) == w.len() + ident_end(s, i),
    decreases s.len() - i,
{
    if i < s.len() {
        assert((w + s)[w.len() + i] == s[i]);
        if is_ident_cont(s[i]) {
            lemma_ident_end_shift(w, s, i + 1);
        }
    }
}

/// Appending whitespace extends whitespace skipping only when it already
/// reached the end of the input.
pub proof fn lemma_ws_end_extend(s: Seq<u8>, w: Seq<u8>, i: int)
    requires
        0 <= i <= s.len(),
        forall|k: int| 0 <= k < w.len() ==> is_ws(#[trigger] w[k]),
    ensures
        ws_end(s + w, i) == if ws_end(s, i) < s.len() {
            ws_end(s, i)
        } else {
            s.len() + w.len() as int
        },
    decreases s.len() - i,
{
    let t = s + w;
    if i < s.len() {
        assert(t[i] == s[i]);
        if is_ws(s[i]) {
            lemma_ws_end_extend(s, w, i + 1);
        }
    } else {
        assert forall|k: int| i <= k < t.len() implies is_ws(#[trigger] t[k]) by {
            assert(t[k] == w[k - s.len()]);
        }
        lemma_ws_end_pass(t, i, t.len() as int);
    }
}

/// Appending whitespace never extends a digit run.
pub proof fn lemma_digits_end_extend(s: Seq<u8>, w: Seq<u8>, i: int)
    requires
        0 <= i <= s.len(),
        forall|k: int| 0 <= k < w.len() ==> is_ws(#[trigger] w[k]),
    ensures
        digits_end(s + w, i) == digits_end(s, i),
    decreases s.len() - i,
{
    let t = s + w;
    if i < s.len() {
        assert(t[i] == s[i]);
        if is_digit(s[i]) {
            lemma_digits_end_extend(s, w, i + 1);
        }
    } else {
        if i < t.len() {
            assert(t[i] == w[i - s.len()]);
        }
    }
}

/// Appending whitespace never extends an identifier run.
pub proof fn lemma_ident_end_extend(s: Seq<u8>, w: Seq<u8>, i: int)
    requires
        0 <= i <= s.len(),
        forall|k: int| 0 <= k < w.len() ==> is_ws(#[trigger] w[k]),
    ensures
        ident_end(s + w, i) == ident_end(s, i),
    decreases s.len() - i,
{
    let t = s + w;
    if i < s.len() {
        assert(t[i] == s[i]);
        if is_ident_cont(s[i]) {
            lemma_ident_end_extend(s, w, i + 1);
        }
    } else {
        if i < t.len() {
            assert(t[i] == w[i - s.len()]);
        }
    }
}

/// A position depends on the consumed prefix alone: appending text does not
/// change the location of an index inside the original input.
pub proof fn lemma_pos_at_prefix(s: Seq<u8>, w: Seq<u8>, j: int)
    requires
        0 <= j <= s.len(),
    ensures
        line_at(s + w, j) == line_at(s, j),
        col_at(s + w, j) == col_at(s, j),
        pos_at(s + w, j) == pos_at(s, j),
    decreases j,
{
    if j > 0 {
        assert((s + w)[j - 1] == s[j - 1]);
        lemma_pos_at_prefix(s, w, j - 1);
    }
}

/// The 1-based line number of the character at index `i`: one more than the
/// number of newlines among the first `i` characters.
pub open spec fn line_at(s: Seq<u8>, i: int) -> int
    decreases i,
{
    if i <= 0 {
        1
    } else {
        line_at(s, i - 1) + if 0 <= i - 1 < s.len() && s[i - 1] == 10 { 1int } else { 0int }
    }
}

/// The 1-based column of the character at index `i`: one more than the number
/// of characters between the last newline before `i` and `i` itself.
pub open spec fn col_at(s: Seq<u8>, i: int) -> int
    decreases i,
{
    if i <= 0 {
        1
    } else if 0 <= i - 1 < s.len() && s[i - 1] == 10 {
        1
    } else {
        col_at(s, i - 1) + 1
    }
}

/// The line/column location of the character at index `i`.
pub open spec fn pos_at(s: Seq<u8>, i: int) -> Position {
    Position { line: line_at(s, i) as usize, col: col_at(s, i) as usize }
}

pub proof fn lemma_line_col_bounds(s: Seq<u8>, i: int)
    requires
        0 <= i,
    ensures
        1 <= line_at(s, i) <= i + 1,
        1 <= col_at(s, i) <= i + 1,
    decreases i,
{
    if i > 0 {
        lemma_line_col_bounds(s, i - 1);
    }
}

/// Computes the line/column location of index `i` by scanning the consumed
/// prefix of the input.
pub fn position_at(s: &[u8], i: usize) -> (p: Position)
    requires
        i <= s@.len(),
        s@.len() < usize::MAX,
    ensures
        p == pos_at(s@, i as int),
{
    let mut state = ParserState::new();
    state.update(s, i);
    proof {
        lemma_line_col_bounds(s@, i as int);
    }
    Position { line: state.line, col: state.col }
}

/// A position-tracking cursor over the input: `pos` is the index of the
/// residual (not yet consumed) text, and `line`/`col` locate that index.
pub struct ParserState {
    pub pos: usize,
    pub line: usize,
    pub col: usize,
}

impl ParserState {
    /// The tracked line and column agree with the consumed prefix of `s`.
    pub open spec fn wf(&self, s: Seq<u8>) -> bool {
        &&& self.pos <= s.len()
        &&& self.line == line_at(s, self.pos as int)
        &&& self.col == col_at(s, self.pos as int)
    }

    /// A fresh state: nothing consumed yet, so line 1, column 1.
    pub fn new() -> (r: Self)
        ensures
            r.pos == 0,
            r.line == 1,
            r.col == 1,
            forall|s: Seq<u8>| r.wf(s),
    {
        ParserState { pos: 0, line: 1, col: 1 }
    }

    /// Advances the cursor to `new_pos`, walking the newly consumed span of
    /// `s` to keep the line and column exact.
    pub fn update(&mut self, s: &[u8], new_pos: usize)
        requires
            old(self).wf(s@),
            old(self).pos <= new_pos <= s@.len(),
            s@.len() < usize::MAX,
        ensures
            final(self).pos == new_pos,
            final(self).wf(s@),
    {
        proof {
            lemma_line_col_bounds(s@, new_pos as int);
        }
        let mut cur: usize = self.pos;
        let mut line: usize = self.line;
        let mut col: usize = self.col;
        while cur < new_pos
            invariant
                self.pos <= cur <= new_pos <= s@.len(),
                s@.len() < usize::MAX,
                line == line_at(s@, cur as int),
                col == col_at(s@, cur as int),
            decreases new_pos - cur,
        {
            proof {
                lemma_line_col_bounds(s@, cur as int + 1);
            }
            if s[cur] == 10 {
                line = line + 1;
                col = 1;
            } else {
                col = col + 1;
            }
            cur = cur + 1;
        }
        self.pos = new_pos;
        self.line = line;
        self.col = col;
    }
}

/// Why a parse failed, and where.
#[derive(Debug, Clone, PartialEq, Eq)]
pub enum ParseError {
    /// The grammar expected a token start but found an incompatible
    /// character, or the end of the input.
    UnexpectedCharacter { pos: Position },
    /// A grammatically valid digit run does not fit the target width.
    NumericOverflow { pos: Position, literal: Vec<u8> },
    /// Valid expressions stopped short of the end of the input.
    IncompleteParse { pos: Position },
}

/// Mathematical model of a [`ParseError`].
pub ghost enum ParseErrorV {
    UnexpectedCharacter { pos: Position },
    NumericOverflow { pos: Position, literal: Seq<u8> },
    IncompleteParse { pos: Position },
}

impl View for ParseError {
    type V = ParseErrorV;

    open spec fn view(&self) -> ParseErrorV {
        match self {
            ParseError::UnexpectedCharacter { pos } => ParseErrorV::UnexpectedCharacter {
                pos: *pos,
            },
            ParseError::NumericOverflow { pos, literal } => ParseErrorV::NumericOverflow {
                pos: *pos,
                literal: literal@,
            },
            ParseError::IncompleteParse { pos } => ParseErrorV::IncompleteParse { pos: *pos },
        }
    }
}

/// Equality of parse failures with positions disregarded.
pub open spec fn err_sim(a: ParseErrorV, b: ParseErrorV) -> bool {
    match (a, b) {
        (
            ParseErrorV::UnexpectedCharacter { .. },
            ParseErrorV::UnexpectedCharacter { .. },
        ) => true,
        (
            ParseErrorV::NumericOverflow { literal: x, .. },
            ParseErrorV::NumericOverflow { literal: y, .. },
        ) => x == y,
        (ParseErrorV::IncompleteParse { .. }, ParseErrorV::IncompleteParse { .. }) => true,
        _ => false,
    }
}

/// Consumes leading whitespace: returns the index of the first
/// non-whitespace byte at or after `i`.
pub fn drop_ws(s: &[u8], i: usize) -> (r: usize)
    requires
        i <= s@.len(),
    ensures
        r == ws_end(s@, i as int),
        i <= r <= s@.len(),
{
    proof {
        lemma_ws_end_bounds(s@, i as int);
    }
    let mut cur: usize = i;
    while cur < s.len() && (s[cur] == 32 || s[cur] == 9 || s[cur] == 10 || s[cur] == 13)
        invariant
            i <= cur <= s@.len(),
            ws_end(s@, i as int) == ws_end(s@, cur as int),
        decreases s@.len() - cur,
    {
        cur = cur + 1;
    }
    cur
}

} // verus!
