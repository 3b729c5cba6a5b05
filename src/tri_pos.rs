//! Positions on a triangular board and the six directional steps between them.
use vstd::prelude::*;

verus! {

/// The largest board side whose cell indices all fit in a `u8`.
pub const MAX_SIDE: u8 = 22;

/// Number of cells in the rows strictly above row `n`; also the number of
/// cells on a board of side `n`.
pub open spec fn tri(n: nat) -> nat
    decreases n,
{
    if n == 0 {
        0
    } else {
        tri((n - 1) as nat) + n
    }
}

/// A cell of a triangular board: row `line`, offset `pos` within that row,
/// on a board of `max_line` rows.
#[derive(Copy, Clone, Debug, PartialEq, Eq, Structural)]
pub struct TriPos {
    pub line: u8,
    pub pos: u8,
    pub max_line: u8,
}

/// Linear index of the cell at row `line`, offset `pos`.
pub open spec fn cell_index(line: nat, pos: nat) -> nat {
    tri(line) + pos
}

/// Step `dl` rows toward the apex and `dp` cells to the left.
pub open spec fn shifted_up(p: TriPos, dl: int, dp: int) -> Option<TriPos> {
    if dl <= p.line && dp <= p.pos && p.pos - dp <= p.line - dl {
        Some(TriPos { line: (p.line - dl) as u8, pos: (p.pos - dp) as u8, max_line: p.max_line })
    } else {
        None
    }
}

/// Step `dl` rows away from the apex and `dp` cells to the right.
pub open spec fn shifted_down(p: TriPos, dl: int, dp: int) -> Option<TriPos> {
    if p.line + dl < p.max_line && p.pos + dp <= p.line + dl {
        Some(TriPos { line: (p.line + dl) as u8, pos: (p.pos + dp) as u8, max_line: p.max_line })
    } else {
        None
    }
}

impl TriPos {
    /// The position lies on its board, and the board is small enough for
    /// every index to fit in a `u8`.
    pub open spec fn wf(self) -> bool {
        self.pos <= self.line < self.max_line <= MAX_SIDE
    }

    /// The linear index of the position.
    pub open spec fn index(self) -> nat {
        cell_index(self.line as nat, self.pos as nat)
    }

    /// The position at row `line`, offset `pos`, on a board of `max_line` rows.
    pub fn new(line: u8, pos: u8, max_line: u8) -> (r: Self)
        ensures
            r.line == line,
            r.pos == pos,
            r.max_line == max_line,
    {
        Self { line, pos, max_line }
    }

    /// The position's linear index.
    pub fn to_off(&self) -> (r: u8)
        requires
            self.wf(),
        ensures
            r == self.index(),
    {
        proof {
            lemma_tri_monotone(self.line as nat, 21);
            lemma_tri_closed(21);
        }
        line_to_offset(self.line) + self.pos
    }

    /// The position's linear index, for indexing per-cell arrays.
    pub fn to_idx(&self) -> (r: usize)
        requires
            self.wf(),
        ensures
            r == self.index(),
    {
        self.to_off() as usize
    }

    /// Moves `l_off` rows up and `p_off` cells left, if that stays on the board.
    fn move_ul(&self, l_off: u8, p_off: u8) -> (r: Option<Self>)
        ensures
            r == shifted_up(*self, l_off as int, p_off as int),
    {
        if l_off > self.line || p_off > self.pos {
            return None;
        }
        let res = Self { line: self.line - l_off, pos: self.pos - p_off, max_line: self.max_line };
        if res.pos > res.line {
            None
        } else {
            Some(res)
        }
    }

    /// Moves `l_off` rows down and `p_off` cells right, if that stays on the board.
    fn move_dr(&self, l_off: u8, p_off: u8) -> (r: Option<Self>)
        ensures
            r == shifted_down(*self, l_off as int, p_off as int),
    {
        let line = self.line as u16 + l_off as u16;
        let pos = self.pos as u16 + p_off as u16;
        if line >= self.max_line as u16 || pos > line {
            None
        } else {
            Some(Self { line: line as u8, pos: pos as u8, max_line: self.max_line })
        }
    }

    /// One step toward the apex, to the left.
    pub fn up_left(&self) -> (r: Option<Self>)
        ensures
            r == shifted_up(*self, 1, 1),
    {
        self.move_ul(1, 1)
    }

    /// One step toward the apex, to the right.
    pub fn up_right(&self) -> (r: Option<Self>)
        ensures
            r == shifted_up(*self, 1, 0),
    {
        self.move_ul(1, 0)
    }

    /// One step left within the row.
    pub fn left(&self) -> (r: Option<Self>)
        ensures
            r == shifted_up(*self, 0, 1),
    {
        self.move_ul(0, 1)
    }

    /// One step right within the row.
    pub fn right(&self) -> (r: Option<Self>)
        ensures
            r == shifted_down(*self, 0, 1),
    {
        self.move_dr(0, 1)
    }

    /// One step away from the apex, to the left.
    pub fn down_left(&self) -> (r: Option<Self>)
        ensures
            r == shifted_down(*self, 1, 0),
    {
        self.move_dr(1, 0)
    }

    /// One step away from the apex, to the right.
    pub fn down_right(&self) -> (r: Option<Self>)
        ensures
            r == shifted_down(*self, 1, 1),
    {
        self.move_dr(1, 1)
    }
}

/// Twice the count of cells above row `n` is `n * (n + 1)`.
pub proof fn lemma_tri_closed(n: nat)
    ensures
        2 * tri(n) == n * (n + 1),
    decreases n,
{
    if n > 0 {
        let m = (n - 1) as nat;
        lemma_tri_closed(m);
        assert(m * (m + 1) + 2 * n == n * (n + 1)) by (nonlinear_arith)
            requires m + 1 == n;
        assert(tri(n) == tri(m) + n);
        assert(2 * tri(n) == 2 * tri(m) + 2 * n);
    } else {
        assert(n * (n + 1) == 0) by (nonlinear_arith)
            requires n == 0;
    }
}

/// Row offsets grow with the row.
pub proof fn lemma_tri_monotone(a: nat, b: nat)
    requires
        a <= b,
    ensures
        tri(a) + (b - a) <= tri(b),
    decreases b - a,
{
    if a < b {
        lemma_tri_monotone(a, (b - 1) as nat);
    }
}

/// Each step, on a position of its board, is undone by the step in the
/// opposite direction whenever it succeeds.
pub proof fn lemma_steps_invert(p: TriPos)
    requires
        p.wf(),
    ensures
        shifted_up(p, 1, 1) is Some ==> shifted_down(shifted_up(p, 1, 1)->Some_0, 1, 1) == Some(p),
        shifted_down(p, 1, 1) is Some ==> shifted_up(shifted_down(p, 1, 1)->Some_0, 1, 1) == Some(p),
        shifted_up(p, 1, 0) is Some ==> shifted_down(shifted_up(p, 1, 0)->Some_0, 1, 0) == Some(p),
        shifted_down(p, 1, 0) is Some ==> shifted_up(shifted_down(p, 1, 0)->Some_0, 1, 0) == Some(p),
        shifted_up(p, 0, 1) is Some ==> shifted_down(shifted_up(p, 0, 1)->Some_0, 0, 1) == Some(p),
        shifted_down(p, 0, 1) is Some ==> shifted_up(shifted_down(p, 0, 1)->Some_0, 0, 1) == Some(p),
{
}

/// A position reached by any step from a position of the board is on the
/// board too.
pub proof fn lemma_steps_stay_on_board(p: TriPos, dl: int, dp: int)
    requires
        p.wf(),
        0 <= dl <= 1,
        0 <= dp <= 1,
    ensures
        shifted_up(p, dl, dp) is Some ==> shifted_up(p, dl, dp)->Some_0.wf(),
        shifted_down(p, dl, dp) is Some ==> shifted_down(p, dl, dp)->Some_0.wf(),
{
}

/// The cells of one row lie strictly before the cells of the next.
pub proof fn lemma_row_before_next(l: nat, o: nat)
    requires
        o <= l,
    ensures
        cell_index(l, o) < tri(l + 1),
{
    assert(tri(l + 1) == tri(l) + l + 1);
}

/// Some cell of a board of `side` rows has index `i`.
pub open spec fn index_in_use(side: nat, i: nat) -> bool {
    exists|l: nat, o: nat| o <= l < side && #[trigger] cell_index(l, o) == i
}

/// The linear index is a bijection between the cells of a board of `side`
/// rows and the range `[0, tri(side))`.
pub proof fn lemma_index_bijective(side: nat)
    ensures
        forall|l: nat, o: nat| o <= l < side ==> #[trigger] cell_index(l, o) < tri(side),
        forall|l1: nat, o1: nat, l2: nat, o2: nat|
            o1 <= l1 < side && o2 <= l2 < side && #[trigger] cell_index(l1, o1) == #[trigger] cell_index(l2, o2)
                ==> l1 == l2 && o1 == o2,
        forall|i: nat| i < tri(side) ==> #[trigger] index_in_use(side, i),
    decreases side,
{
    assert forall|l: nat, o: nat| o <= l < side implies #[trigger] cell_index(l, o) < tri(side) by {
        lemma_row_before_next(l, o);
        lemma_tri_monotone(l + 1, side);
    }
    assert forall|l1: nat, o1: nat, l2: nat, o2: nat|
        o1 <= l1 < side && o2 <= l2 < side && #[trigger] cell_index(l1, o1) == #[trigger] cell_index(l2, o2)
        implies l1 == l2 && o1 == o2 by {
        if l1 < l2 {
            lemma_row_before_next(l1, o1);
            lemma_tri_monotone(l1 + 1, l2);
        } else if l2 < l1 {
            lemma_row_before_next(l2, o2);
            lemma_tri_monotone(l2 + 1, l1);
        }
    }
    if side > 0 {
        let prev = (side - 1) as nat;
        lemma_index_bijective(prev);
        assert forall|i: nat| i < tri(side) implies #[trigger] index_in_use(side, i) by {
            if i < tri(prev) {
                assert(index_in_use(prev, i));
                let (l, o) = choose|l: nat, o: nat| o <= l < prev && #[trigger] cell_index(l, o) == i;
                assert(o <= l < side && cell_index(l, o) == i);
            } else {
                let o = (i - tri(prev)) as nat;
                assert(o <= prev < side && cell_index(prev, o) == i);
            }
        }
    }
}

/// Index of the first cell of row `line` (the number of cells above it).
pub fn line_to_offset(line: u8) -> (r: u8)
    requires
        line <= MAX_SIDE,
    ensures
        r == tri(line as nat),
{
    proof {
        lemma_tri_closed(line as nat);
    }
    let l = line as u16;
    assert(l * (l + 1) <= 22 * 23) by (nonlinear_arith)
        requires l <= 22;
    ((l * (l + 1)) / 2) as u8
}

} // verus!
