//! Per-cell tables of the jumps that the board's geometry allows.
use vstd::prelude::*;
use crate::tri_pos::{
    TriPos, MAX_SIDE, tri, cell_index, shifted_up, shifted_down, lemma_steps_stay_on_board,
    lemma_index_bijective, index_in_use,
};

verus! {

/// The step in direction `d`, in the order in which the table lists them:
/// toward the apex left and right, sideways right and left, away from the
/// apex left and right.
pub open spec fn neighbor(p: TriPos, d: int) -> Option<TriPos> {
    if d == 0 {
        shifted_up(p, 1, 1)
    } else if d == 1 {
        shifted_up(p, 1, 0)
    } else if d == 2 {
        shifted_down(p, 0, 1)
    } else if d == 3 {
        shifted_up(p, 0, 1)
    } else if d == 4 {
        shifted_down(p, 1, 0)
    } else {
        shifted_down(p, 1, 1)
    }
}

/// The jump from `p` in direction `d`, as (midpoint index, landing index),
/// if two steps that way stay on the board.
pub open spec fn jump_in(p: TriPos, d: int) -> Seq<(u8, u8)> {
    match neighbor(p, d) {
        Some(q) => match neighbor(q, d) {
            Some(t) => seq![(q.index() as u8, t.index() as u8)],
            None => seq![],
        },
        None => seq![],
    }
}

/// The jumps from `p` in the first `n` directions, in direction order.
pub open spec fn jumps_upto(p: TriPos, n: nat) -> Seq<(u8, u8)>
    decreases n,
{
    if n == 0 {
        seq![]
    } else {
        jumps_upto(p, (n - 1) as nat) + jump_in(p, n - 1)
    }
}

/// Every jump that starts at `p`.
pub open spec fn jumps_of(p: TriPos) -> Seq<(u8, u8)> {
    jumps_upto(p, 6)
}

/// Every midpoint and landing cell listed in the table is a cell of the
/// board, and a jump's source, midpoint and landing cell are three cells.
pub open spec fn table_cells_valid(table: Seq<Vec<(u8, u8)>>) -> bool {
    forall|i: int, k: int|
        0 <= i < table.len() && 0 <= k < table[i]@.len() ==> {
            &&& (#[trigger] table[i]@[k]).0 < table.len()
            &&& table[i]@[k].1 < table.len()
            &&& table[i]@[k].0 != i
            &&& table[i]@[k].1 != i
            &&& table[i]@[k].0 != table[i]@[k].1
        }
}

/// The jump table of a board of `side` rows: one entry per cell, in index
/// order, holding that cell's jumps.
pub open spec fn is_move_table(side: nat, table: Seq<Vec<(u8, u8)>>) -> bool {
    &&& table.len() == tri(side)
    &&& forall|l: nat, o: nat|
        o <= l < side ==> (#[trigger] table[cell_index(l, o) as int])@ == jumps_of(
            TriPos { line: l as u8, pos: o as u8, max_line: side as u8 },
        )
    &&& forall|i: int| 0 <= i < table.len() ==> (#[trigger] table[i])@.len() <= 6
    &&& table_cells_valid(table)
}

/// The table as a sequence of jump lists.
pub open spec fn table_view(table: Seq<Vec<(u8, u8)>>) -> Seq<Seq<(u8, u8)>> {
    table.map_values(|v: Vec<(u8, u8)>| v@)
}

/// The cell of a board of `side` rows whose index is `i`.
pub open spec fn cell_at(side: nat, i: int) -> TriPos {
    choose|p: TriPos| p.wf() && p.max_line == side && p.index() == i
}

/// The jump lists of a board of `side` rows, one per cell in index order.
pub open spec fn move_table_view(side: nat) -> Seq<Seq<(u8, u8)>> {
    Seq::new(tri(side), |i: int| jumps_of(cell_at(side, i)))
}

/// Any table built for `side` lists exactly the board's jumps.
pub proof fn lemma_table_view(side: nat, table: Seq<Vec<(u8, u8)>>)
    requires
        side <= MAX_SIDE,
        is_move_table(side, table),
    ensures
        table_view(table) == move_table_view(side),
{
    lemma_index_bijective(side);
    assert forall|i: int| 0 <= i < tri(side) implies table_view(table)[i] == #[trigger] move_table_view(side)[i] by {
        assert(index_in_use(side, i as nat));
        let (l, o) = choose|l: nat, o: nat| o <= l < side && #[trigger] cell_index(l, o) == i;
        let w = TriPos { line: l as u8, pos: o as u8, max_line: side as u8 };
        assert(w.wf() && w.max_line == side && w.index() == i);
        let p = cell_at(side, i);
        assert(p.wf() && p.max_line == side && p.index() == i);
        assert(cell_index(p.line as nat, p.pos as nat) == cell_index(l, o));
        assert(p == w);
    }
    assert(table_view(table) =~= move_table_view(side));
}

fn step_dir(p: &TriPos, d: u8) -> (r: Option<TriPos>)
    requires
        d < 6,
    ensures
        r == neighbor(*p, d as int),
{
    if d == 0 {
        p.up_left()
    } else if d == 1 {
        p.up_right()
    } else if d == 2 {
        p.right()
    } else if d == 3 {
        p.left()
    } else if d == 4 {
        p.down_left()
    } else {
        p.down_right()
    }
}

/// The jumps that start at `p`, in direction order.
pub fn cell_jumps(p: TriPos) -> (r: Vec<(u8, u8)>)
    requires
        p.wf(),
    ensures
        r@ == jumps_of(p),
        r@.len() <= 6,
        forall|k: int| 0 <= k < r@.len() ==> (#[trigger] r@[k]).0 < tri(p.max_line as nat) && r@[k].1 < tri(p.max_line as nat),
        forall|k: int|
            0 <= k < r@.len() ==> (#[trigger] r@[k]).0 != p.index() && r@[k].1 != p.index() && r@[k].0 != r@[k].1,
{
    let ghost side = p.max_line as nat;
    proof {
        lemma_index_bijective(side);
    }
    let mut v: Vec<(u8, u8)> = Vec::new();
    let mut d: u8 = 0;
    while d < 6
        invariant
            p.wf(),
            side == p.max_line,
            d <= 6,
            v@ == jumps_upto(p, d as nat),
            v@.len() <= d,
            forall|l: nat, o: nat| o <= l < side ==> #[trigger] cell_index(l, o) < tri(side),
            forall|k: int| 0 <= k < v@.len() ==> (#[trigger] v@[k]).0 < tri(side) && v@[k].1 < tri(side),
            forall|k: int|
                0 <= k < v@.len() ==> (#[trigger] v@[k]).0 != p.index() && v@[k].1 != p.index() && v@[k].0 != v@[k].1,
            forall|l1: nat, o1: nat, l2: nat, o2: nat|
                o1 <= l1 < side && o2 <= l2 < side && #[trigger] cell_index(l1, o1) == #[trigger] cell_index(l2, o2)
                    ==> l1 == l2 && o1 == o2,
        decreases 6 - d,
    {
        proof {
            lemma_steps_stay_on_board(p, 1, 1);
            lemma_steps_stay_on_board(p, 1, 0);
            lemma_steps_stay_on_board(p, 0, 1);
        }
        if let Some(q) = step_dir(&p, d) {
            proof {
                lemma_steps_stay_on_board(q, 1, 1);
                lemma_steps_stay_on_board(q, 1, 0);
                lemma_steps_stay_on_board(q, 0, 1);
            }
            if let Some(t) = step_dir(&q, d) {
                let mid = q.to_off();
                let land = t.to_off();
                assert(cell_index(q.line as nat, q.pos as nat) < tri(side));
                assert(cell_index(t.line as nat, t.pos as nat) < tri(side));
                assert(q.line != p.line || q.pos != p.pos);
                assert(t.line != p.line || t.pos != p.pos);
                assert(t.line != q.line || t.pos != q.pos);
                assert(cell_index(q.line as nat, q.pos as nat) != cell_index(p.line as nat, p.pos as nat));
                assert(cell_index(t.line as nat, t.pos as nat) != cell_index(p.line as nat, p.pos as nat));
                assert(cell_index(t.line as nat, t.pos as nat) != cell_index(q.line as nat, q.pos as nat));
                v.push((mid, land));
            }
        }
        d = d + 1;
    }
    v
}

/// Builds the jump table of a board of `side` rows.
pub fn build_move_table(side: u8) -> (r: Vec<Vec<(u8, u8)>>)
    requires
        side <= MAX_SIDE,
    ensures
        is_move_table(side as nat, r@),
{
    let ghost s = side as nat;
    proof {
        lemma_index_bijective(s);
    }
    let mut table: Vec<Vec<(u8, u8)>> = Vec::new();
    let mut l: u8 = 0;
    while l < side
        invariant
            side <= MAX_SIDE,
            s == side,
            l <= side,
            table@.len() == tri(l as nat),
            forall|l1: nat, o1: nat| o1 <= l1 < s ==> #[trigger] cell_index(l1, o1) < tri(s),
            forall|l1: nat, o1: nat, l2: nat, o2: nat|
                o1 <= l1 < s && o2 <= l2 < s && #[trigger] cell_index(l1, o1) == #[trigger] cell_index(l2, o2)
                    ==> l1 == l2 && o1 == o2,
            forall|l1: nat, o1: nat|
                o1 <= l1 < s && cell_index(l1, o1) < table@.len() ==> (#[trigger] table@[cell_index(l1, o1) as int])@
                    == jumps_of(TriPos { line: l1 as u8, pos: o1 as u8, max_line: side }),
            forall|i: int| 0 <= i < table@.len() ==> (#[trigger] table@[i])@.len() <= 6,
            forall|i: int, k: int|
                0 <= i < table@.len() && 0 <= k < table@[i]@.len() ==> (#[trigger] table@[i]@[k]).0 < tri(s)
                    && table@[i]@[k].1 < tri(s) && table@[i]@[k].0 != i && table@[i]@[k].1 != i
                    && table@[i]@[k].0 != table@[i]@[k].1,
        decreases side - l,
    {
        let mut n: u8 = 0;
        while n <= l
            invariant
                side <= MAX_SIDE,
                s == side,
                l < side,
                n <= l + 1,
                table@.len() == tri(l as nat) + n,
                forall|l1: nat, o1: nat| o1 <= l1 < s ==> #[trigger] cell_index(l1, o1) < tri(s),
                forall|l1: nat, o1: nat, l2: nat, o2: nat|
                    o1 <= l1 < s && o2 <= l2 < s && #[trigger] cell_index(l1, o1) == #[trigger] cell_index(l2, o2)
                        ==> l1 == l2 && o1 == o2,
                forall|l1: nat, o1: nat|
                    o1 <= l1 < s && cell_index(l1, o1) < table@.len() ==> (#[trigger] table@[cell_index(l1, o1) as int])@
                        == jumps_of(TriPos { line: l1 as u8, pos: o1 as u8, max_line: side }),
                forall|i: int| 0 <= i < table@.len() ==> (#[trigger] table@[i])@.len() <= 6,
                forall|i: int, k: int|
                    0 <= i < table@.len() && 0 <= k < table@[i]@.len() ==> (#[trigger] table@[i]@[k]).0 < tri(s)
                        && table@[i]@[k].1 < tri(s) && table@[i]@[k].0 != i && table@[i]@[k].1 != i
                        && table@[i]@[k].0 != table@[i]@[k].1,
            decreases l + 1 - n,
        {
            let pos = TriPos::new(l, n, side);
            let jumps = cell_jumps(pos);
            let ghost before = table@;
            assert(cell_index(l as nat, n as nat) == before.len());
            table.push(jumps);
            assert forall|l1: nat, o1: nat|
                o1 <= l1 < s && cell_index(l1, o1) < table@.len() implies (#[trigger] table@[cell_index(l1, o1) as int])@
                    == jumps_of(TriPos { line: l1 as u8, pos: o1 as u8, max_line: side }) by {
                if cell_index(l1, o1) == before.len() {
                    assert(cell_index(l1, o1) == cell_index(l as nat, n as nat));
                } else {
                    assert(table@[cell_index(l1, o1) as int] == before[cell_index(l1, o1) as int]);
                }
            }
            n = n + 1;
        }
        assert(tri(l as nat + 1) == tri(l as nat) + l + 1);
        l = l + 1;
    }
    table
}

} // verus!
