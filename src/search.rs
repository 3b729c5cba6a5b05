//! Exhaustive branch-and-bound search for the cheapest way to reduce a board
//! to a single peg.
use vstd::prelude::*;
use crate::ledger::{Moves, SENTINEL, ledger_score, lemma_score_monotone};
use crate::table::{table_cells_valid, table_view, move_table_view, is_move_table, build_move_table, lemma_table_view};
use crate::tri_pos::{MAX_SIDE, tri, lemma_tri_monotone, lemma_tri_closed};

verus! {

/// A board of this many cells has all its indices below `SENTINEL`.
pub const MAX_CELLS: usize = 253;

/// Number of pegs on a board.
pub open spec fn peg_count(b: Seq<bool>) -> nat
    decreases b.len(),
{
    if b.len() == 0 {
        0
    } else {
        peg_count(b.drop_last()) + if b.last() {
            1nat
        } else {
            0nat
        }
    }
}

/// The board after the peg on `s` jumps over `m` and lands on `l`.
pub open spec fn applied(b: Seq<bool>, s: int, m: int, l: int) -> Seq<bool> {
    b.update(s, false).update(m, false).update(l, true)
}

/// The board after the jump `s` over `m` to `l` is taken back.
pub open spec fn undone(b: Seq<bool>, s: int, m: int, l: int) -> Seq<bool> {
    b.update(s, true).update(m, true).update(l, false)
}

/// Entry `k` of the jump list of cell `s` can be played on `b`: the source
/// and midpoint hold pegs and the landing cell is empty.
pub open spec fn jump_legal(b: Seq<bool>, table: Seq<Seq<(u8, u8)>>, s: int, k: int) -> bool {
    &&& 0 <= s < table.len()
    &&& 0 <= k < table[s].len()
    &&& b[s]
    &&& b[table[s][k].0 as int]
    &&& !b[table[s][k].1 as int]
}

/// The first entry of `tail` is played by entry `k` of its source's jump list.
pub open spec fn first_jump_fits(b: Seq<bool>, table: Seq<Seq<(u8, u8)>>, tail: Seq<(u8, u8)>, k: int) -> bool {
    &&& tail.len() > 0
    &&& jump_legal(b, table, tail[0].0 as int, k)
    &&& table[tail[0].0 as int][k].1 == tail[0].1
}

/// The board after the first entry of `tail`, played by entry `k`.
pub open spec fn after_first(b: Seq<bool>, table: Seq<Seq<(u8, u8)>>, tail: Seq<(u8, u8)>, k: int) -> Seq<bool> {
    applied(b, tail[0].0 as int, table[tail[0].0 as int][k].0 as int, tail[0].1 as int)
}

/// Playing the jumps of `tail` in order, each legal when played, takes `b`
/// to a board with exactly one peg.
pub open spec fn solves(b: Seq<bool>, table: Seq<Seq<(u8, u8)>>, tail: Seq<(u8, u8)>) -> bool
    decreases tail.len(),
{
    if tail.len() == 0 {
        peg_count(b) == 1
    } else {
        exists|k: int|
            #[trigger] first_jump_fits(b, table, tail, k) && solves(after_first(b, table, tail, k), table, tail.drop_first())
    }
}

/// Score of an optional best solution; no solution counts as worse than any.
pub open spec fn best_score(best: Option<Moves>) -> int {
    match best {
        Some(m) => m.score as int,
        None => 256,
    }
}

/// Two optional solutions hold the same ledger and score.
pub open spec fn same_best(a: Option<Moves>, b: Option<Moves>) -> bool {
    match (a, b) {
        (None, None) => true,
        (Some(x), Some(y)) => x.score == y.score && x.moves@ == y.moves@,
        _ => false,
    }
}

/// `m` is a consistent ledger that extends `prefix` by jumps solving `b`.
pub open spec fn found_from(b: Seq<bool>, table: Seq<Seq<(u8, u8)>>, prefix: Seq<(u8, u8)>, m: Moves) -> bool {
    &&& m.wf()
    &&& exists|tail: Seq<(u8, u8)>| #[trigger] solves(b, table, tail) && m.moves@ == prefix + tail
}

/// Changing one cell changes the peg count by what that cell held.
pub proof fn lemma_count_update(b: Seq<bool>, i: int, v: bool)
    requires
        0 <= i < b.len(),
    ensures
        peg_count(b.update(i, v)) + (if b[i] { 1nat } else { 0nat }) == peg_count(b) + (if v { 1nat } else { 0nat }),
    decreases b.len(),
{
    if i == b.len() - 1 {
        assert(b.update(i, v).drop_last() =~= b.drop_last());
    } else {
        lemma_count_update(b.drop_last(), i, v);
        assert(b.update(i, v).drop_last() =~= b.drop_last().update(i, v));
    }
}

/// A jump removes exactly one peg from the board.
pub proof fn lemma_jump_count(b: Seq<bool>, s: int, m: int, l: int)
    requires
        0 <= s < b.len(),
        0 <= m < b.len(),
        0 <= l < b.len(),
        s != m,
        s != l,
        m != l,
        b[s],
        b[m],
        !b[l],
    ensures
        peg_count(applied(b, s, m, l)) + 1 == peg_count(b),
        peg_count(b) >= 2,
{
    let b1 = b.update(s, false);
    let b2 = b1.update(m, false);
    lemma_count_update(b, s, false);
    lemma_count_update(b1, m, false);
    lemma_count_update(b2, l, true);
}

/// Playing a jump and taking it back restores the board exactly, and pushing
/// an entry onto a ledger and popping it restores the ledger and its score.
pub proof fn lemma_apply_undo(b: Seq<bool>, s: int, m: int, l: int, ledger: Seq<(u8, u8)>, entry: (u8, u8))
    requires
        0 <= s < b.len(),
        0 <= m < b.len(),
        0 <= l < b.len(),
        s != m,
        s != l,
        m != l,
        b[s],
        b[m],
        !b[l],
    ensures
        undone(applied(b, s, m, l), s, m, l) == b,
        ledger.push(entry).drop_last() == ledger,
        ledger_score(ledger.push(entry).drop_last()) == ledger_score(ledger),
{
    assert(undone(applied(b, s, m, l), s, m, l) =~= b);
    assert(ledger.push(entry).drop_last() =~= ledger);
}

/// Plays the jump from `s` over `m` to `l`.
pub fn apply_jump(pegs: &mut Vec<bool>, s: usize, m: usize, l: usize)
    requires
        s < old(pegs)@.len(),
        m < old(pegs)@.len(),
        l < old(pegs)@.len(),
    ensures
        final(pegs)@ == applied(old(pegs)@, s as int, m as int, l as int),
{
    pegs.set(s, false);
    pegs.set(m, false);
    pegs.set(l, true);
}

/// Takes back the jump from `s` over `m` to `l`.
pub fn undo_jump(pegs: &mut Vec<bool>, s: usize, m: usize, l: usize)
    requires
        s < old(pegs)@.len(),
        m < old(pegs)@.len(),
        l < old(pegs)@.len(),
    ensures
        final(pegs)@ == undone(old(pegs)@, s as int, m as int, l as int),
{
    pegs.set(s, true);
    pegs.set(m, true);
    pegs.set(l, false);
}

/// Explores every jump sequence from `pegs`, which holds `left` pegs, and
/// records in `best` the cheapest complete ledger that extends `current`, if it
/// beats the one already there. With `prune`, a path is abandoned as soon as
/// it costs no less than the best found so far. The board and the ledger are
/// restored before returning.
pub fn solve_tri_solitair_rec(
    left: u8,
    pegs: &mut Vec<bool>,
    move_at_idx: &Vec<Vec<(u8, u8)>>,
    current: &mut Moves,
    best: &mut Option<Moves>,
    prune: bool,
)
    requires
        table_cells_valid(move_at_idx@),
        move_at_idx@.len() <= MAX_CELLS,
        old(pegs)@.len() == move_at_idx@.len(),
        left >= 1,
        left == peg_count(old(pegs)@),
        old(current).wf(),
        old(current).moves@.len() >= 1,
        old(current).moves@.len() + left <= 256,
    ensures
        final(pegs)@ == old(pegs)@,
        final(current).moves@ == old(current).moves@,
        final(current).score == old(current).score,
        best_score(*final(best)) <= best_score(*old(best)),
        best_score(*final(best)) == best_score(*old(best)) ==> same_best(*final(best), *old(best)),
        best_score(*final(best)) < best_score(*old(best)) ==> found_from(
            old(pegs)@,
            table_view(move_at_idx@),
            old(current).moves@,
            final(best)->Some_0,
        ),
        forall|tail: Seq<(u8, u8)>|
            #[trigger] solves(old(pegs)@, table_view(move_at_idx@), tail) ==> best_score(*final(best))
                <= ledger_score(old(current).moves@ + tail),
    decreases left,
{
    let ghost b0 = pegs@;
    let ghost cur0 = current.moves@;
    let ghost best0 = *best;
    let ghost tv = table_view(move_at_idx@);
    if left == 1 {
        let improves = match best {
            Some(b) => b.score > current.score,
            None => true,
        };
        if improves {
            *best = Some(current.snapshot());
            proof {
                assert(solves(b0, tv, Seq::<(u8, u8)>::empty()));
                assert(cur0 + Seq::<(u8, u8)>::empty() =~= cur0);
            }
        }
        proof {
            assert forall|tail: Seq<(u8, u8)>| #[trigger] solves(b0, tv, tail) implies best_score(*best)
                <= ledger_score(cur0 + tail) by {
                if tail.len() > 0 {
                    let k = choose|k: int| #[trigger] first_jump_fits(b0, tv, tail, k) && solves(after_first(b0, tv, tail, k), tv, tail.drop_first());
                    let s = tail[0].0 as int;
                    assert(tv[s] == move_at_idx@[s]@);
                    lemma_jump_count(b0, s, tv[s][k].0 as int, tv[s][k].1 as int);
                } else {
                    assert(cur0 + tail =~= cur0);
                }
            }
        }
        return;
    }
    if prune {
        if let Some(b) = best {
            if b.score <= current.score {
                proof {
                    assert forall|tail: Seq<(u8, u8)>| #[trigger] solves(b0, tv, tail) implies best_score(*best)
                        <= ledger_score(cur0 + tail) by {
                        lemma_score_monotone(cur0, tail);
                    }
                }
                return;
            }
        }
    }
    let n = pegs.len();
    let mut idx: usize = 0;
    while idx < n
        invariant
            table_cells_valid(move_at_idx@),
            move_at_idx@.len() <= MAX_CELLS,
            n == pegs@.len(),
            n == move_at_idx@.len(),
            tv == table_view(move_at_idx@),
            pegs@ == b0,
            left >= 2,
            left == peg_count(b0),
            current.wf(),
            current.moves@ == cur0,
            cur0.len() >= 1,
            cur0.len() + left <= 256,
            idx <= n,
            best_score(*best) <= best_score(best0),
            best_score(*best) == best_score(best0) ==> same_best(*best, best0),
            best_score(*best) < best_score(best0) ==> found_from(b0, tv, cur0, best->Some_0),
            forall|tail: Seq<(u8, u8)>|
                #[trigger] solves(b0, tv, tail) && tail.len() > 0 && tail[0].0 < idx ==> best_score(*best)
                    <= ledger_score(cur0 + tail),
        decreases n - idx,
    {
        if pegs[idx] {
            let jumps = &move_at_idx[idx];
            let mut j: usize = 0;
            while j < jumps.len()
                invariant
                    table_cells_valid(move_at_idx@),
                    move_at_idx@.len() <= MAX_CELLS,
                    n == pegs@.len(),
                    n == move_at_idx@.len(),
                    tv == table_view(move_at_idx@),
                    idx < n,
                    *jumps == move_at_idx@[idx as int],
                    b0[idx as int],
                    pegs@ == b0,
                    left >= 2,
                    left == peg_count(b0),
                    current.wf(),
                    current.moves@ == cur0,
                    cur0.len() >= 1,
                    cur0.len() + left <= 256,
                    j <= jumps@.len(),
                    best_score(*best) <= best_score(best0),
                    best_score(*best) == best_score(best0) ==> same_best(*best, best0),
                    best_score(*best) < best_score(best0) ==> found_from(b0, tv, cur0, best->Some_0),
                    forall|tail: Seq<(u8, u8)>|
                        #[trigger] solves(b0, tv, tail) && tail.len() > 0 && tail[0].0 < idx ==> best_score(*best)
                            <= ledger_score(cur0 + tail),
                    forall|tail: Seq<(u8, u8)>, k: int|
                        0 <= k < j && #[trigger] first_jump_fits(b0, tv, tail, k) && tail[0].0 == idx && solves(
                            after_first(b0, tv, tail, k),
                            tv,
                            tail.drop_first(),
                        ) ==> best_score(*best) <= ledger_score(cur0 + tail),
                decreases jumps@.len() - j,
            {
                let (mid, target) = jumps[j];
                let mid = mid as usize;
                let target = target as usize;
                assert(tv[idx as int] == jumps@);
                if pegs[mid] && !pegs[target] {
                    let ghost best_before = *best;
                    let ghost b1 = applied(b0, idx as int, mid as int, target as int);
                    proof {
                        lemma_jump_count(b0, idx as int, mid as int, target as int);
                        lemma_apply_undo(b0, idx as int, mid as int, target as int, cur0, (idx as u8, target as u8));
                    }
                    apply_jump(pegs, idx, mid, target);
                    current.push_jump(idx as u8, target as u8);
                    let ghost cur1 = current.moves@;
                    solve_tri_solitair_rec(left - 1, pegs, move_at_idx, current, best, prune);
                    current.pop_jump();
                    undo_jump(pegs, idx, mid, target);
                    proof {
                        assert(cur1 == cur0.push((idx as u8, target as u8)));
                        if best_score(*best) < best_score(best_before) {
                            let m = best->Some_0;
                            let tail2 = choose|tail2: Seq<(u8, u8)>| #[trigger] solves(b1, tv, tail2) && m.moves@ == cur1 + tail2;
                            let tail = seq![(idx as u8, target as u8)] + tail2;
                            assert(tail.drop_first() =~= tail2);
                            assert(first_jump_fits(b0, tv, tail, j as int));
                            assert(after_first(b0, tv, tail, j as int) == b1);
                            assert(solves(b0, tv, tail));
                            assert(m.moves@ =~= cur0 + tail);
                        }
                        assert forall|tail: Seq<(u8, u8)>, k: int|
                            0 <= k < j + 1 && #[trigger] first_jump_fits(b0, tv, tail, k) && tail[0].0 == idx && solves(
                                after_first(b0, tv, tail, k),
                                tv,
                                tail.drop_first(),
                            ) implies best_score(*best) <= ledger_score(cur0 + tail) by {
                            if k == j {
                                assert(after_first(b0, tv, tail, k) == b1);
                                assert(solves(b1, tv, tail.drop_first()));
                                assert(cur1 + tail.drop_first() =~= cur0 + tail);
                            }
                        }
                    }
                } else {
                    proof {
                        assert forall|tail: Seq<(u8, u8)>, k: int|
                            0 <= k < j + 1 && #[trigger] first_jump_fits(b0, tv, tail, k) && tail[0].0 == idx && solves(
                                after_first(b0, tv, tail, k),
                                tv,
                                tail.drop_first(),
                            ) implies best_score(*best) <= ledger_score(cur0 + tail) by {
                        }
                    }
                }
                j = j + 1;
            }
            proof {
                assert forall|tail: Seq<(u8, u8)>|
                    #[trigger] solves(b0, tv, tail) && tail.len() > 0 && tail[0].0 < idx + 1 implies best_score(*best)
                        <= ledger_score(cur0 + tail) by {
                    if tail[0].0 == idx {
                        let k = choose|k: int| #[trigger] first_jump_fits(b0, tv, tail, k) && solves(after_first(b0, tv, tail, k), tv, tail.drop_first());
                    }
                }
            }
        } else {
            proof {
                assert forall|tail: Seq<(u8, u8)>|
                    #[trigger] solves(b0, tv, tail) && tail.len() > 0 && tail[0].0 < idx + 1 implies best_score(*best)
                        <= ledger_score(cur0 + tail) by {
                    if tail[0].0 == idx {
                        let k = choose|k: int| #[trigger] first_jump_fits(b0, tv, tail, k) && solves(after_first(b0, tv, tail, k), tv, tail.drop_first());
                    }
                }
            }
        }
        idx = idx + 1;
    }
    proof {
        assert forall|tail: Seq<(u8, u8)>| #[trigger] solves(b0, tv, tail) implies best_score(*best)
            <= ledger_score(cur0 + tail) by {
            if tail.len() > 0 {
                let k = choose|k: int| #[trigger] first_jump_fits(b0, tv, tail, k) && solves(after_first(b0, tv, tail, k), tv, tail.drop_first());
            }
        }
    }
}

/// A board of `n` cells, all holding pegs but the hole `h`.
pub open spec fn start_board(n: nat, h: int) -> Seq<bool> {
    Seq::new(n, |i: int| i != h)
}

/// If there is a result, it is a consistent ledger that opens on one of
/// `openings` and then solves the board of `side` rows with that hole.
pub open spec fn sound_result(side: nat, openings: Seq<u8>, r: Option<Moves>) -> bool {
    r is Some ==> exists|i: int|
        0 <= i < openings.len() && #[trigger] found_from(
            start_board(tri(side), openings[i] as int),
            move_table_view(side),
            seq![(SENTINEL, openings[i])],
            r->Some_0,
        )
}

/// The result scores no worse than any solution from any of `openings`.
pub open spec fn complete_result(side: nat, openings: Seq<u8>, r: Option<Moves>) -> bool {
    forall|i: int, tail: Seq<(u8, u8)>|
        0 <= i < openings.len() && #[trigger] solves(
            start_board(tri(side), openings[i] as int),
            move_table_view(side),
            tail,
        ) ==> best_score(r) <= ledger_score(seq![(SENTINEL, openings[i])] + tail)
}

/// The opening holes tried for each supported board size.
pub open spec fn opening_cells(side: nat) -> Seq<u8> {
    if side == 4 {
        seq![0u8, 1u8, 4u8]
    } else if side == 5 {
        seq![0u8, 1u8, 3u8, 4u8]
    } else {
        seq![]
    }
}

/// The smallest board size that the search is run on.
pub const MIN_SIDE: u8 = 4;

/// The largest board size with known opening holes.
pub const MAX_SOLVED_SIDE: u8 = 5;

/// Why a board size cannot be searched.
#[derive(Debug, PartialEq, Eq, Structural)]
pub enum SolveError {
    /// No set of opening holes is known for this board size.
    UnsupportedSize(u8),
}

/// A full board has as many pegs as cells.
pub proof fn lemma_count_full(n: nat)
    ensures
        peg_count(Seq::new(n, |i: int| true)) == n,
    decreases n,
{
    if n > 0 {
        lemma_count_full((n - 1) as nat);
        assert(Seq::new(n, |i: int| true).drop_last() =~= Seq::new((n - 1) as nat, |i: int| true));
    }
}

/// Pruning never changes the best score: any two results that are both sound
/// and complete for the same board and openings, such as the searches with
/// and without pruning, have equal scores.
pub proof fn lemma_pruning_keeps_best_score(side: nat, openings: Seq<u8>, a: Option<Moves>, b: Option<Moves>)
    requires
        sound_result(side, openings, a),
        complete_result(side, openings, a),
        sound_result(side, openings, b),
        complete_result(side, openings, b),
    ensures
        best_score(a) == best_score(b),
{
    let tv = move_table_view(side);
    if a is Some {
        let i = choose|i: int|
            0 <= i < openings.len() && #[trigger] found_from(start_board(tri(side), openings[i] as int), tv, seq![(SENTINEL, openings[i])], a->Some_0);
        let tail = choose|tail: Seq<(u8, u8)>|
            #[trigger] solves(start_board(tri(side), openings[i] as int), tv, tail) && (a->Some_0).moves@ == seq![(SENTINEL, openings[i])] + tail;
        assert(best_score(b) <= ledger_score(seq![(SENTINEL, openings[i])] + tail));
    }
    if b is Some {
        let i = choose|i: int|
            0 <= i < openings.len() && #[trigger] found_from(start_board(tri(side), openings[i] as int), tv, seq![(SENTINEL, openings[i])], b->Some_0);
        let tail = choose|tail: Seq<(u8, u8)>|
            #[trigger] solves(start_board(tri(side), openings[i] as int), tv, tail) && (b->Some_0).moves@ == seq![(SENTINEL, openings[i])] + tail;
        assert(best_score(a) <= ledger_score(seq![(SENTINEL, openings[i])] + tail));
    }
}

/// A board of at most one cell offers no solution from any hole.
proof fn lemma_no_solution_below_two_rows(side: nat, openings: Seq<u8>)
    requires
        side < 2,
        forall|i: int| 0 <= i < openings.len() ==> (#[trigger] openings[i]) < tri(side),
    ensures
        complete_result(side, openings, None),
{
    reveal_with_fuel(tri, 2);
    assert forall|i: int, tail: Seq<(u8, u8)>|
        0 <= i < openings.len() && #[trigger] solves(start_board(tri(side), openings[i] as int), move_table_view(side), tail)
        implies best_score(None) <= ledger_score(seq![(SENTINEL, openings[i])] + tail) by {
        let b = start_board(tri(side), openings[i] as int);
        assert(side == 1 && tri(side) == 1);
        assert(openings[i] == 0);
        assert(b.len() == 1 && !b[0]);
        assert(b.drop_last() =~= Seq::<bool>::empty());
        assert(peg_count(Seq::<bool>::empty()) == 0);
        assert(peg_count(b) == 0);
        if tail.len() > 0 {
            let k = choose|k: int| #[trigger] first_jump_fits(b, move_table_view(side), tail, k) && solves(after_first(b, move_table_view(side), tail, k), move_table_view(side), tail.drop_first());
        }
    }
}

/// Searches the board of `side` rows from each opening hole in turn and
/// returns the cheapest complete ledger found; the first one found wins ties.
/// A board of fewer than two rows has no jump, and no solution.
pub fn search_openings(side: u8, openings: &Vec<u8>, prune: bool) -> (r: Option<Moves>)
    requires
        side <= MAX_SIDE,
        forall|i: int| 0 <= i < openings@.len() ==> (#[trigger] openings@[i]) < tri(side as nat),
    ensures
        sound_result(side as nat, openings@, r),
        complete_result(side as nat, openings@, r),
{
    if side < 2 {
        proof {
            lemma_no_solution_below_two_rows(side as nat, openings@);
        }
        return None;
    }
    let table = build_move_table(side);
    let ghost tv = move_table_view(side as nat);
    proof {
        lemma_table_view(side as nat, table@);
        lemma_tri_monotone(side as nat, 22);
        lemma_tri_closed(22);
        lemma_tri_monotone(2, side as nat);
        reveal_with_fuel(tri, 3);
        assert(tri(2) == 3);
    }
    let num = table.len();
    let mut best: Option<Moves> = None;
    let mut i: usize = 0;
    while i < openings.len()
        invariant
            2 <= side <= MAX_SIDE,
            forall|i: int| 0 <= i < openings@.len() ==> (#[trigger] openings@[i]) < tri(side as nat),
            is_move_table(side as nat, table@),
            table_view(table@) == tv,
            tv == move_table_view(side as nat),
            num == tri(side as nat),
            3 <= num <= MAX_CELLS,
            i <= openings@.len(),
            best is Some ==> exists|i2: int|
                0 <= i2 < i && #[trigger] found_from(
                    start_board(tri(side as nat), openings@[i2] as int),
                    tv,
                    seq![(SENTINEL, openings@[i2])],
                    best->Some_0,
                ),
            forall|i2: int, tail: Seq<(u8, u8)>|
                0 <= i2 < i && #[trigger] solves(start_board(tri(side as nat), openings@[i2] as int), tv, tail)
                    ==> best_score(best) <= ledger_score(seq![(SENTINEL, openings@[i2])] + tail),
        decreases openings@.len() - i,
    {
        let hole = openings[i];
        let mut pegs: Vec<bool> = Vec::new();
        let mut c: usize = 0;
        while c < num
            invariant
                c <= num,
                pegs@ == Seq::new(c as nat, |k: int| true),
            decreases num - c,
        {
            pegs.push(true);
            c = c + 1;
            assert(pegs@ =~= Seq::new(c as nat, |k: int| true));
        }
        proof {
            lemma_count_full(num as nat);
            lemma_count_update(pegs@, hole as int, false);
        }
        pegs.set(hole as usize, false);
        let ghost b0 = pegs@;
        assert(b0 =~= start_board(tri(side as nat), hole as int));
        let mut moves = Moves::opening(hole);
        let ghost best_before = best;
        solve_tri_solitair_rec((num - 1) as u8, &mut pegs, &table, &mut moves, &mut best, prune);
        proof {
            if best_score(best) < best_score(best_before) {
                assert(found_from(start_board(tri(side as nat), openings@[i as int] as int), tv, seq![(SENTINEL, openings@[i as int])], best->Some_0));
            } else if best is Some {
                let i2 = choose|i2: int|
                    0 <= i2 < i && #[trigger] found_from(
                        start_board(tri(side as nat), openings@[i2] as int),
                        tv,
                        seq![(SENTINEL, openings@[i2])],
                        best_before->Some_0,
                    );
                let pre = seq![(SENTINEL, openings@[i2])];
                let w = choose|tail: Seq<(u8, u8)>| #[trigger] solves(start_board(tri(side as nat), openings@[i2] as int), tv, tail) && (best_before->Some_0).moves@ == pre + tail;
                assert(found_from(start_board(tri(side as nat), openings@[i2] as int), tv, pre, best->Some_0));
            }
        }
        i = i + 1;
    }
    best
}

/// Searches a board of `side` rows from its hand-picked opening holes. Boards
/// smaller than `MIN_SIDE` have nothing to search; sizes without known
/// openings are refused.
pub fn solve_tri_solitair(side: u8) -> (r: Result<Option<Moves>, SolveError>)
    ensures
        side < MIN_SIDE ==> r is Ok && r->Ok_0 is None,
        side > MAX_SOLVED_SIDE ==> r == Err::<Option<Moves>, SolveError>(SolveError::UnsupportedSize(side)),
        MIN_SIDE <= side <= MAX_SOLVED_SIDE ==> r is Ok && sound_result(side as nat, opening_cells(side as nat), r->Ok_0)
            && complete_result(side as nat, opening_cells(side as nat), r->Ok_0),
{
    let openings: Vec<u8> = if side < MIN_SIDE {
        return Ok(None);
    } else if side == 4 {
        vec![0, 1, 4]
    } else if side == 5 {
        vec![0, 1, 3, 4]
    } else {
        return Err(SolveError::UnsupportedSize(side));
    };
    assert(openings@ == opening_cells(side as nat));
    proof {
        reveal_with_fuel(tri, 6);
    }
    Ok(search_openings(side, &openings, true))
}

} // verus!
