//! The ledger of jumps on the current search path, and its score.
use vstd::prelude::*;

verus! {

/// Source recorded for the opening entry, which vacates a cell without a jump.
pub const SENTINEL: u8 = 255;

/// What a jump from `src` costs after the jumps in `moves`: nothing when the
/// same peg continues the previous jump, one otherwise.
pub open spec fn cost_after(moves: Seq<(u8, u8)>, src: u8) -> nat {
    if moves.len() > 0 && moves.last().1 == src && moves.last().0 != SENTINEL {
        0
    } else {
        1
    }
}

/// Score of a ledger: the number of its jumps (every entry after the first)
/// that do not continue the previous jump with the same peg.
pub open spec fn ledger_score(moves: Seq<(u8, u8)>) -> nat
    decreases moves.len(),
{
    if moves.len() <= 1 {
        0
    } else {
        ledger_score(moves.drop_last()) + cost_after(moves.drop_last(), moves.last().0)
    }
}

/// The ledger of a search path: the opening entry `(SENTINEL, hole)` followed
/// by each jump as (source, destination), with the path's running score.
#[derive(Debug)]
pub struct Moves {
    pub score: u8,
    pub moves: Vec<(u8, u8)>,
}

impl Moves {
    /// The running score agrees with the entries.
    pub open spec fn wf(&self) -> bool {
        self.score == ledger_score(self.moves@)
    }

    pub fn new() -> (r: Self)
        ensures
            r.moves@ == Seq::<(u8, u8)>::empty(),
            r.score == 0,
            r.wf(),
    {
        Self { score: 0, moves: Vec::new() }
    }

    /// A ledger holding only the opening entry, which vacates `hole`.
    pub fn opening(hole: u8) -> (r: Self)
        ensures
            r.moves@ == seq![(SENTINEL, hole)],
            r.score == 0,
            r.wf(),
    {
        let mut moves: Vec<(u8, u8)> = Vec::new();
        moves.push((SENTINEL, hole));
        Self { score: 0, moves }
    }

    /// What a jump from `src` would cost next.
    pub fn cost_of(&self, src: u8) -> (r: u8)
        ensures
            r == cost_after(self.moves@, src),
    {
        let n = self.moves.len();
        if n > 0 && self.moves[n - 1].1 == src && self.moves[n - 1].0 != SENTINEL {
            0
        } else {
            1
        }
    }

    /// Records the jump `src -> dst` and adds its cost to the score.
    pub fn push_jump(&mut self, src: u8, dst: u8) -> (cost: u8)
        requires
            old(self).wf(),
            0 < old(self).moves@.len() < 256,
        ensures
            final(self).moves@ == old(self).moves@.push((src, dst)),
            cost == cost_after(old(self).moves@, src),
            final(self).score == old(self).score + cost,
            final(self).wf(),
    {
        proof {
            lemma_score_bounded(self.moves@);
            let pushed = self.moves@.push((src, dst));
            assert(pushed.drop_last() =~= self.moves@);
        }
        let cost = self.cost_of(src);
        self.score = self.score + cost;
        self.moves.push((src, dst));
        cost
    }

    /// Removes the last entry and takes its cost back off the score.
    pub fn pop_jump(&mut self)
        requires
            old(self).wf(),
            old(self).moves@.len() > 0,
        ensures
            final(self).moves@ == old(self).moves@.drop_last(),
            final(self).wf(),
    {
        let last = self.moves.pop();
        let n = self.moves.len();
        if n > 0 {
            let src = last.unwrap().0;
            let cost = self.cost_of(src);
            proof {
                assert(old(self).moves@.drop_last() =~= self.moves@);
                assert(old(self).moves@.last().0 == src);
            }
            self.score = self.score - cost;
        } else {
            self.score = 0;
        }
    }

    /// A copy of the ledger.
    pub fn snapshot(&self) -> (r: Self)
        ensures
            r.score == self.score,
            r.moves@ == self.moves@,
    {
        let mut moves: Vec<(u8, u8)> = Vec::new();
        let mut i: usize = 0;
        while i < self.moves.len()
            invariant
                i <= self.moves@.len(),
                moves@ == self.moves@.subrange(0, i as int),
            decreases self.moves@.len() - i,
        {
            moves.push(self.moves[i]);
            i = i + 1;
            assert(moves@ =~= self.moves@.subrange(0, i as int));
        }
        assert(moves@ =~= self.moves@);
        Self { score: self.score, moves }
    }
}

/// A ledger never scores more than its number of jumps.
pub proof fn lemma_score_bounded(moves: Seq<(u8, u8)>)
    ensures
        ledger_score(moves) + 1 <= moves.len() || moves.len() == 0,
    decreases moves.len(),
{
    if moves.len() > 1 {
        lemma_score_bounded(moves.drop_last());
    }
}

/// Extending a ledger never lowers its score.
pub proof fn lemma_score_monotone(moves: Seq<(u8, u8)>, tail: Seq<(u8, u8)>)
    ensures
        ledger_score(moves) <= ledger_score(moves + tail),
    decreases tail.len(),
{
    if tail.len() > 0 {
        let shorter = tail.drop_last();
        lemma_score_monotone(moves, shorter);
        assert((moves + tail).drop_last() =~= moves + shorter);
    }
}

/// Score of a ledger given as a slice of entries.
pub fn score_of(moves: &[(u8, u8)]) -> (r: u8)
    requires
        moves@.len() <= 256,
    ensures
        r == ledger_score(moves@),
{
    let mut score: u8 = 0;
    let mut i: usize = 1;
    while i < moves.len()
        invariant
            moves@.len() <= 256,
            1 <= i,
            i <= moves@.len() || moves@.len() == 0,
            moves@.len() > 0 ==> score == ledger_score(moves@.subrange(0, i as int)),
            moves@.len() == 0 ==> score == 0,
        decreases moves@.len() - i,
    {
        let prefix = Ghost(moves@.subrange(0, i as int));
        let next = Ghost(moves@.subrange(0, i as int + 1));
        proof {
            assert(next@.drop_last() =~= prefix@);
            assert(next@.last() == moves@[i as int]);
            assert(prefix@.last() == moves@[i - 1]);
            assert(ledger_score(next@) == ledger_score(prefix@) + cost_after(prefix@, moves@[i as int].0));
            lemma_score_bounded(next@);
        }
        let prev = moves[i - 1];
        if !(prev.1 == moves[i].0 && prev.0 != SENTINEL) {
            score = score + 1;
        }
        i = i + 1;
    }
    proof {
        if moves@.len() > 0 {
            assert(i == moves@.len());
            assert(moves@.subrange(0, i as int) =~= moves@);
        }
    }
    score
}

/// Three consecutive jumps by one peg score as one move.
pub proof fn lemma_chain_scores_once(moves: Seq<(u8, u8)>, a: u8, b: u8, c: u8, d: u8)
    requires
        moves.len() > 0,
        cost_after(moves, a) == 1,
        a != SENTINEL,
        b != SENTINEL,
    ensures
        ledger_score(moves + seq![(a, b), (b, c), (c, d)]) == ledger_score(moves) + 1,
{
    let one = moves.push((a, b));
    let two = one.push((b, c));
    let three = two.push((c, d));
    assert(moves + seq![(a, b), (b, c), (c, d)] =~= three);
    assert(three.drop_last() =~= two);
    assert(two.drop_last() =~= one);
    assert(one.drop_last() =~= moves);
    assert(ledger_score(one) == ledger_score(moves) + 1);
    assert(ledger_score(two) == ledger_score(one) + cost_after(one, b));
    assert(ledger_score(three) == ledger_score(two) + cost_after(two, c));
}

} // verus!
