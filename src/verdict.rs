use vstd::prelude::*;

use crate::board::{empty_count_of, Board, Mark};
use crate::cache::ScoreCache;
use crate::score::{children_sum, first_line_from, pow10, score_of, winning_line};

verus! {

/// The outcome of a board.
#[derive(Clone, Copy, Debug, PartialEq, Eq, Structural)]
pub enum Verdict {
    InProgress,
    WonFirst,
    WonSecond,
    /// No side can still complete a line.
    Dead,
}

/// The verdict on board `s`, read from its scores at depths one and two: a
/// score of `10` at depth one is a line of the second player, `-10` one of
/// the first; a board with at most two empty cells that scores zero at both
/// depths is dead.
pub open spec fn verdict_of(s: Seq<Mark>) -> Verdict {
    if score_of(s, 1) == 10 {
        Verdict::WonSecond
    } else if score_of(s, 1) == -10 {
        Verdict::WonFirst
    } else if empty_count_of(s) <= 2 && score_of(s, 2) == 0 && score_of(s, 1) == 0 {
        Verdict::Dead
    } else {
        Verdict::InProgress
    }
}

/// The mark that stands for a verdict on the meta-board.
pub open spec fn mark_of_verdict(v: Verdict) -> Mark {
    match v {
        Verdict::WonFirst => Mark::FirstPlayer,
        Verdict::WonSecond => Mark::SecondPlayer,
        Verdict::Dead => Mark::Dead,
        Verdict::InProgress => Mark::Empty,
    }
}

impl Verdict {
    /// The mark that stands for this verdict on the meta-board.
    pub fn to_mark(&self) -> (r: Mark)
        ensures
            r == mark_of_verdict(*self),
    {
        match self {
            Verdict::WonFirst => Mark::FirstPlayer,
            Verdict::WonSecond => Mark::SecondPlayer,
            Verdict::Dead => Mark::Dead,
            Verdict::InProgress => Mark::Empty,
        }
    }
}

proof fn lemma_children_depth_one(s: Seq<Mark>, n: nat)
    ensures
        children_sum(s, 1, n) == 0,
    decreases n,
{
    if n > 0 {
        lemma_children_depth_one(s, (n - 1) as nat);
        assert(score_of(s.update(n - 1, Mark::SecondPlayer), 0) == 0);
    }
}

proof fn lemma_first_line_is_player(s: Seq<Mark>, k: int)
    ensures
        first_line_from(s, k) matches Some(m) ==> m == Mark::FirstPlayer || m
            == Mark::SecondPlayer,
    decreases 8 - k,
{
    if k < 8 {
        lemma_first_line_is_player(s, k + 1);
    }
}

/// The score at depth one is `10` for a line of the second player, `-10` for
/// a line of the first, and zero for a board without a complete line.
pub proof fn lemma_score_depth_one(s: Seq<Mark>)
    ensures
        score_of(s, 1) == match winning_line(s) {
            Some(m) => if m == Mark::SecondPlayer {
                10int
            } else {
                -10int
            },
            None => 0int,
        },
{
    lemma_children_depth_one(s, 9);
    lemma_first_line_is_player(s, 0);
    reveal_with_fuel(pow10, 2);
}

/// Each board gets exactly one verdict, on its scores at depths one and two.
/// A board won by the first player has a line of the first player first
/// among its lines, and one won by the second player a line of the second,
/// so no board is derivably won by both.
pub proof fn lemma_verdict_exclusive(s: Seq<Mark>)
    ensures
        verdict_of(s) == Verdict::WonSecond <==> score_of(s, 1) == 10,
        verdict_of(s) == Verdict::WonFirst <==> score_of(s, 1) == -10,
        verdict_of(s) == Verdict::Dead <==> (empty_count_of(s) <= 2 && score_of(s, 2) == 0
            && score_of(s, 1) == 0),
        verdict_of(s) == Verdict::WonSecond ==> winning_line(s) == Some(Mark::SecondPlayer),
        verdict_of(s) == Verdict::WonFirst ==> winning_line(s) == Some(Mark::FirstPlayer),
        verdict_of(s) == Verdict::InProgress ==> winning_line(s) is None,
{
    lemma_score_depth_one(s);
    lemma_first_line_is_player(s, 0);
}

impl Board {
    /// The verdict on this board.
    pub fn classify(&self, cache: &mut ScoreCache) -> (r: Verdict)
        requires
            old(cache).wf(),
        ensures
            final(cache).wf(),
            old(cache)@.submap_of(final(cache)@),
            r == verdict_of(self@),
    {
        let one = self.score(1, cache);
        if one == 10 {
            return Verdict::WonSecond;
        }
        if one == -10 {
            return Verdict::WonFirst;
        }
        let ghost mid = cache@;
        let r = if self.empty_count() <= 2 && self.score(2, cache) == 0 && one == 0 {
            Verdict::Dead
        } else {
            Verdict::InProgress
        };
        assert(old(cache)@.submap_of(cache@)) by {
            assert forall|k: u64| #[trigger]
                old(cache)@.contains_key(k) implies cache@.contains_key(k) && cache@[k]
                == old(cache)@[k] by {
                assert(mid.contains_key(k));
            }
        }
        r
    }
}

} // verus!
