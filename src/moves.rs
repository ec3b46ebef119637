use vstd::prelude::*;

use crate::board::{blank_cells, has_empty, occupied, Board, Mark};
use crate::cache::ScoreCache;
use crate::score::{score_of, MAX_DEPTH};

verus! {

/// The score at depth `d` of `s` with the second player's mark placed at `k`.
pub open spec fn candidate(s: Seq<Mark>, d: nat, k: int) -> int {
    score_of(s.update(k, Mark::SecondPlayer), d)
}

/// Whether `k` is the cell that the automated side picks on `s` at depth
/// `d`: an empty cell with the highest candidate score, the lowest such cell
/// where several tie.
pub open spec fn is_best(s: Seq<Mark>, d: nat, k: int) -> bool {
    &&& 0 <= k < 9
    &&& s[k] == Mark::Empty
    &&& forall|j: int|
        0 <= j < 9 && s[j] == Mark::Empty ==> #[trigger] candidate(s, d, j) <= candidate(s, d, k)
    &&& forall|j: int|
        0 <= j < k && s[j] == Mark::Empty ==> #[trigger] candidate(s, d, j) < candidate(s, d, k)
}

/// Whether `t` is what the automated move makes of `s` at depth `d`: the
/// second player's mark at the best cell, or `s` itself when no cell is empty.
pub open spec fn selected(s: Seq<Mark>, d: nat, t: Seq<Mark>) -> bool {
    &&& !has_empty(s) ==> t == s
    &&& has_empty(s) ==> exists|k: int|
        #[trigger] is_best(s, d, k) && t == s.update(k, Mark::SecondPlayer)
}

/// The automated move fills exactly one cell, one that was empty: the
/// occupied cells afterwards are those before and that one, and no other
/// cell changes.
pub proof fn lemma_select_places_one(s: Seq<Mark>, d: nat, t: Seq<Mark>)
    requires
        s.len() == 9,
        has_empty(s),
        selected(s, d, t),
    ensures
        exists|k: int|
            0 <= k < 9 && s[k] == Mark::Empty && t[k] == Mark::SecondPlayer && #[trigger] occupied(
                t,
            ) == occupied(s).insert(k) && forall|j: int|
                0 <= j < 9 && j != k ==> t[j] == s[j],
{
    let k = choose|k: int| #[trigger] is_best(s, d, k) && t == s.update(k, Mark::SecondPlayer);
    assert(occupied(t) =~= occupied(s).insert(k));
}

/// On a blank board the automated move places one mark and leaves the other
/// eight cells empty.
pub proof fn lemma_select_on_blank(d: nat, t: Seq<Mark>)
    requires
        selected(blank_cells(), d, t),
    ensures
        exists|k: int|
            0 <= k < 9 && t[k] == Mark::SecondPlayer && forall|j: int|
                0 <= j < 9 && j != k ==> #[trigger] t[j] == Mark::Empty,
{
    assert(blank_cells()[0] == Mark::Empty);
    let k = choose|k: int|
        #[trigger] is_best(blank_cells(), d, k) && t == blank_cells().update(k, Mark::SecondPlayer);
    assert(t[k] == Mark::SecondPlayer);
    assert forall|j: int| 0 <= j < 9 && j != k implies #[trigger] t[j] == Mark::Empty by {
        assert(blank_cells()[j] == Mark::Empty);
    }
}

impl Board {
    /// The automated side's move: scores each empty cell with the second
    /// player's mark placed there at `depth`, then places that mark at the
    /// cell with the highest score (the lowest such cell on a tie). A full
    /// board is left as it is.
    pub fn select_move(&mut self, depth: u32, cache: &mut ScoreCache)
        requires
            old(cache).wf(),
            depth <= MAX_DEPTH,
        ensures
            final(cache).wf(),
            old(cache)@.submap_of(final(cache)@),
            selected(old(self)@, depth as nat, final(self)@),
    {
        let ghost s = self@;
        let ghost d = depth as nat;
        let mut best: Option<(usize, i64)> = None;
        let mut i: usize = 0;
        while i < 9
            invariant
                i <= 9,
                self@ == s,
                s == old(self)@,
                d == depth,
                depth <= MAX_DEPTH,
                cache.wf(),
                old(cache)@.submap_of(cache@),
                best is None ==> forall|j: int| 0 <= j < i ==> s[j] != Mark::Empty,
                best matches Some(p) ==> {
                    &&& p.0 < i
                    &&& s[p.0 as int] == Mark::Empty
                    &&& p.1 == candidate(s, d, p.0 as int)
                    &&& forall|j: int|
                        0 <= j < i && s[j] == Mark::Empty ==> #[trigger] candidate(s, d, j) <= p.1
                    &&& forall|j: int|
                        0 <= j < p.0 && s[j] == Mark::Empty ==> #[trigger] candidate(s, d, j)
                            < p.1
                },
            decreases 9 - i,
        {
            if self.cells[i] == Mark::Empty {
                let mut next = *self;
                next.cells[i] = Mark::SecondPlayer;
                assert(next@ == s.update(i as int, Mark::SecondPlayer));
                let ghost mid = cache@;
                let v = next.score(depth, cache);
                assert(old(cache)@.submap_of(cache@)) by {
                    assert forall|k: u64| #[trigger]
                        old(cache)@.contains_key(k) implies cache@.contains_key(k) && cache@[k]
                        == old(cache)@[k] by {
                        assert(mid.contains_key(k));
                    }
                }
                match best {
                    None => {
                        best = Some((i, v));
                    },
                    Some(p) => {
                        if v > p.1 {
                            best = Some((i, v));
                        }
                    },
                }
            }
            i = i + 1;
        }
        match best {
            Some(p) => {
                self.cells[p.0] = Mark::SecondPlayer;
                assert(is_best(s, d, p.0 as int));
            },
            None => {},
        }
    }
}

} // verus!
