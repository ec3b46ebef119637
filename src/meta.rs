use vstd::prelude::*;

use crate::board::{blank_cells, has_empty, Board, Mark};
use crate::cache::ScoreCache;
use crate::moves::{is_best, selected};
use crate::score::{line_complete, pow10, score_of, winning_line, MAX_DEPTH};
use crate::verdict::{lemma_score_depth_one, mark_of_verdict, verdict_of, Verdict};

verus! {

/// A 3×3 board of boards. Sub-board `(row, col)` is at `row * 3 + col`.
#[derive(Clone, Copy, Debug)]
pub struct MetaBoard {
    pub boards: [Board; 9],
}

impl View for MetaBoard {
    type V = Seq<Seq<Mark>>;

    open spec fn view(&self) -> Seq<Seq<Mark>> {
        Seq::new(9, |i: int| self.boards[i]@)
    }
}

/// The board whose cell `i` is the mark for the verdict on sub-board `i`.
pub open spec fn composed_of(subs: Seq<Seq<Mark>>) -> Seq<Mark> {
    Seq::new(9, |i: int| mark_of_verdict(verdict_of(subs[i])))
}

/// Whether `t` is what the automated move makes of the boards `subs` at
/// depth `d`: the move picked on the composed board names the sub-board that
/// gets the automated move, and every other sub-board stays as it was.
pub open spec fn meta_selected(subs: Seq<Seq<Mark>>, d: nat, t: Seq<Seq<Mark>>) -> bool {
    let m = composed_of(subs);
    &&& !has_empty(m) ==> t == subs
    &&& has_empty(m) ==> exists|k: int|
        #[trigger] is_best(m, d, k) && selected(subs[k], d, t[k]) && t == subs.update(k, t[k])
}

/// Nine sub-boards won by the first player compose into a board that is won
/// by the first player too.
pub proof fn lemma_compose_won_first(subs: Seq<Seq<Mark>>)
    requires
        subs.len() == 9,
        forall|i: int| 0 <= i < 9 ==> #[trigger] verdict_of(subs[i]) == Verdict::WonFirst,
    ensures
        verdict_of(composed_of(subs)) == Verdict::WonFirst,
{
    let m = composed_of(subs);
    assert(m[0] == Mark::FirstPlayer && m[1] == Mark::FirstPlayer && m[2] == Mark::FirstPlayer);
    assert(line_complete(m, 0, Mark::FirstPlayer));
    assert(winning_line(m) == Some(Mark::FirstPlayer));
    lemma_score_depth_one(m);
}

impl MetaBoard {
    /// Nine blank sub-boards.
    pub fn blank() -> (r: MetaBoard)
        ensures
            forall|i: int| 0 <= i < 9 ==> #[trigger] r@[i] == blank_cells(),
    {
        let b = Board::blanks();
        MetaBoard { boards: [b; 9] }
    }

    /// Sub-board `index`.
    pub fn sub_board(&self, index: usize) -> (r: Board)
        requires
            index < 9,
        ensures
            r@ == self@[index as int],
    {
        self.boards[index]
    }

    /// Puts `m` at `(row, col)` of sub-board `index`, leaving everything else
    /// as it was.
    pub fn set_cell(&mut self, index: usize, row: usize, col: usize, m: Mark)
        requires
            index < 9,
            row < 3,
            col < 3,
        ensures
            final(self)@ == old(self)@.update(
                index as int,
                old(self)@[index as int].update(row * 3 + col, m),
            ),
    {
        let mut b = self.boards[index];
        b.set_cell(row, col, m);
        self.boards[index] = b;
        assert(self@ =~= old(self)@.update(
            index as int,
            old(self)@[index as int].update(row * 3 + col, m),
        ));
    }

    /// The board of verdicts: cell `i` holds the mark for the verdict on
    /// sub-board `i`.
    pub fn compose(&self, cache: &mut ScoreCache) -> (r: Board)
        requires
            old(cache).wf(),
        ensures
            final(cache).wf(),
            old(cache)@.submap_of(final(cache)@),
            r@ == composed_of(self@),
    {
        let mut cells = [Mark::Empty; 9];
        let mut i: usize = 0;
        while i < 9
            invariant
                i <= 9,
                cache.wf(),
                old(cache)@.submap_of(cache@),
                forall|j: int| 0 <= j < i ==> #[trigger] cells[j] == composed_of(self@)[j],
            decreases 9 - i,
        {
            let ghost mid = cache@;
            let v = self.boards[i].classify(cache);
            assert(old(cache)@.submap_of(cache@)) by {
                assert forall|k: u64| #[trigger]
                    old(cache)@.contains_key(k) implies cache@.contains_key(k) && cache@[k]
                    == old(cache)@[k] by {
                    assert(mid.contains_key(k));
                }
            }
            cells[i] = v.to_mark();
            i = i + 1;
        }
        let r = Board { cells };
        assert(r@ =~= composed_of(self@));
        r
    }

    /// The automated side's move one level up: the move picked on the
    /// composed board names a sub-board, and that sub-board gets the
    /// automated move.
    pub fn select_move(&mut self, depth: u32, cache: &mut ScoreCache)
        requires
            old(cache).wf(),
            depth <= MAX_DEPTH,
        ensures
            final(cache).wf(),
            old(cache)@.submap_of(final(cache)@),
            meta_selected(old(self)@, depth as nat, final(self)@),
    {
        let ghost mid0 = cache@;
        let composed = self.compose(cache);
        let mut picked = composed;
        let ghost mid1 = cache@;
        picked.select_move(depth, cache);
        let ghost m = composed@;
        let ghost d = depth as nat;
        assert(old(cache)@.submap_of(cache@)) by {
            assert forall|key: u64| #[trigger]
                old(cache)@.contains_key(key) implies cache@.contains_key(key) && cache@[key]
                == old(cache)@[key] by {
                assert(mid1.contains_key(key));
            }
        }
        let mut i: usize = 0;
        while i < 9
            invariant
                i <= 9,
                *self == *old(self),
                m == composed_of(self@),
                m == composed@,
                selected(m, d, picked@),
                d == depth,
                depth <= MAX_DEPTH,
                cache.wf(),
                old(cache)@.submap_of(cache@),
                forall|j: int| 0 <= j < i ==> m[j] == #[trigger] picked@[j],
            decreases 9 - i,
        {
            if !(composed.cells[i] == picked.cells[i]) {
                let ghost mid2 = cache@;
                let mut b = self.boards[i];
                let ghost before = b@;
                b.select_move(depth, cache);
                self.boards[i] = b;
                proof {
                    assert(m[i as int] != picked@[i as int]);
                    assert(has_empty(m));
                    let k = choose|k: int|
                        #[trigger] is_best(m, d, k) && picked@ == m.update(k, Mark::SecondPlayer);
                    assert(k == i);
                    assert(before == old(self)@[k]);
                    assert(self@[k] == b@);
                    assert(self@ =~= old(self)@.update(k, self@[k]));
                    assert(is_best(m, d, k) && selected(old(self)@[k], d, self@[k]) && self@
                        == old(self)@.update(k, self@[k]));
                    assert forall|key: u64| #[trigger]
                        old(cache)@.contains_key(key) implies cache@.contains_key(key)
                        && cache@[key] == old(cache)@[key] by {
                        assert(mid2.contains_key(key));
                    }
                }
                return;
            }
            i = i + 1;
        }
        proof {
            if has_empty(m) {
                let k = choose|k: int|
                    #[trigger] is_best(m, d, k) && picked@ == m.update(k, Mark::SecondPlayer);
                assert(picked@[k] == Mark::SecondPlayer);
            }
        }
    }
}

} // verus!
