use std::collections::HashMap;
use vstd::prelude::*;

use crate::board::{Board, Mark};
use crate::score::score_of;

verus! {

broadcast use vstd::std_specs::hash::group_hash_axioms;

/// The two-bit code of a mark in a cache key.
pub open spec fn code_of(m: Mark) -> u64 {
    match m {
        Mark::FirstPlayer => 0,
        Mark::SecondPlayer => 1,
        Mark::Empty => 2,
        Mark::Dead => 3,
    }
}

/// The mark with a given two-bit code.
pub open spec fn mark_of_code(c: u64) -> Mark {
    if c == 0 {
        Mark::FirstPlayer
    } else if c == 1 {
        Mark::SecondPlayer
    } else if c == 2 {
        Mark::Empty
    } else {
        Mark::Dead
    }
}

/// The cache key of a board searched to depth `d`: two bits per cell, cell 0
/// lowest, and the depth above them.
pub open spec fn key_of(s: Seq<Mark>, d: u32) -> u64 {
    code_of(s[0]) | (code_of(s[1]) << 2u64) | (code_of(s[2]) << 4u64) | (code_of(s[3]) << 6u64)
        | (code_of(s[4]) << 8u64) | (code_of(s[5]) << 10u64) | (code_of(s[6]) << 12u64) | (
    code_of(s[7]) << 14u64) | (code_of(s[8]) << 16u64) | ((d as u64) << 18u64)
}

/// The board that a cache key was made from.
pub open spec fn board_of_key(k: u64) -> Seq<Mark> {
    seq![
        mark_of_code(k & 3),
        mark_of_code((k >> 2u64) & 3),
        mark_of_code((k >> 4u64) & 3),
        mark_of_code((k >> 6u64) & 3),
        mark_of_code((k >> 8u64) & 3),
        mark_of_code((k >> 10u64) & 3),
        mark_of_code((k >> 12u64) & 3),
        mark_of_code((k >> 14u64) & 3),
        mark_of_code((k >> 16u64) & 3),
    ]
}

/// The search depth that a cache key was made from.
pub open spec fn depth_of_key(k: u64) -> nat {
    (k >> 18u64) as nat
}

proof fn lemma_key_fields(
    c0: u64,
    c1: u64,
    c2: u64,
    c3: u64,
    c4: u64,
    c5: u64,
    c6: u64,
    c7: u64,
    c8: u64,
    d: u64,
)
    requires
        c0 < 4,
        c1 < 4,
        c2 < 4,
        c3 < 4,
        c4 < 4,
        c5 < 4,
        c6 < 4,
        c7 < 4,
        c8 < 4,
        d < 0x1_0000_0000,
    ensures
        ({
            let k = c0 | (c1 << 2u64) | (c2 << 4u64) | (c3 << 6u64) | (c4 << 8u64) | (c5 << 10u64)
                | (c6 << 12u64) | (c7 << 14u64) | (c8 << 16u64) | (d << 18u64);
            &&& k & 3 == c0
            &&& (k >> 2u64) & 3 == c1
            &&& (k >> 4u64) & 3 == c2
            &&& (k >> 6u64) & 3 == c3
            &&& (k >> 8u64) & 3 == c4
            &&& (k >> 10u64) & 3 == c5
            &&& (k >> 12u64) & 3 == c6
            &&& (k >> 14u64) & 3 == c7
            &&& (k >> 16u64) & 3 == c8
            &&& k >> 18u64 == d
        }),
{
    assert({
        let k = c0 | (c1 << 2u64) | (c2 << 4u64) | (c3 << 6u64) | (c4 << 8u64) | (c5 << 10u64) | (c6
            << 12u64) | (c7 << 14u64) | (c8 << 16u64) | (d << 18u64);
        &&& k & 3 == c0
        &&& (k >> 2u64) & 3 == c1
        &&& (k >> 4u64) & 3 == c2
        &&& (k >> 6u64) & 3 == c3
        &&& (k >> 8u64) & 3 == c4
        &&& (k >> 10u64) & 3 == c5
        &&& (k >> 12u64) & 3 == c6
        &&& (k >> 14u64) & 3 == c7
        &&& (k >> 16u64) & 3 == c8
        &&& k >> 18u64 == d
    }) by (bit_vector)
        requires
            c0 < 4,
            c1 < 4,
            c2 < 4,
            c3 < 4,
            c4 < 4,
            c5 < 4,
            c6 < 4,
            c7 < 4,
            c8 < 4,
            d < 0x1_0000_0000,
    ;
}

/// A key gives back the board and the depth that it was made from.
pub proof fn lemma_key_decodes(s: Seq<Mark>, d: u32)
    requires
        s.len() == 9,
    ensures
        board_of_key(key_of(s, d)) == s,
        depth_of_key(key_of(s, d)) == d,
{
    lemma_key_fields(
        code_of(s[0]),
        code_of(s[1]),
        code_of(s[2]),
        code_of(s[3]),
        code_of(s[4]),
        code_of(s[5]),
        code_of(s[6]),
        code_of(s[7]),
        code_of(s[8]),
        d as u64,
    );
    assert(board_of_key(key_of(s, d)) =~= s);
}

fn code(m: Mark) -> (r: u64)
    ensures
        r == code_of(m),
{
    match m {
        Mark::FirstPlayer => 0,
        Mark::SecondPlayer => 1,
        Mark::Empty => 2,
        Mark::Dead => 3,
    }
}

/// The cache key of `b` searched to depth `d`.
fn key(b: &Board, d: u32) -> (r: u64)
    ensures
        r == key_of(b@, d),
{
    let c = &b.cells;
    code(c[0]) | (code(c[1]) << 2u64) | (code(c[2]) << 4u64) | (code(c[3]) << 6u64) | (code(c[4])
        << 8u64) | (code(c[5]) << 10u64) | (code(c[6]) << 12u64) | (code(c[7]) << 14u64) | (code(
        c[8],
    ) << 16u64) | ((d as u64) << 18u64)
}

/// Scores already computed, keyed by board contents and search depth, so
/// that one board searched to two depths keeps two entries.
pub struct ScoreCache {
    map: HashMap<u64, i64>,
}

impl View for ScoreCache {
    type V = Map<u64, i64>;

    closed spec fn view(&self) -> Map<u64, i64> {
        self.map@
    }
}

impl ScoreCache {
    /// Every entry holds the score of the board and depth that its key encodes.
    pub open spec fn wf(&self) -> bool {
        forall|k: u64| #[trigger]
            self@.contains_key(k) ==> self@[k] as int == score_of(
                board_of_key(k),
                depth_of_key(k),
            )
    }

    /// An empty cache.
    pub fn new() -> (r: ScoreCache)
        ensures
            r.wf(),
            r@ == Map::<u64, i64>::empty(),
    {
        ScoreCache { map: HashMap::new() }
    }

    /// The number of stored scores.
    pub fn len(&self) -> (r: usize)
        ensures
            r == self@.len(),
    {
        self.map.len()
    }

    /// The stored score of `b` at depth `d`, if any.
    pub fn lookup(&self, b: &Board, d: u32) -> (r: Option<i64>)
        requires
            self.wf(),
        ensures
            r == (if self@.contains_key(key_of(b@, d)) {
                Some(self@[key_of(b@, d)])
            } else {
                None
            }),
            r matches Some(v) ==> v as int == score_of(b@, d as nat),
    {
        let k = key(b, d);
        proof {
            lemma_key_decodes(b@, d);
        }
        match self.map.get(&k) {
            Some(v) => Some(*v),
            None => None,
        }
    }

    /// Stores `v` as the score of `b` at depth `d`.
    pub fn store(&mut self, b: &Board, d: u32, v: i64)
        requires
            old(self).wf(),
            v as int == score_of(b@, d as nat),
        ensures
            final(self).wf(),
            final(self)@ == old(self)@.insert(key_of(b@, d), v),
    {
        let k = key(b, d);
        proof {
            lemma_key_decodes(b@, d);
        }
        self.map.insert(k, v);
        assert forall|j: u64| #[trigger] self@.contains_key(j) implies self@[j] as int == score_of(
            board_of_key(j),
            depth_of_key(j),
        ) by {
            if j != k {
                assert(old(self)@.contains_key(j));
            }
        }
    }
}

} // verus!
