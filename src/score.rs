use vstd::prelude::*;

use crate::board::{Board, Mark};
use crate::cache::{key_of, ScoreCache};

verus! {

/// Search depth of the automated side's replies.
pub const PLAYER_MOVE_DEPTH: u32 = 6;

/// Search depth of the score shown beside each free cell.
pub const BOT_DEPTH: u32 = 7;

/// The deepest search whose scores fit in an `i64`.
pub const MAX_DEPTH: u32 = 18;

/// The depth at which the opening table gives the score.
pub const OPENING_DEPTH: u32 = 5;

pub open spec fn pow10(d: nat) -> int
    decreases d,
{
    if d == 0 {
        1
    } else {
        10 * pow10((d - 1) as nat)
    }
}

/// The cells of winning line `k`, for `k` in `0..8`: three rows, three
/// columns, then the two diagonals.
pub open spec fn line_cells(k: int) -> (int, int, int) {
    if k == 0 {
        (0, 1, 2)
    } else if k == 1 {
        (3, 4, 5)
    } else if k == 2 {
        (6, 7, 8)
    } else if k == 3 {
        (0, 3, 6)
    } else if k == 4 {
        (1, 4, 7)
    } else if k == 5 {
        (2, 5, 8)
    } else if k == 6 {
        (0, 4, 8)
    } else {
        (6, 4, 2)
    }
}

pub open spec fn is_player(m: Mark) -> bool {
    m == Mark::FirstPlayer || m == Mark::SecondPlayer
}

/// Whether line `k` of `s` holds three of the player mark `m`.
pub open spec fn line_complete(s: Seq<Mark>, k: int, m: Mark) -> bool {
    let (a, b, c) = line_cells(k);
    is_player(m) && s[a] == m && s[b] == m && s[c] == m
}

/// Whether some line of `s` holds three of `m`.
pub open spec fn has_line(s: Seq<Mark>, m: Mark) -> bool {
    exists|k: int| 0 <= k < 8 && #[trigger] line_complete(s, k, m)
}

/// The mark of the first complete line among lines `k..8`.
pub open spec fn first_line_from(s: Seq<Mark>, k: int) -> Option<Mark>
    decreases 8 - k,
{
    if k >= 8 {
        None
    } else if line_complete(s, k, Mark::FirstPlayer) {
        Some(Mark::FirstPlayer)
    } else if line_complete(s, k, Mark::SecondPlayer) {
        Some(Mark::SecondPlayer)
    } else {
        first_line_from(s, k + 1)
    }
}

/// The mark of the first complete line of `s`, if any.
pub open spec fn winning_line(s: Seq<Mark>) -> Option<Mark> {
    first_line_from(s, 0)
}

/// The reward for a line of `m` found with `d` levels of search left:
/// positive for the second player, negative for the first.
pub open spec fn reward(m: Mark, d: nat) -> int {
    if m == Mark::SecondPlayer {
        pow10(d)
    } else {
        -pow10(d)
    }
}

/// The mark placed with `d` levels of search left: the first player's at
/// even depth, the second player's at odd depth.
pub open spec fn mover(d: nat) -> Mark {
    if d % 2 == 0 {
        Mark::FirstPlayer
    } else {
        Mark::SecondPlayer
    }
}

/// Whether `s` holds a single mark, the second player's, at cell `k`.
pub open spec fn lone_second_at(s: Seq<Mark>, k: int) -> bool {
    forall|j: int|
        0 <= j < 9 ==> #[trigger] s[j] == (if j == k {
            Mark::SecondPlayer
        } else {
            Mark::Empty
        })
}

/// The opening value of a lone second-player mark at cell `k`: a corner is
/// worth 3600, an edge 2400 and the centre 4800, which is what the full
/// search gives at the opening depth.
pub open spec fn opening_weight(k: int) -> int {
    if k == 4 {
        4800
    } else if k % 2 == 0 {
        3600
    } else {
        2400
    }
}

/// The opening table: a board holding one second-player mark and nothing
/// else has a fixed score at the opening depth.
pub open spec fn opening_value(s: Seq<Mark>) -> Option<int> {
    if exists|k: int| 0 <= k < 9 && #[trigger] lone_second_at(s, k) {
        Some(opening_weight(choose|k: int| 0 <= k < 9 && #[trigger] lone_second_at(s, k)))
    } else {
        None
    }
}

/// The score of board `s` searched to depth `d`.
pub open spec fn score_of(s: Seq<Mark>, d: nat) -> int
    decreases d, 10nat,
{
    if d == OPENING_DEPTH && opening_value(s) is Some {
        opening_value(s)->0
    } else if d == 0 {
        0
    } else {
        match winning_line(s) {
            Some(m) => reward(m, d),
            None => children_sum(s, d, 9),
        }
    }
}

/// The sum, over the empty cells among the first `n`, of the score at depth
/// `d - 1` of `s` with the mover's mark placed there.
pub open spec fn children_sum(s: Seq<Mark>, d: nat, n: nat) -> int
    decreases d, n,
{
    if n == 0 || d == 0 {
        0
    } else {
        children_sum(s, d, (n - 1) as nat) + if s[n - 1] == Mark::Empty {
            score_of(s.update(n - 1, mover(d)), (d - 1) as nat)
        } else {
            0
        }
    }
}

/// Whether a call on `s` at depth `d` that misses the cache stores its result.
pub open spec fn stores(s: Seq<Mark>, d: nat) -> bool {
    &&& !(d == OPENING_DEPTH && opening_value(s) is Some)
    &&& d > 0
    &&& winning_line(s) is None
}

/// What one call of `score` on `s` at depth `d` returns (`r`) and does to the
/// cache (from `pre` to `post`): the result is the score; the cache only
/// grows; it then holds the result wherever the call stores one; and a call
/// that finds its key, or that stores nothing, leaves it as it was.
pub open spec fn score_effect(
    pre: Map<u64, i64>,
    post: Map<u64, i64>,
    s: Seq<Mark>,
    d: nat,
    r: int,
) -> bool {
    &&& r == score_of(s, d)
    &&& pre.submap_of(post)
    &&& stores(s, d) ==> post.contains_key(key_of(s, d as u32))
    &&& (pre.contains_key(key_of(s, d as u32)) || !stores(s, d)) ==> post == pre
}

pub proof fn lemma_pow10_le(a: nat, b: nat)
    requires
        a <= b,
    ensures
        0 < pow10(a) <= pow10(b),
    decreases b,
{
    if b > a {
        lemma_pow10_le(a, (b - 1) as nat);
    } else if a > 0 {
        lemma_pow10_le((a - 1) as nat, (a - 1) as nat);
    }
}

proof fn lemma_pow10_17()
    ensures
        pow10(17) == 100_000_000_000_000_000,
{
    reveal_with_fuel(pow10, 18);
}

/// A score at depth `d` is at most `10^d` in size.
pub proof fn lemma_score_bound(s: Seq<Mark>, d: nat)
    requires
        s.len() == 9,
    ensures
        -pow10(d) <= score_of(s, d) <= pow10(d),
    decreases d, 10nat,
{
    lemma_pow10_le(0, d);
    if d == OPENING_DEPTH && opening_value(s) is Some {
        reveal_with_fuel(pow10, 6);
    } else if d > 0 && winning_line(s) is None {
        lemma_children_bound(s, d, 9);
        assert(pow10(d) == 10 * pow10((d - 1) as nat));
    }
}

/// The children of the first `n` cells sum to at most `n * 10^(d-1)` in size.
pub proof fn lemma_children_bound(s: Seq<Mark>, d: nat, n: nat)
    requires
        s.len() == 9,
        d > 0,
        n <= 9,
    ensures
        -(n * pow10((d - 1) as nat)) <= children_sum(s, d, n) <= n * pow10((d - 1) as nat),
    decreases d, n,
{
    if n > 0 {
        lemma_children_bound(s, d, (n - 1) as nat);
        let p = pow10((d - 1) as nat);
        if s[n - 1] == Mark::Empty {
            lemma_score_bound(s.update(n - 1, mover(d)), (d - 1) as nat);
        }
        lemma_pow10_le(0, (d - 1) as nat);
        assert((n - 1) * p + p == n * p) by (nonlinear_arith);
    }
}

/// The other player's mark.
pub open spec fn opponent(m: Mark) -> Mark {
    if m == Mark::FirstPlayer {
        Mark::SecondPlayer
    } else {
        Mark::FirstPlayer
    }
}

proof fn lemma_first_line_from(s: Seq<Mark>, j: int, m: Mark)
    requires
        0 <= j <= 8,
        is_player(m),
        !has_line(s, opponent(m)),
        exists|k: int| j <= k < 8 && #[trigger] line_complete(s, k, m),
    ensures
        first_line_from(s, j) == Some(m),
    decreases 8 - j,
{
    let k = choose|k: int| j <= k < 8 && #[trigger] line_complete(s, k, m);
    assert(!line_complete(s, j, opponent(m)));
    if k != j && !line_complete(s, j, m) {
        lemma_first_line_from(s, j + 1, m);
    }
}

/// A board with a complete line holds no lone mark.
proof fn lemma_line_not_opening(s: Seq<Mark>, m: Mark)
    requires
        s.len() == 9,
        has_line(s, m),
    ensures
        opening_value(s) is None,
{
    let k = choose|k: int| 0 <= k < 8 && #[trigger] line_complete(s, k, m);
    if exists|c: int| 0 <= c < 9 && #[trigger] lone_second_at(s, c) {
        let c = choose|c: int| 0 <= c < 9 && #[trigger] lone_second_at(s, c);
        let (a, b, e) = line_cells(k);
        assert(s[a] == (if a == c {
            Mark::SecondPlayer
        } else {
            Mark::Empty
        }));
        assert(s[b] == (if b == c {
            Mark::SecondPlayer
        } else {
            Mark::Empty
        }));
    }
}

/// A board on which one player has a complete line, and the other none,
/// scores exactly the reward for that line at every depth above zero,
/// whatever its other cells hold: `10^d` for the second player, `-10^d` for
/// the first.
pub proof fn lemma_line_scores(s: Seq<Mark>, d: nat, m: Mark)
    requires
        s.len() == 9,
        d > 0,
        is_player(m),
        has_line(s, m),
        !has_line(s, opponent(m)),
    ensures
        winning_line(s) == Some(m),
        score_of(s, d) == reward(m, d),
{
    lemma_first_line_from(s, 0, m);
    lemma_line_not_opening(s, m);
}

/// Every board scores zero at depth zero.
pub proof fn lemma_depth_zero(s: Seq<Mark>)
    ensures
        score_of(s, 0) == 0,
{
}

/// Two calls of `score` with the same board and depth, the second on the
/// cache that the first left, return the same value, and the second leaves
/// the cache, and so its size, as it found it.
pub proof fn lemma_score_repeat(
    c0: Map<u64, i64>,
    c1: Map<u64, i64>,
    c2: Map<u64, i64>,
    s: Seq<Mark>,
    d: nat,
    r1: int,
    r2: int,
)
    requires
        score_effect(c0, c1, s, d, r1),
        score_effect(c1, c2, s, d, r2),
    ensures
        r1 == r2,
        c2 == c1,
        c2.len() == c1.len(),
{
}

/// `10^d` as an `i64`.
fn pow10_i64(d: u32) -> (r: i64)
    requires
        d <= MAX_DEPTH,
    ensures
        r == pow10(d as nat),
{
    let mut r: i64 = 1;
    let mut i: u32 = 0;
    while i < d
        invariant
            i <= d,
            d <= MAX_DEPTH,
            r == pow10(i as nat),
        decreases d - i,
    {
        proof {
            lemma_pow10_le(i as nat, 17);
            lemma_pow10_17();
        }
        r = r * 10;
        i = i + 1;
    }
    r
}

/// The cells of winning line `k`.
fn line_at(k: usize) -> (r: (usize, usize, usize))
    requires
        k < 8,
    ensures
        r.0 == line_cells(k as int).0,
        r.1 == line_cells(k as int).1,
        r.2 == line_cells(k as int).2,
{
    if k == 0 {
        (0, 1, 2)
    } else if k == 1 {
        (3, 4, 5)
    } else if k == 2 {
        (6, 7, 8)
    } else if k == 3 {
        (0, 3, 6)
    } else if k == 4 {
        (1, 4, 7)
    } else if k == 5 {
        (2, 5, 8)
    } else if k == 6 {
        (0, 4, 8)
    } else {
        (6, 4, 2)
    }
}

impl Board {
    /// Whether line `k` holds three of the player mark `m`.
    fn line_holds(&self, k: usize, m: Mark) -> (r: bool)
        requires
            k < 8,
            is_player(m),
        ensures
            r == line_complete(self@, k as int, m),
    {
        let (a, b, c) = line_at(k);
        self.cells[a] == m && self.cells[b] == m && self.cells[c] == m
    }

    /// The mark of the first complete line, if any.
    pub fn winning_line(&self) -> (r: Option<Mark>)
        ensures
            r == winning_line(self@),
    {
        let mut k: usize = 0;
        while k < 8
            invariant
                k <= 8,
                first_line_from(self@, k as int) == winning_line(self@),
            decreases 8 - k,
        {
            if self.line_holds(k, Mark::FirstPlayer) {
                return Some(Mark::FirstPlayer);
            }
            if self.line_holds(k, Mark::SecondPlayer) {
                return Some(Mark::SecondPlayer);
            }
            k = k + 1;
        }
        None
    }

    /// Whether the board holds a single mark, the second player's, at cell `k`.
    fn lone_second_at(&self, k: usize) -> (r: bool)
        requires
            k < 9,
        ensures
            r == lone_second_at(self@, k as int),
    {
        let mut j: usize = 0;
        while j < 9
            invariant
                j <= 9,
                k < 9,
                forall|i: int|
                    0 <= i < j ==> #[trigger] self@[i] == (if i == k {
                        Mark::SecondPlayer
                    } else {
                        Mark::Empty
                    }),
            decreases 9 - j,
        {
            let want = if j == k {
                Mark::SecondPlayer
            } else {
                Mark::Empty
            };
            if self.cells[j] != want {
                return false;
            }
            j = j + 1;
        }
        true
    }

    /// The opening table's score for this board, if it has one.
    fn opening_score(&self) -> (r: Option<i64>)
        ensures
            r matches Some(v) ==> opening_value(self@) == Some(v as int),
            r is None ==> opening_value(self@) is None,
    {
        let mut k: usize = 0;
        while k < 9
            invariant
                k <= 9,
                forall|i: int| 0 <= i < k ==> !#[trigger] lone_second_at(self@, i),
            decreases 9 - k,
        {
            if self.lone_second_at(k) {
                proof {
                    let c = choose|i: int| 0 <= i < 9 && #[trigger] lone_second_at(self@, i);
                    assert(self@[c] == Mark::SecondPlayer);
                    assert(self@[k as int] == Mark::SecondPlayer);
                }
                let v: i64 = if k == 4 {
                    4800
                } else if k % 2 == 0 {
                    3600
                } else {
                    2400
                };
                return Some(v);
            }
            k = k + 1;
        }
        None
    }

    /// The score of this board searched to `depth`: the sum, over every
    /// continuation, of `±10^d` for each line completed with `d` levels of
    /// search left (positive for the second player). The mark placed at each
    /// level follows the parity of the depth left.
    ///
    /// Scores are looked up in `cache` first and stored there after a search.
    pub fn score(&self, depth: u32, cache: &mut ScoreCache) -> (r: i64)
        requires
            old(cache).wf(),
            depth <= MAX_DEPTH,
        ensures
            final(cache).wf(),
            score_effect(old(cache)@, final(cache)@, self@, depth as nat, r as int),
        decreases depth,
    {
        if depth == OPENING_DEPTH {
            if let Some(v) = self.opening_score() {
                return v;
            }
        }
        if let Some(v) = cache.lookup(self, depth) {
            return v;
        }
        if depth == 0 {
            return 0;
        }
        match self.winning_line() {
            Some(m) => {
                let p = pow10_i64(depth);
                return if m == Mark::SecondPlayer {
                    p
                } else {
                    -p
                };
            },
            None => {},
        }
        let ghost d: nat = depth as nat;
        let m = if depth % 2 == 0 {
            Mark::FirstPlayer
        } else {
            Mark::SecondPlayer
        };
        proof {
            lemma_pow10_le((d - 1) as nat, 17);
            lemma_pow10_17();
        }
        let mut total: i64 = 0;
        let mut i: usize = 0;
        while i < 9
            invariant
                i <= 9,
                0 < depth <= MAX_DEPTH,
                d == depth,
                m == mover(d),
                cache.wf(),
                old(cache)@.submap_of(cache@),
                !old(cache)@.contains_key(key_of(self@, depth)),
                total == children_sum(self@, d, i as nat),
                pow10((d - 1) as nat) <= 100_000_000_000_000_000,
            decreases 9 - i,
        {
            proof {
                lemma_children_bound(self@, d, i as nat);
                lemma_pow10_le(0, (d - 1) as nat);
                let p = pow10((d - 1) as nat);
                assert(i * p <= 8 * 100_000_000_000_000_000) by (nonlinear_arith)
                    requires
                        i < 9,
                        0 <= p <= 100_000_000_000_000_000,
                ;
            }
            if self.cells[i] == Mark::Empty {
                let mut next = *self;
                next.cells[i] = m;
                assert(next@ == self@.update(i as int, m));
                let ghost mid = cache@;
                let v = next.score(depth - 1, cache);
                proof {
                    lemma_score_bound(next@, (d - 1) as nat);
                    assert forall|k: u64| #[trigger]
                        old(cache)@.contains_key(k) implies cache@.contains_key(k) && cache@[k]
                        == old(cache)@[k] by {
                        assert(mid.contains_key(k));
                    }
                }
                total = total + v;
            }
            i = i + 1;
        }
        let ghost before = cache@;
        cache.store(self, depth, total);
        assert forall|k: u64| #[trigger]
            old(cache)@.contains_key(k) implies cache@.contains_key(k) && cache@[k]
            == old(cache)@[k] by {
            assert(before.contains_key(k));
        }
        total
    }
}

} // verus!
