use vstd::prelude::*;

verus! {

/// What one cell of a board holds.
#[derive(Clone, Copy, Debug, PartialEq, Eq, Structural)]
pub enum Mark {
    FirstPlayer,
    SecondPlayer,
    Empty,
    /// A cell that can no longer be won; used on the meta-board for a drawn sub-board.
    Dead,
}

impl Mark {
    /// The glyph shown for this mark.
    pub fn glyph(&self) -> (r: char)
        ensures
            r == glyph_of(*self),
    {
        match self {
            Mark::FirstPlayer => 'X',
            Mark::SecondPlayer => 'O',
            Mark::Empty => '.',
            Mark::Dead => ' ',
        }
    }
}

pub open spec fn glyph_of(m: Mark) -> char {
    match m {
        Mark::FirstPlayer => 'X',
        Mark::SecondPlayer => 'O',
        Mark::Empty => '.',
        Mark::Dead => ' ',
    }
}

/// A 3×3 grid of marks, stored row-major: cell `(row, col)` is at `row * 3 + col`.
#[derive(Clone, Copy, Debug)]
pub struct Board {
    pub cells: [Mark; 9],
}

impl View for Board {
    type V = Seq<Mark>;

    open spec fn view(&self) -> Seq<Mark> {
        self.cells@
    }
}

/// The board with every cell empty.
pub open spec fn blank_cells() -> Seq<Mark> {
    Seq::new(9, |i: int| Mark::Empty)
}

/// The number of empty cells among the first `n`.
pub open spec fn empties_upto(s: Seq<Mark>, n: int) -> nat
    decreases n,
{
    if n <= 0 {
        0
    } else {
        empties_upto(s, n - 1) + if s[n - 1] == Mark::Empty {
            1nat
        } else {
            0nat
        }
    }
}

/// The number of empty cells of a board.
pub open spec fn empty_count_of(s: Seq<Mark>) -> nat {
    empties_upto(s, 9)
}

/// Whether a board has an empty cell.
pub open spec fn has_empty(s: Seq<Mark>) -> bool {
    exists|i: int| 0 <= i < 9 && s[i] == Mark::Empty
}

/// The indices of the occupied cells of a board.
pub open spec fn occupied(s: Seq<Mark>) -> Set<int> {
    Set::new(|i: int| 0 <= i < 9 && s[i] != Mark::Empty)
}

impl Board {
    /// A board with every cell empty.
    pub fn blanks() -> (r: Board)
        ensures
            r@ == blank_cells(),
    {
        let r = Board { cells: [Mark::Empty; 9] };
        assert(r@ =~= blank_cells());
        r
    }

    /// A board from its rows.
    pub fn from_rows(rows: [[Mark; 3]; 3]) -> (r: Board)
        ensures
            forall|row: int, col: int|
                0 <= row < 3 && 0 <= col < 3 ==> #[trigger] r@[row * 3 + col] == rows[row][col],
    {
        let r0 = rows[0];
        let r1 = rows[1];
        let r2 = rows[2];
        Board { cells: [r0[0], r0[1], r0[2], r1[0], r1[1], r1[2], r2[0], r2[1], r2[2]] }
    }

    /// The mark at `(row, col)`.
    pub fn cell_at(&self, row: usize, col: usize) -> (r: Mark)
        requires
            row < 3,
            col < 3,
        ensures
            r == self@[row * 3 + col],
    {
        self.cells[row * 3 + col]
    }

    /// Puts `m` at `(row, col)`, leaving every other cell as it was.
    pub fn set_cell(&mut self, row: usize, col: usize, m: Mark)
        requires
            row < 3,
            col < 3,
        ensures
            final(self)@ == old(self)@.update(row * 3 + col, m),
    {
        self.cells[row * 3 + col] = m;
    }

    /// The nine cells in row-major order.
    pub fn flatten(&self) -> (r: [Mark; 9])
        ensures
            r@ == self@,
    {
        self.cells
    }

    /// The number of empty cells.
    pub fn empty_count(&self) -> (r: usize)
        ensures
            r == empty_count_of(self@),
    {
        let mut n: usize = 0;
        let mut i: usize = 0;
        while i < 9
            invariant
                i <= 9,
                n == empties_upto(self@, i as int),
                n <= i,
            decreases 9 - i,
        {
            if self.cells[i] == Mark::Empty {
                n = n + 1;
            }
            i = i + 1;
        }
        n
    }
}

} // verus!
