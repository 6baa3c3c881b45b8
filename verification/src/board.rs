//! The grid as stored: a fixed-size square of cells, and a builder for it.
use vstd::prelude::*;
use crate::rules::{blank, inside, put, square, Grid};

verus! {

/// One square of the grid: not yet coloured, or one of the two colours.
#[derive(Clone, Copy, PartialEq, Eq, Structural, Debug)]
pub enum Cell {
    Empty,
    Red,
    Blue,
}

impl Default for Cell {
    fn default() -> (cell: Self)
        ensures
            cell == Cell::Empty,
    {
        Cell::Empty
    }
}

/// A square grid of cells, stored row after row.
#[derive(Debug)]
pub struct Board {
    size: usize,
    cells: Vec<Cell>,
}

/// Cells of distinct positions of a square of side `n` are stored apart.
proof fn lemma_offsets_apart(n: int, r1: int, c1: int, r2: int, c2: int)
    requires
        0 <= r1 < n,
        0 <= c1 < n,
        0 <= r2 < n,
        0 <= c2 < n,
    ensures
        0 <= r1 * n <= r1 * n + c1 < n * n,
        r1 * n + c1 == r2 * n + c2 <==> (r1 == r2 && c1 == c2),
{
    assert(0 <= r1 * n <= r1 * n + c1 < n * n) by (nonlinear_arith)
        requires
            0 <= r1 < n,
            0 <= c1 < n,
    ;
    if r1 < r2 {
        assert(r1 * n + c1 < r2 * n + c2) by (nonlinear_arith)
            requires
                r1 + 1 <= r2,
                0 <= c1 < n,
                0 <= c2,
        ;
    }
    if r2 < r1 {
        assert(r2 * n + c2 < r1 * n + c1) by (nonlinear_arith)
            requires
                r2 + 1 <= r1,
                0 <= c2 < n,
                0 <= c1,
        ;
    }
}

impl View for Board {
    type V = Grid;

    closed spec fn view(&self) -> Grid {
        Seq::new(
            self.size as nat,
            |r: int| Seq::new(self.size as nat, |c: int| self.cells@[r * self.size + c]),
        )
    }
}

impl Board {
    /// The stored cells are exactly those of a square of the recorded side.
    pub closed spec fn stored(&self) -> bool {
        &&& self.cells@.len() == self.size * self.size
        &&& self@.len() == self.size
    }

    /// The board is a square of even, positive side.
    pub open spec fn wf(&self) -> bool {
        &&& self.stored()
        &&& square(self@)
        &&& self@.len() > 0
        &&& self@.len() % 2 == 0
    }

    /// Writing one stored cell changes that cell of the grid and no other.
    proof fn lemma_write(before: Board, after: Board, row: int, col: int, v: Cell)
        requires
            before.stored(),
            0 <= row < before.size,
            0 <= col < before.size,
            after.size == before.size,
            after.cells@ == before.cells@.update(row * before.size + col, v),
        ensures
            after.stored(),
            after@ == put(before@, row, col, v),
    {
        let n = before.size as int;
        let goal = put(before@, row, col, v);
        lemma_offsets_apart(n, row, col, row, col);
        assert forall|r: int| 0 <= r < n implies #[trigger] after@[r] == goal[r] by {
            assert forall|c: int| 0 <= c < n implies #[trigger] after@[r][c] == goal[r][c] by {
                lemma_offsets_apart(n, r, c, row, col);
            }
            assert(after@[r] =~= goal[r]);
        }
        assert(after@ =~= goal);
    }

    /// An empty board of side `size`.
    pub fn new(size: usize) -> (board: Self)
        requires
            size > 0,
            size % 2 == 0,
            size * size <= usize::MAX,
        ensures
            board.wf(),
            board@ == blank(size as nat),
    {
        let cells = vec![Cell::Empty; size * size];
        let board = Board { size, cells };
        proof {
            assert forall|r: int| 0 <= r < size implies #[trigger] board@[r] == blank(
                size as nat,
            )[r] by {
                assert forall|c: int| 0 <= c < size implies #[trigger] board@[r][c]
                    == Cell::Empty by {
                    lemma_offsets_apart(size as int, r, c, r, c);
                }
                assert(board@[r] =~= blank(size as nat)[r]);
            }
            assert(board@ =~= blank(size as nat));
        }
        board
    }

    /// The side of the board.
    pub fn size(&self) -> (n: usize)
        requires
            self.wf(),
        ensures
            n == self@.len(),
            n * n <= usize::MAX,
    {
        proof {
            assert(self.cells.len() <= usize::MAX);
        }
        self.size
    }

    /// The cell at (`row`, `col`), or nothing when that lies off the board.
    pub fn at(&self, row: usize, col: usize) -> (cell: Option<&Cell>)
        requires
            self.wf(),
        ensures
            inside(self@, row as int, col as int) ==> cell == Some(&self@[row as int][col as int]),
            !inside(self@, row as int, col as int) ==> cell is None,
    {
        if row < self.size && col < self.size {
            proof {
                lemma_offsets_apart(self.size as int, row as int, col as int, row as int, col as int);
                assert(self.cells.len() <= usize::MAX);
            }
            Some(&self.cells[row * self.size + col])
        } else {
            None
        }
    }

    /// The cell at (`row`, `col`) for writing, or nothing when that lies off
    /// the board. What is written through it is the board's new cell there.
    pub fn at_mut(&mut self, row: usize, col: usize) -> (cell: Option<&mut Cell>)
        requires
            old(self).wf(),
        ensures
            final(self).wf(),
            match cell {
                Some(slot) => {
                    &&& inside(old(self)@, row as int, col as int)
                    &&& *slot == old(self)@[row as int][col as int]
                    &&& final(self)@ == put(old(self)@, row as int, col as int, *final(slot))
                },
                None => {
                    &&& !inside(old(self)@, row as int, col as int)
                    &&& final(self)@ == old(self)@
                },
            },
    {
        if row < self.size && col < self.size {
            proof {
                lemma_offsets_apart(self.size as int, row as int, col as int, row as int, col as int);
                assert(self.cells.len() <= usize::MAX);
                let before = *self;
                let at = row * self.size + col;
                assert forall|after: Board, v: Cell|
                    after.size == before.size && after.cells@ == #[trigger] before.cells@.update(
                        at,
                        v,
                    ) implies after.stored() && #[trigger] after@ == put(
                    before@,
                    row as int,
                    col as int,
                    v,
                ) by {
                    Self::lemma_write(before, after, row as int, col as int, v);
                }
            }
            let slot = &mut self.cells[row * self.size + col];
            Some(slot)
        } else {
            None
        }
    }

    /// Writes `cell` at (`row`, `col`); a position off the board is ignored.
    pub fn set(&mut self, row: usize, col: usize, cell: Cell)
        requires
            old(self).wf(),
        ensures
            final(self).wf(),
            final(self)@ == if inside(old(self)@, row as int, col as int) {
                put(old(self)@, row as int, col as int, cell)
            } else {
                old(self)@
            },
    {
        if let Some(slot) = self.at_mut(row, col) {
            *slot = cell;
        }
    }

    /// Empties the cell at (`row`, `col`); a position off the board is ignored.
    pub fn unset(&mut self, row: usize, col: usize)
        requires
            old(self).wf(),
        ensures
            final(self).wf(),
            final(self)@ == if inside(old(self)@, row as int, col as int) {
                put(old(self)@, row as int, col as int, Cell::Empty)
            } else {
                old(self)@
            },
    {
        self.set(row, col, Cell::Empty)
    }

    /// A builder that starts from the empty board of side `size`.
    pub fn builder(size: usize) -> (builder: BoardBuilder)
        requires
            size > 0,
            size % 2 == 0,
            size * size <= usize::MAX,
        ensures
            builder.wf(),
            builder@ == blank(size as nat),
    {
        BoardBuilder::new(size)
    }
}

impl Clone for Board {
    /// An independent board with the same cells.
    fn clone(&self) -> (copy: Self)
        ensures
            copy@ == self@,
            self.wf() ==> copy.wf(),
    {
        Board { size: self.size, cells: self.cells.clone() }
    }
}

/// A board under construction: cells are inserted one by one, and `build`
/// hands out a snapshot of what has been inserted so far.
#[derive(Debug)]
pub struct BoardBuilder {
    board: Board,
}

impl View for BoardBuilder {
    type V = Grid;

    closed spec fn view(&self) -> Grid {
        self.board@
    }
}

impl BoardBuilder {
    /// The board under construction is a well-formed board.
    pub closed spec fn wf(&self) -> bool {
        self.board.wf()
    }

    /// A builder that starts from the empty board of side `size`.
    pub fn new(size: usize) -> (builder: Self)
        requires
            size > 0,
            size % 2 == 0,
            size * size <= usize::MAX,
        ensures
            builder.wf(),
            builder@ == blank(size as nat),
    {
        let board = Board::new(size);
        BoardBuilder { board }
    }

    /// Writes `cell` at (`row`, `col`) and hands the builder back for the next
    /// insertion; a position off the board is ignored.
    pub fn insert(&mut self, row: usize, col: usize, cell: Cell) -> (next: &mut Self)
        requires
            old(self).wf(),
        ensures
            next.wf(),
            next@ == if inside(old(self)@, row as int, col as int) {
                put(old(self)@, row as int, col as int, cell)
            } else {
                old(self)@
            },
            *final(self) == *final(next),
    {
        self.board.set(row, col, cell);
        self
    }

    /// A snapshot of the board as inserted so far. The builder keeps its own
    /// cells, so later insertions leave the snapshot as it is.
    pub fn build(&mut self) -> (board: Board)
        requires
            old(self).wf(),
        ensures
            board.wf(),
            board@ == old(self)@,
            *final(self) == *old(self),
    {
        self.board.clone()
    }
}

} // verus!
