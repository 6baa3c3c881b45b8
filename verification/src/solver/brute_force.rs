//! The plain solver: depth-first search that rechecks the whole board after
//! every placement.
use vstd::prelude::*;
use crate::board::{Board, Cell};
use crate::rules::{
    balanced, complete, count, filled, has_run, inside, legal, lemma_count_step, lemma_put, lines,
    lines_balanced, lines_distinct, lines_run_free, put, run_at, square, Grid,
};
use crate::solution::{
    before, filled_before, first_solution, lemma_blue_first, lemma_both_fail,
    lemma_complete_is_first, lemma_filled_after_put, lemma_filled_all, lemma_filled_further,
    lemma_red_first, lemma_solved_stays, lemma_unsolvable, solvable,
};
use crate::solver::Solver;

verus! {

/// The plain solver. It holds nothing but the board it was lent.
pub struct BruteForce<'board> {
    pub board: &'board mut Board,
}

impl<'board> BruteForce<'board> {
    /// The cells of the board as they stand.
    pub open spec fn grid(&self) -> Grid {
        self.board@
    }

    /// The cell at `pos` of line `line`, lines being columns or else rows.
    fn cell_of(&self, by_columns: bool, line: usize, pos: usize) -> (cell: Cell)
        requires
            self.board.wf(),
            line < self.grid().len(),
            pos < self.grid().len(),
        ensures
            cell == lines(self.grid(), by_columns)[line as int][pos as int],
            lines(self.grid(), by_columns).len() == self.grid().len(),
            lines(self.grid(), by_columns)[line as int].len() == self.grid().len(),
    {
        if by_columns {
            *self.board.at(pos, line).unwrap()
        } else {
            *self.board.at(line, pos).unwrap()
        }
    }

    /// Whether line `line` holds three equal colours side by side. The line is
    /// read once, keeping the colour last seen and the length of its run; an
    /// empty cell ends the run.
    fn line_has_run(&self, by_columns: bool, line: usize) -> (found: bool)
        requires
            self.board.wf(),
            line < self.grid().len(),
        ensures
            found == has_run(lines(self.grid(), by_columns)[line as int]),
    {
        let size = self.board.size();
        let ghost l = lines(self.grid(), by_columns)[line as int];
        let mut last = Cell::Empty;
        let mut matching_lasts: usize = 0;
        let mut pos: usize = 0;
        while pos < size
            invariant
                self.board.wf(),
                size == self.grid().len(),
                line < size,
                pos <= size,
                l == lines(self.grid(), by_columns)[line as int],
                l.len() == size,
                forall|i: int| 0 <= i && i + 2 < pos ==> !run_at(l, i),
                matching_lasts <= 2,
                matching_lasts == 0 ==> pos == 0 || l[pos - 1] == Cell::Empty,
                matching_lasts >= 1 ==> pos >= 1 && l[pos - 1] == last && last != Cell::Empty,
                matching_lasts == 1 ==> pos == 1 || l[pos - 2] != last,
                matching_lasts == 2 ==> pos >= 2 && l[pos - 2] == last,
            decreases size - pos,
        {
            let cell = self.cell_of(by_columns, line, pos);
            if cell == Cell::Empty {
                last = Cell::Empty;
                matching_lasts = 0;
            } else if cell == last {
                matching_lasts += 1;
            } else {
                matching_lasts = 1;
                last = cell;
            }
            if matching_lasts >= 3 {
                assert(run_at(l, pos - 2));
                return true;
            }
            pos += 1;
        }
        assert(l.len() == size);
        false
    }

    /// Whether some line of the direction holds a run of three.
    fn any_run(&self, by_columns: bool) -> (found: bool)
        requires
            self.board.wf(),
        ensures
            found == !lines_run_free(lines(self.grid(), by_columns)),
    {
        let size = self.board.size();
        let ghost ls = lines(self.grid(), by_columns);
        let mut line: usize = 0;
        while line < size
            invariant
                self.board.wf(),
                size == self.grid().len(),
                ls == lines(self.grid(), by_columns),
                ls.len() == size,
                line <= size,
                forall|i: int| 0 <= i < line ==> !has_run(#[trigger] ls[i]),
            decreases size - line,
        {
            if self.line_has_run(by_columns, line) {
                return true;
            }
            line += 1;
        }
        false
    }

    /// Whether lines `a` and `b` are filled and hold the same colours.
    fn lines_alike(&self, by_columns: bool, a: usize, b: usize) -> (alike: bool)
        requires
            self.board.wf(),
            a < self.grid().len(),
            b < self.grid().len(),
        ensures
            alike == (filled(lines(self.grid(), by_columns)[a as int]) && lines(
                self.grid(),
                by_columns,
            )[a as int] == lines(self.grid(), by_columns)[b as int]),
    {
        let size = self.board.size();
        let ghost la = lines(self.grid(), by_columns)[a as int];
        let ghost lb = lines(self.grid(), by_columns)[b as int];
        let mut pos: usize = 0;
        while pos < size
            invariant
                self.board.wf(),
                size == self.grid().len(),
                a < size,
                b < size,
                pos <= size,
                la == lines(self.grid(), by_columns)[a as int],
                lb == lines(self.grid(), by_columns)[b as int],
                la.len() == size,
                lb.len() == size,
                forall|i: int| 0 <= i < pos ==> la[i] != Cell::Empty && la[i] == lb[i],
            decreases size - pos,
        {
            let cell1 = self.cell_of(by_columns, a, pos);
            let cell2 = self.cell_of(by_columns, b, pos);
            if cell1 == Cell::Empty || cell2 == Cell::Empty || cell1 != cell2 {
                assert(la[pos as int] == Cell::Empty || la[pos as int] != lb[pos as int]);
                return false;
            }
            pos += 1;
        }
        assert(la =~= lb);
        true
    }

    /// Whether some filled line of the direction occurs a second time.
    fn any_twins(&self, by_columns: bool) -> (found: bool)
        requires
            self.board.wf(),
        ensures
            found == !lines_distinct(lines(self.grid(), by_columns)),
    {
        let size = self.board.size();
        let ghost ls = lines(self.grid(), by_columns);
        let mut a: usize = 0;
        while a < size
            invariant
                self.board.wf(),
                size == self.grid().len(),
                ls == lines(self.grid(), by_columns),
                ls.len() == size,
                a <= size,
                forall|i: int, j: int|
                    0 <= i < a && i < j < size && filled(ls[i]) ==> #[trigger] ls[i]
                        != #[trigger] ls[j],
            decreases size - a,
        {
            let mut b: usize = a + 1;
            while b < size
                invariant
                    self.board.wf(),
                    size == self.grid().len(),
                    ls == lines(self.grid(), by_columns),
                    ls.len() == size,
                    a < size,
                    a < b <= size,
                    forall|j: int| a < j < b && filled(ls[a as int]) ==> ls[a as int] != #[trigger] ls[j],
                decreases size - b,
            {
                if self.lines_alike(by_columns, a, b) {
                    return true;
                }
                b += 1;
            }
            a += 1;
        }
        false
    }

    /// Whether line `line` is filled and yet not half red, half blue. Counts
    /// one up for blue and one down for red; a filled line is balanced when
    /// the count ends at zero.
    fn line_off_balance(&self, by_columns: bool, line: usize) -> (off: bool)
        requires
            self.board.wf(),
            line < self.grid().len(),
        ensures
            off == (filled(lines(self.grid(), by_columns)[line as int]) && !balanced(
                lines(self.grid(), by_columns)[line as int],
            )),
    {
        let size = self.board.size();
        let ghost l = lines(self.grid(), by_columns)[line as int];
        assert(size < 0x1_0000_0000) by (nonlinear_arith)
            requires
                size * size <= usize::MAX,
                usize::MAX <= 0xffff_ffff_ffff_ffff,
        ;
        let mut sum: i64 = 0;
        let mut pos: usize = 0;
        while pos < size
            invariant
                self.board.wf(),
                size == self.grid().len(),
                line < size,
                pos <= size,
                l == lines(self.grid(), by_columns)[line as int],
                l.len() == size,
                size < 0x1_0000_0000,
                forall|i: int| 0 <= i < pos ==> l[i] != Cell::Empty,
                sum == count(l.take(pos as int), Cell::Blue) - count(l.take(pos as int), Cell::Red),
                count(l.take(pos as int), Cell::Blue) + count(l.take(pos as int), Cell::Red) == pos,
            decreases size - pos,
        {
            let cell = self.cell_of(by_columns, line, pos);
            proof {
                lemma_count_step(l, pos as int, Cell::Red);
                lemma_count_step(l, pos as int, Cell::Blue);
            }
            match cell {
                Cell::Empty => {
                    return false;
                },
                Cell::Red => {
                    sum = sum - 1;
                },
                Cell::Blue => {
                    sum = sum + 1;
                },
            }
            pos += 1;
        }
        assert(l.take(size as int) =~= l);
        sum != 0
    }

    /// Whether some filled line of the direction is out of balance.
    fn any_off_balance(&self, by_columns: bool) -> (found: bool)
        requires
            self.board.wf(),
        ensures
            found == !lines_balanced(lines(self.grid(), by_columns)),
    {
        let size = self.board.size();
        let ghost ls = lines(self.grid(), by_columns);
        let mut line: usize = 0;
        while line < size
            invariant
                self.board.wf(),
                size == self.grid().len(),
                ls == lines(self.grid(), by_columns),
                ls.len() == size,
                line <= size,
                forall|i: int| 0 <= i < line && filled(#[trigger] ls[i]) ==> balanced(ls[i]),
            decreases size - line,
        {
            if self.line_off_balance(by_columns, line) {
                return true;
            }
            line += 1;
        }
        false
    }

    /// Writes `cell` at (`row`, `col`) of the board.
    fn set(&mut self, row: usize, col: usize, cell: Cell)
        requires
            old(self).board.wf(),
        ensures
            final(self).board.wf(),
            *final(final(self).board) == *final(old(self).board),
            final(self).grid() == if inside(old(self).grid(), row as int, col as int) {
                put(old(self).grid(), row as int, col as int, cell)
            } else {
                old(self).grid()
            },
    {
        self.board.set(row, col, cell)
    }

    /// Empties the cell at (`row`, `col`) of the board.
    fn unset(&mut self, row: usize, col: usize)
        requires
            old(self).board.wf(),
        ensures
            final(self).board.wf(),
            *final(final(self).board) == *final(old(self).board),
            final(self).grid() == if inside(old(self).grid(), row as int, col as int) {
                put(old(self).grid(), row as int, col as int, Cell::Empty)
            } else {
                old(self).grid()
            },
    {
        self.set(row, col, Cell::Empty)
    }

    /// The search from (`row`, `col`) on, reading row by row: a coloured cell
    /// is passed over, an empty one is tried red, then blue, and each colour
    /// is pursued only while the board breaks no rule. On failure the cell is
    /// emptied again.
    fn rec_solve(&mut self, row: usize, col: usize) -> (solved: bool)
        requires
            old(self).board.wf(),
            row <= old(self).grid().len(),
            col <= old(self).grid().len(),
            legal(old(self).grid()),
            filled_before(old(self).grid(), row as int, col as int),
        ensures
            final(self).board.wf(),
            *final(final(self).board) == *final(old(self).board),
            solved <==> solvable(old(self).grid()),
            solved ==> first_solution(final(self).grid(), old(self).grid()),
            !solved ==> final(self).grid() == old(self).grid(),
        decreases old(self).grid().len() - row, old(self).grid().len() - col,
    {
        let size = self.board.size();
        let ghost g = self.grid();
        if row >= size {
            proof {
                lemma_filled_all(g, row as int, col as int);
                lemma_complete_is_first(g);
            }
            return true;
        }
        if col >= size {
            proof {
                assert forall|r1: int, c1: int|
                    inside(g, r1, c1) && before(r1, c1, row + 1, 0) implies #[trigger] g[r1][c1]
                    != Cell::Empty by {
                    assert(before(r1, c1, row as int, col as int));
                }
            }
            return self.rec_solve(row + 1, 0);
        }
        let cell = *self.board.at(row, col).unwrap();
        if cell != Cell::Empty {
            proof {
                lemma_filled_further(g, row as int, col as int);
            }
            return self.rec_solve(row, col + 1);
        }
        let candidates = [Cell::Red, Cell::Blue];
        let mut tried: usize = 0;
        while tried < 2
            invariant
                self.board.wf(),
                *final(self.board) == *final(old(self).board),
                g == old(self).grid(),
                square(g),
                size == g.len(),
                row < size,
                col < size,
                g[row as int][col as int] == Cell::Empty,
                filled_before(g, row as int, col as int),
                candidates[0] == Cell::Red,
                candidates[1] == Cell::Blue,
                tried <= 2,
                tried == 0 ==> self.grid() == g,
                tried >= 1 ==> self.grid() == put(g, row as int, col as int, candidates[tried - 1]),
                forall|i: int|
                    0 <= i < tried ==> !solvable(
                        put(g, row as int, col as int, #[trigger] candidates[i]),
                    ),
            decreases 2 - tried,
        {
            let colour = candidates[tried];
            let ghost tinted = put(g, row as int, col as int, colour);
            proof {
                lemma_put(g, row as int, col as int, colour);
                lemma_filled_after_put(g, row as int, col as int, colour);
            }
            self.set(row, col, colour);
            assert(self.grid() == tinted);
            if self.is_valid() {
                if self.rec_solve(row, col + 1) {
                    proof {
                        if tried == 0 {
                            lemma_red_first(self.grid(), g, row as int, col as int);
                        } else {
                            assert(!solvable(put(g, row as int, col as int, candidates[0])));
                            lemma_blue_first(self.grid(), g, row as int, col as int);
                        }
                    }
                    return true;
                }
            } else {
                proof {
                    lemma_unsolvable(tinted);
                }
            }
            tried += 1;
        }
        proof {
            lemma_put(g, row as int, col as int, Cell::Empty);
            assert(!solvable(put(g, row as int, col as int, candidates[0])));
            assert(!solvable(put(g, row as int, col as int, candidates[1])));
            lemma_both_fail(g, row as int, col as int);
        }
        self.unset(row, col);
        false
    }
}

impl<'board> Solver<'board> for BruteForce<'board> {
    open spec fn board(&self) -> &'board mut Board {
        self.board
    }

    open spec fn wf(&self) -> bool {
        self.board.wf()
    }

    open spec fn takes(board: Board) -> bool {
        true
    }

    open spec fn accepts(g: Grid) -> bool {
        legal(g)
    }

    fn new_solver(board: &'board mut Board) -> (solver: Self) {
        Self { board }
    }

    /// The board is checked once before the search, then after every
    /// placement.
    fn solve(&mut self) -> (solved: bool) {
        if !self.is_valid() {
            proof {
                lemma_unsolvable(self.grid());
            }
            return false;
        }
        let ghost g = self.grid();
        let solved = self.rec_solve(0, 0);
        proof {
            if complete(g) {
                if legal(g) {
                    lemma_solved_stays(g, self.grid());
                } else {
                    lemma_unsolvable(g);
                }
            }
        }
        solved
    }

    /// Whether the board as it stands breaks no rule: no run of three, no
    /// filled line twice, no filled line out of balance, by rows and by
    /// columns.
    fn is_valid(&mut self) -> (valid: bool) {
        if self.any_run(false) || self.any_run(true) {
            return false;
        }
        if self.any_twins(false) || self.any_twins(true) {
            return false;
        }
        if self.any_off_balance(false) || self.any_off_balance(true) {
            return false;
        }
        true
    }
}

} // verus!
