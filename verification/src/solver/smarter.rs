//! The faster solver: it keeps every row and every column as a pair of bit
//! masks, so that a placement is checked by a few word operations.
use itertools::Itertools;
use vstd::prelude::*;
use crate::board::{Board, Cell};
use crate::rules::{
    complete, feasible, filled, has_run, has_run_within, inside, legal, lemma_checks_agree,
    lemma_filled_by_count, lemma_local_check, lemma_put, lemma_put_lines,
    lemma_window_suffices, lines_feasible, lines_run_free, locally_clean, put, run_at, run_free,
    square, transpose, within_quota, Grid,
};
use crate::solution::{
    before, filled_before, first_solution, lemma_blue_first, lemma_both_fail,
    lemma_complete_is_first, lemma_filled_after_put, lemma_filled_all, lemma_filled_further,
    lemma_red_first, lemma_solved_stays, lemma_unsolvable, solvable,
};
use crate::solver::masks::{
    bit, bits_of, encodes, lemma_encodes_counts, lemma_encodes_mark, lemma_encodes_run,
    lemma_encodes_same, lemma_mirrors_mark, lemma_zero_bits, mirrors, triple_at, WIDTH,
};
use crate::solver::Solver;

pub use crate::solver::masks::{bits_iter, BitsIter, BitsRepr};

verus! {

/// Three set bits in a row stand within the five bits of `word` from `lower`
/// on.
pub open spec fn triple_within(word: u32, lower: int) -> bool {
    exists|s: int| lower <= s <= lower + 2 && triple_at(word, s)
}

/// `Itertools::tuple_windows` over the items of a vector, for windows of
/// three: each item with the two that follow it, in order, as long as two
/// follow; none when there are fewer than three items.
#[verifier::external_body]
fn triple_windows(items: Vec<bool>) -> (windows: Vec<(bool, bool, bool)>)
    ensures
        windows@.len() == if items@.len() >= 3 {
            items@.len() - 2
        } else {
            0
        },
        forall|i: int|
            0 <= i < windows@.len() ==> #[trigger] windows@[i] == (
                items@[i],
                items@[i + 1],
                items@[i + 2],
            ),
{
    items.into_iter().tuple_windows().collect()
}

/// Whether three set bits in a row stand within the five bits of `bits` from
/// `lower` on: the bits before `lower` are passed over, up to five are taken,
/// and each three neighbours among them are looked at.
fn triplet(bits: u32, lower: usize) -> (found: bool)
    ensures
        found == triple_within(bits, lower as int),
{
    let mut iter = bits_iter(bits);
    let mut skipped: usize = 0;
    let mut more = true;
    while more && skipped < lower
        invariant
            skipped <= lower,
            skipped <= 32,
            iter@ == bits_of(bits).skip(skipped as int),
            !more ==> skipped == 32 && lower > 32,
        decreases lower - skipped + if more { 1int } else { 0int },
    {
        match iter.next() {
            Some(_) => {
                assert(bits_of(bits).skip(skipped as int).drop_first() =~= bits_of(bits).skip(
                    skipped + 1,
                ));
                skipped += 1;
            },
            None => {
                more = false;
            },
        }
    }
    let ghost start: int = if lower <= 32 { lower as int } else { 32 };
    assert(iter@ =~= bits_of(bits).skip(start));
    let mut window: Vec<bool> = Vec::new();
    more = true;
    while more && window.len() < 5
        invariant
            0 <= start <= 32,
            window@.len() <= 5,
            start + window@.len() <= 32,
            iter@ == bits_of(bits).skip(start + window@.len()),
            forall|i: int| 0 <= i < window@.len() ==> window@[i] == bit(bits, start + i),
            !more ==> start + window@.len() == 32,
        decreases 5 - window@.len() + if more { 1int } else { 0int },
    {
        match iter.next() {
            Some(b) => {
                assert(bits_of(bits).skip(start + window@.len()).drop_first() =~= bits_of(
                    bits,
                ).skip(start + window@.len() + 1));
                window.push(b);
            },
            None => {
                more = false;
            },
        }
    }
    let ghost taken = window@;
    let triples = triple_windows(window);
    let mut i: usize = 0;
    while i < triples.len()
        invariant
            0 <= start <= 32,
            start == if lower <= 32 { lower as int } else { 32 },
            taken.len() <= 5,
            start + taken.len() <= 32,
            taken.len() == 5 || start + taken.len() == 32,
            forall|j: int| 0 <= j < taken.len() ==> taken[j] == bit(bits, start + j),
            triples@.len() == if taken.len() >= 3 { taken.len() - 2 } else { 0 },
            forall|j: int|
                0 <= j < triples@.len() ==> #[trigger] triples@[j] == (
                    taken[j],
                    taken[j + 1],
                    taken[j + 2],
                ),
            i <= triples@.len(),
            forall|s: int| start <= s < start + i ==> !triple_at(bits, s),
        decreases triples@.len() - i,
    {
        let (a, b, c) = triples[i];
        if a && b && c {
            assert(triple_at(bits, start + i));
            return true;
        }
        i += 1;
    }
    assert forall|s: int| lower <= s <= lower + 2 implies !triple_at(bits, s) by {
        if s < start + triples@.len() {
        } else {
            assert(s + 2 >= 32);
        }
    }
    false
}

/// A window of the masks of a line holds three set bits in a row exactly when
/// that window of the line holds a run of three.
proof fn lemma_encodes_window(bits: BitsRepr, line: Seq<Cell>, lower: int)
    requires
        encodes(bits, line),
    ensures
        has_run_within(line, lower) <==> triple_within(bits.reds, lower) || triple_within(
            bits.blues,
            lower,
        ),
{
    lemma_encodes_run(bits, line, lower);
    lemma_encodes_run(bits, line, lower + 1);
    lemma_encodes_run(bits, line, lower + 2);
    if has_run_within(line, lower) {
        let i = choose|i: int| lower <= i <= lower + 2 && run_at(line, i);
        assert(triple_at(bits.reds, i) || triple_at(bits.blues, i));
    }
    if triple_within(bits.reds, lower) {
        let s = choose|s: int| lower <= s <= lower + 2 && triple_at(bits.reds, s);
        assert(run_at(line, s));
    }
    if triple_within(bits.blues, lower) {
        let s = choose|s: int| lower <= s <= lower + 2 && triple_at(bits.blues, s);
        assert(run_at(line, s));
    }
}

/// Whether the line that `bits` stand for holds a run of three: its windows
/// of five are looked at one after the other, each starting where the last
/// one's runs could no longer start.
fn masks_hold_run(bits: BitsRepr, size: usize, Ghost(line): Ghost<Seq<Cell>>) -> (found: bool)
    requires
        encodes(bits, line),
        line.len() == size,
    ensures
        found == has_run(line),
{
    let mut lower: usize = 0;
    while lower < size
        invariant
            encodes(bits, line),
            line.len() == size,
            lower <= size + 2,
            forall|i: int| 0 <= i < lower ==> !run_at(line, i),
        decreases size + 3 - lower,
    {
        proof {
            lemma_encodes_window(bits, line, lower as int);
        }
        if triplet(bits.reds, lower) || triplet(bits.blues, lower) {
            let ghost i = choose|i: int| lower <= i <= lower + 2 && run_at(line, i);
            assert(run_at(line, i));
            return true;
        }
        assert forall|i: int| 0 <= i < lower + 3 implies !run_at(line, i) by {
            if i >= lower {
                assert(lower <= i <= lower + 2);
            }
        }
        lower += 3;
    }
    false
}

/// Whether some of the lines that the masks stand for holds a run of three.
fn any_run(masks: &Vec<BitsRepr>, Ghost(ls): Ghost<Grid>) -> (found: bool)
    requires
        masks@.len() == ls.len(),
        forall|i: int| 0 <= i < ls.len() ==> encodes(#[trigger] masks@[i], ls[i]),
        square(ls),
    ensures
        found == !lines_run_free(ls),
{
    let size = masks.len();
    let mut line: usize = 0;
    while line < size
        invariant
            size == masks@.len(),
            masks@.len() == ls.len(),
            forall|i: int| 0 <= i < ls.len() ==> encodes(#[trigger] masks@[i], ls[i]),
            square(ls),
            line <= size,
            forall|i: int| 0 <= i < line ==> !has_run(#[trigger] ls[i]),
        decreases size - line,
    {
        assert(encodes(masks@[line as int], ls[line as int]));
        if masks_hold_run(masks[line], size, Ghost(ls[line as int])) {
            return true;
        }
        line += 1;
    }
    false
}

/// Whether the lines that the masks stand for pass the counting check: no
/// line with more than half of its cells in one colour, and no filled line a
/// second time further on.
fn lines_pass(masks: &Vec<BitsRepr>, Ghost(ls): Ghost<Grid>) -> (pass: bool)
    requires
        masks@.len() == ls.len(),
        forall|i: int| 0 <= i < ls.len() ==> encodes(#[trigger] masks@[i], ls[i]),
        square(ls),
    ensures
        pass == lines_feasible(ls),
{
    let total = masks.len();
    proof {
        if total > 0 {
            assert(encodes(masks@[0], ls[0]));
        }
    }
    let size = total as u32;
    let half_size = size / 2;
    let mut start: usize = 0;
    while start < total
        invariant
            total == masks@.len(),
            masks@.len() == ls.len(),
            forall|i: int| 0 <= i < ls.len() ==> encodes(#[trigger] masks@[i], ls[i]),
            square(ls),
            total <= 32,
            size == total,
            half_size == size / 2,
            start <= total,
            forall|i: int| 0 <= i < start ==> within_quota(#[trigger] ls[i]),
            forall|i: int, j: int|
                0 <= i < start && i < j < total && filled(ls[i]) ==> #[trigger] ls[i]
                    != #[trigger] ls[j],
        decreases total - start,
    {
        let row1 = masks[start];
        let ghost line = ls[start as int];
        let reds_count = row1.reds.count_ones();
        let blues_count = row1.blues.count_ones();
        proof {
            assert(encodes(masks@[start as int], line));
            lemma_encodes_counts(row1, line);
            lemma_filled_by_count(line);
        }
        if reds_count > half_size || blues_count > half_size {
            assert(!within_quota(ls[start as int]));
            return false;
        }
        if reds_count + blues_count >= size {
            let mut other: usize = start + 1;
            while other < total
                invariant
                    total == masks@.len(),
                    masks@.len() == ls.len(),
                    forall|i: int| 0 <= i < ls.len() ==> encodes(#[trigger] masks@[i], ls[i]),
                    square(ls),
                    start < total,
                    start < other <= total,
                    row1 == masks@[start as int],
                    line == ls[start as int],
                    filled(line),
                    forall|j: int| start < j < other ==> line != #[trigger] ls[j],
                decreases total - other,
            {
                proof {
                    assert(encodes(masks@[other as int], ls[other as int]));
                    lemma_encodes_same(row1, masks@[other as int], line, ls[other as int]);
                }
                if row1 == masks[other] {
                    assert(filled(ls[start as int]) && ls[start as int] == ls[other as int]);
                    return false;
                }
                other += 1;
            }
        }
        start += 1;
    }
    true
}

/// The faster solver: the board it was lent, and the masks of its rows and of
/// its columns.
pub struct Smarter<'board> {
    pub board: &'board mut Board,
    pub rows: Vec<BitsRepr>,
    pub cols: Vec<BitsRepr>,
}

impl<'board> Smarter<'board> {
    /// The cells of the board as they stand.
    pub open spec fn grid(&self) -> Grid {
        self.board@
    }

    /// The masks stand for the rows and the columns of the board: bit `c` of
    /// a mask of row `r` is bit `r` of that mask of column `c`.
    pub open spec fn tracks(&self) -> bool {
        &&& self.rows@.len() == self.grid().len()
        &&& self.cols@.len() == self.grid().len()
        &&& forall|r: int|
            0 <= r < self.grid().len() ==> encodes(#[trigger] self.rows@[r], self.grid()[r])
        &&& forall|c: int|
            0 <= c < self.grid().len() ==> encodes(
                #[trigger] self.cols@[c],
                transpose(self.grid())[c],
            )
    }

    /// Places `cell` at (`row`, `col`), in the masks and on the board, and
    /// says whether the row and the column are free of runs of three within
    /// the windows of five cells round the placement.
    pub fn set(&mut self, row: usize, col: usize, cell: Cell) -> (clean: bool)
        requires
            old(self).wf(),
            row < old(self).grid().len(),
            col < old(self).grid().len(),
        ensures
            final(self).wf(),
            *final(final(self).board) == *final(old(self).board),
            final(self).grid() == put(old(self).grid(), row as int, col as int, cell),
            clean == locally_clean(final(self).grid(), row as int, col as int),
            !has_run(old(self).grid()[row as int].update(col as int, Cell::Empty)) && !has_run(
                transpose(old(self).grid())[col as int].update(row as int, Cell::Empty),
            ) ==> clean == (!has_run(final(self).grid()[row as int]) && !has_run(
                transpose(final(self).grid())[col as int],
            )),
    {
        let ghost g = self.grid();
        proof {
            if !has_run(g[row as int].update(col as int, Cell::Empty)) && !has_run(
                transpose(g)[col as int].update(row as int, Cell::Empty),
            ) {
                lemma_window_suffices(g[row as int], col as int, cell);
                lemma_window_suffices(transpose(g)[col as int], row as int, cell);
            }
            lemma_put(g, row as int, col as int, cell);
            lemma_put_lines(g, row as int, col as int, cell);
            assert(encodes(self.rows@[row as int], g[row as int]));
            assert(encodes(self.cols@[col as int], transpose(g)[col as int]));
            lemma_encodes_mark(self.rows@[row as int], g[row as int], col as int, cell);
            lemma_encodes_mark(self.cols@[col as int], transpose(g)[col as int], row as int, cell);
        }
        let row_mask = self.rows[row].marked(col, cell);
        self.rows[row] = row_mask;
        let col_mask = self.cols[col].marked(row, cell);
        self.cols[col] = col_mask;
        self.board.set(row, col, cell);

        let row_bits = &self.rows[row];
        let lower_row = col.saturating_sub(2);
        let row_triplet = triplet(row_bits.reds, lower_row) || triplet(row_bits.blues, lower_row);

        let col_bits = &self.cols[col];
        let lower_col = row.saturating_sub(2);
        let col_triplet = triplet(col_bits.reds, lower_col) || triplet(col_bits.blues, lower_col);

        proof {
            lemma_encodes_window(*row_bits, self.grid()[row as int], lower_row as int);
            lemma_encodes_window(*col_bits, transpose(self.grid())[col as int], lower_col as int);
        }
        !row_triplet && !col_triplet
    }

    /// Takes back what stands at (`row`, `col`), in the masks and on the
    /// board.
    pub fn unset(&mut self, row: usize, col: usize)
        requires
            old(self).wf(),
            row < old(self).grid().len(),
            col < old(self).grid().len(),
        ensures
            final(self).wf(),
            *final(final(self).board) == *final(old(self).board),
            final(self).grid() == put(old(self).grid(), row as int, col as int, Cell::Empty),
    {
        let ghost g = self.grid();
        proof {
            lemma_put(g, row as int, col as int, Cell::Empty);
            lemma_put_lines(g, row as int, col as int, Cell::Empty);
            assert(encodes(self.rows@[row as int], g[row as int]));
            assert(encodes(self.cols@[col as int], transpose(g)[col as int]));
            lemma_encodes_mark(self.rows@[row as int], g[row as int], col as int, Cell::Empty);
            lemma_encodes_mark(
                self.cols@[col as int],
                transpose(g)[col as int],
                row as int,
                Cell::Empty,
            );
        }
        let row_mask = self.rows[row].marked(col, Cell::Empty);
        self.rows[row] = row_mask;
        let col_mask = self.cols[col].marked(row, Cell::Empty);
        self.cols[col] = col_mask;
        self.board.unset(row, col);
    }

    /// The search from (`row`, `col`) on, reading row by row: a coloured cell
    /// is passed over, an empty one is tried red, then blue, and each colour
    /// is pursued only while the placement is locally clean and the board
    /// passes the counting check. On failure the cell is emptied again.
    fn rec_solve(&mut self, row: usize, col: usize) -> (solved: bool)
        requires
            old(self).wf(),
            row <= old(self).grid().len(),
            col <= old(self).grid().len(),
            run_free(old(self).grid()),
            feasible(old(self).grid()),
            filled_before(old(self).grid(), row as int, col as int),
        ensures
            final(self).wf(),
            *final(final(self).board) == *final(old(self).board),
            solved <==> solvable(old(self).grid()),
            solved ==> first_solution(final(self).grid(), old(self).grid()),
            !solved ==> final(self).grid() == old(self).grid(),
        decreases old(self).grid().len() - row, old(self).grid().len() - col,
    {
        let size = self.board.size();
        let ghost g = self.grid();

        if row >= size {
            proof {
                lemma_filled_all(g, row as int, col as int);
                lemma_checks_agree(g);
                lemma_complete_is_first(g);
            }
            return true;
        }
        if col >= size {
            proof {
                assert forall|r1: int, c1: int|
                    inside(g, r1, c1) && before(r1, c1, row + 1, 0) implies #[trigger] g[r1][c1]
                    != Cell::Empty by {
                    assert(before(r1, c1, row as int, col as int));
                }
            }
            return self.rec_solve(row + 1, 0);
        }
        let cell = *self.board.at(row, col).unwrap();
        if cell != Cell::Empty {
            proof {
                lemma_filled_further(g, row as int, col as int);
            }
            return self.rec_solve(row, col + 1);
        }
        let candidates = [Cell::Red, Cell::Blue];
        let mut tried: usize = 0;
        while tried < 2
            invariant
                self.wf(),
                *final(self.board) == *final(old(self).board),
                g == old(self).grid(),
                square(g),
                run_free(g),
                size == g.len(),
                row < size,
                col < size,
                g[row as int][col as int] == Cell::Empty,
                filled_before(g, row as int, col as int),
                candidates[0] == Cell::Red,
                candidates[1] == Cell::Blue,
                tried <= 2,
                tried == 0 ==> self.grid() == g,
                tried >= 1 ==> self.grid() == put(g, row as int, col as int, candidates[tried - 1]),
                forall|i: int|
                    0 <= i < tried ==> !solvable(
                        put(g, row as int, col as int, #[trigger] candidates[i]),
                    ),
            decreases 2 - tried,
        {
            let colour = candidates[tried];
            let ghost tinted = put(g, row as int, col as int, colour);
            proof {
                lemma_put(g, row as int, col as int, colour);
                lemma_put(g, row as int, col as int, Cell::Empty);
                lemma_filled_after_put(g, row as int, col as int, colour);
                lemma_local_check(g, row as int, col as int, colour);
            }
            self.unset(row, col);
            assert(self.grid() == g);
            if self.set(row, col, colour) && self.is_valid() {
                if self.rec_solve(row, col + 1) {
                    proof {
                        if tried == 0 {
                            lemma_red_first(self.grid(), g, row as int, col as int);
                        } else {
                            assert(!solvable(put(g, row as int, col as int, candidates[0])));
                            lemma_blue_first(self.grid(), g, row as int, col as int);
                        }
                    }
                    return true;
                }
            } else {
                proof {
                    lemma_unsolvable(tinted);
                }
            }
            tried += 1;
        }
        proof {
            lemma_put(g, row as int, col as int, Cell::Empty);
            assert(!solvable(put(g, row as int, col as int, candidates[0])));
            assert(!solvable(put(g, row as int, col as int, candidates[1])));
            lemma_both_fail(g, row as int, col as int);
        }
        self.unset(row, col);
        false
    }
}

impl<'board> Solver<'board> for Smarter<'board> {
    open spec fn board(&self) -> &'board mut Board {
        self.board
    }

    open spec fn wf(&self) -> bool {
        self.board.wf() && self.grid().len() <= WIDTH && self.tracks()
    }

    open spec fn takes(board: Board) -> bool {
        board@.len() <= WIDTH
    }

    open spec fn accepts(g: Grid) -> bool {
        feasible(g)
    }

    /// Reads the board once and sets, for every coloured cell, its bit in the
    /// mask of its row and in the mask of its column.
    fn new_solver(board: &'board mut Board) -> (solver: Self) {
        let size = board.size();
        let ghost g = board@;
        let ghost gt = transpose(g);
        let mut rows = vec![BitsRepr::default(); size];
        let mut cols = vec![BitsRepr::default(); size];
        proof {
            lemma_zero_bits();
        }
        let mut row: usize = 0;
        while row < size
            invariant
                board.wf(),
                board@ == g,
                *board == *old(board),
                gt == transpose(g),
                size == g.len(),
                size <= 32,
                rows@.len() == size,
                cols@.len() == size,
                row <= size,
                forall|r: int| 0 <= r < row ==> encodes(#[trigger] rows@[r], g[r]),
                forall|r: int| row <= r < size ==> mirrors(#[trigger] rows@[r], g[r], 0),
                forall|c: int| 0 <= c < size ==> mirrors(#[trigger] cols@[c], gt[c], row as int),
            decreases size - row,
        {
            let mut col: usize = 0;
            while col < size
                invariant
                    board.wf(),
                    board@ == g,
                    *board == *old(board),
                    gt == transpose(g),
                    size == g.len(),
                    size <= 32,
                    rows@.len() == size,
                    cols@.len() == size,
                    row < size,
                    col <= size,
                    forall|r: int| 0 <= r < row ==> encodes(#[trigger] rows@[r], g[r]),
                    forall|r: int| row < r < size ==> mirrors(#[trigger] rows@[r], g[r], 0),
                    mirrors(rows@[row as int], g[row as int], col as int),
                    forall|c: int|
                        0 <= c < col ==> mirrors(#[trigger] cols@[c], gt[c], row as int + 1),
                    forall|c: int|
                        col <= c < size ==> mirrors(#[trigger] cols@[c], gt[c], row as int),
                decreases size - col,
            {
                let cell = *board.at(row, col).unwrap();
                proof {
                    assert(gt[col as int][row as int] == g[row as int][col as int]);
                    lemma_mirrors_mark(rows@[row as int], g[row as int], col as int);
                    lemma_mirrors_mark(cols@[col as int], gt[col as int], row as int);
                }
                let row_mask = rows[row].marked(col, cell);
                rows[row] = row_mask;
                let col_mask = cols[col].marked(row, cell);
                cols[col] = col_mask;
                col += 1;
            }
            row += 1;
        }
        Self { board, rows, cols }
    }

    /// The board is looked over once before the search, for runs of three and
    /// with the counting check, so that a board that breaks a rule as it comes
    /// is refused and not filled in round the fault.
    fn solve(&mut self) -> (solved: bool) {
        if any_run(&self.rows, Ghost(self.grid())) || any_run(
            &self.cols,
            Ghost(transpose(self.grid())),
        ) || !self.is_valid() {
            proof {
                lemma_unsolvable(self.grid());
                if complete(self.grid()) {
                    lemma_checks_agree(self.grid());
                }
            }
            return false;
        }
        let ghost g = self.grid();
        let solved = self.rec_solve(0, 0);
        proof {
            if complete(g) {
                if legal(g) {
                    lemma_solved_stays(g, self.grid());
                } else {
                    lemma_unsolvable(g);
                }
            }
        }
        solved
    }

    /// Whether the board as it stands passes the counting check, by rows and
    /// by columns.
    fn is_valid(&mut self) -> (valid: bool) {
        lines_pass(&self.rows, Ghost(self.grid())) && lines_pass(
            &self.cols,
            Ghost(transpose(self.grid())),
        )
    }
}

} // verus!
