//! The puzzle as mathematics: a grid is the sequence of its rows, and the
//! predicates here say when a grid is legal, when it is complete, and what the
//! cheaper partial checks of the search amount to.
use vstd::prelude::*;
use crate::board::Cell;

verus! {

/// A grid is the sequence of its rows, each row the sequence of its cells.
pub type Grid = Seq<Seq<Cell>>;

/// Every row is as long as the grid is high.
pub open spec fn square(g: Grid) -> bool {
    forall|r: int| 0 <= r < g.len() ==> (#[trigger] g[r]).len() == g.len()
}

/// The grid of side `n` with nothing placed.
pub open spec fn blank(n: nat) -> Grid {
    Seq::new(n, |r: int| Seq::new(n, |c: int| Cell::Empty))
}

/// `g` with the cell at (`r`, `c`) replaced by `v`.
pub open spec fn put(g: Grid, r: int, c: int, v: Cell) -> Grid {
    g.update(r, g[r].update(c, v))
}

/// (`r`, `c`) names a cell of `g`.
pub open spec fn inside(g: Grid, r: int, c: int) -> bool {
    0 <= r < g.len() && 0 <= c < g.len()
}

/// The columns of a square grid, each read from the top.
pub open spec fn transpose(g: Grid) -> Grid {
    Seq::new(g.len(), |c: int| Seq::new(g.len(), |r: int| g[r][c]))
}

/// The lines of one direction: the columns, or else the rows.
pub open spec fn lines(g: Grid, by_columns: bool) -> Grid {
    if by_columns {
        transpose(g)
    } else {
        g
    }
}

/// Three equal colours stand at `i`, `i + 1` and `i + 2` of the line.
pub open spec fn run_at(line: Seq<Cell>, i: int) -> bool {
    &&& 0 <= i
    &&& i + 2 < line.len()
    &&& line[i] != Cell::Empty
    &&& line[i + 1] == line[i]
    &&& line[i + 2] == line[i]
}

/// Somewhere in the line three equal colours stand side by side.
pub open spec fn has_run(line: Seq<Cell>) -> bool {
    exists|i: int| run_at(line, i)
}

/// Where the window of five cells round cell `k` starts: two before `k`, or
/// at the line's start.
pub open spec fn window_start(k: int) -> int {
    if k >= 2 {
        k - 2
    } else {
        0
    }
}

/// A run of three lies within the five cells of the line from `lower` on.
pub open spec fn has_run_within(line: Seq<Cell>, lower: int) -> bool {
    exists|i: int| lower <= i <= lower + 2 && run_at(line, i)
}

/// Neither the row nor the column of (`r`, `c`) holds a run of three within
/// the window of five cells round that cell.
pub open spec fn locally_clean(g: Grid, r: int, c: int) -> bool {
    &&& !has_run_within(g[r], window_start(c))
    &&& !has_run_within(transpose(g)[c], window_start(r))
}

/// No cell of the line is empty.
pub open spec fn filled(line: Seq<Cell>) -> bool {
    forall|i: int| 0 <= i < line.len() ==> line[i] != Cell::Empty
}

/// How many cells of the line hold `colour`.
pub open spec fn count(line: Seq<Cell>, colour: Cell) -> nat
    decreases line.len(),
{
    if line.len() == 0 {
        0
    } else {
        count(line.drop_last(), colour) + if line.last() == colour {
            1nat
        } else {
            0nat
        }
    }
}

/// Half of the line is red and half of it is blue.
pub open spec fn balanced(line: Seq<Cell>) -> bool {
    2 * count(line, Cell::Red) == line.len() && 2 * count(line, Cell::Blue) == line.len()
}

/// Neither colour takes more than half of the line.
pub open spec fn within_quota(line: Seq<Cell>) -> bool {
    count(line, Cell::Red) <= line.len() / 2 && count(line, Cell::Blue) <= line.len() / 2
}

/// No line holds a run of three.
pub open spec fn lines_run_free(ls: Grid) -> bool {
    forall|i: int| 0 <= i < ls.len() ==> !has_run(#[trigger] ls[i])
}

/// No line that is filled occurs a second time.
pub open spec fn lines_distinct(ls: Grid) -> bool {
    forall|i: int, j: int|
        0 <= i < j < ls.len() && filled(ls[i]) ==> #[trigger] ls[i] != #[trigger] ls[j]
}

/// Every line that is filled is balanced.
pub open spec fn lines_balanced(ls: Grid) -> bool {
    forall|i: int| 0 <= i < ls.len() && filled(#[trigger] ls[i]) ==> balanced(ls[i])
}

/// Every line, filled or not, is within quota.
pub open spec fn lines_within_quota(ls: Grid) -> bool {
    forall|i: int| 0 <= i < ls.len() ==> within_quota(#[trigger] ls[i])
}

/// The rules of the puzzle on the lines of one direction, as far as a grid
/// with empty cells can break them: no run of three, no filled line out of
/// balance, no filled line twice.
pub open spec fn lines_legal(ls: Grid) -> bool {
    &&& lines_run_free(ls)
    &&& lines_balanced(ls)
    &&& lines_distinct(ls)
}

/// The grid breaks no rule, by rows or by columns.
pub open spec fn legal(g: Grid) -> bool {
    lines_legal(g) && lines_legal(transpose(g))
}

/// No row and no column holds a run of three.
pub open spec fn run_free(g: Grid) -> bool {
    lines_run_free(g) && lines_run_free(transpose(g))
}

/// The counting check on the lines of one direction: every line within quota,
/// no filled line twice.
pub open spec fn lines_feasible(ls: Grid) -> bool {
    lines_within_quota(ls) && lines_distinct(ls)
}

/// The counting check by rows and by columns. It asks more of an unfinished
/// line than `legal` does, and nothing about runs.
pub open spec fn feasible(g: Grid) -> bool {
    lines_feasible(g) && lines_feasible(transpose(g))
}

/// No cell of the grid is empty.
pub open spec fn complete(g: Grid) -> bool {
    forall|r: int| 0 <= r < g.len() ==> filled(#[trigger] g[r])
}

/// The rules of the puzzle on the lines of one direction of a finished grid:
/// no line holds a run of three, every line is half red and half blue, and no
/// two lines are alike.
pub open spec fn lines_solved(ls: Grid) -> bool {
    &&& forall|i: int| 0 <= i < ls.len() ==> !has_run(#[trigger] ls[i])
    &&& forall|i: int| 0 <= i < ls.len() ==> 2 * count(#[trigger] ls[i], Cell::Red) == ls.len()
    &&& forall|i: int| 0 <= i < ls.len() ==> 2 * count(#[trigger] ls[i], Cell::Blue) == ls.len()
    &&& forall|i: int, j: int| 0 <= i < j < ls.len() ==> #[trigger] ls[i] != #[trigger] ls[j]
}

/// Writing a cell keeps the grid square, changes that cell and no other, and
/// overwrites what was written there before.
pub proof fn lemma_put(g: Grid, r: int, c: int, v: Cell)
    requires
        square(g),
        inside(g, r, c),
    ensures
        square(put(g, r, c, v)),
        put(g, r, c, v).len() == g.len(),
        put(g, r, c, v)[r][c] == v,
        forall|r1: int, c1: int|
            inside(g, r1, c1) && (r1 != r || c1 != c) ==> #[trigger] put(g, r, c, v)[r1][c1]
                == g[r1][c1],
        forall|w: Cell| #[trigger] put(put(g, r, c, w), r, c, v) == put(g, r, c, v),
        g[r][c] == v ==> put(g, r, c, v) == g,
{
    assert forall|w: Cell| #[trigger] put(put(g, r, c, w), r, c, v) == put(g, r, c, v) by {
        assert(put(g, r, c, w)[r].update(c, v) =~= g[r].update(c, v));
        assert(put(put(g, r, c, w), r, c, v) =~= put(g, r, c, v));
    }
    if g[r][c] == v {
        assert(g[r].update(c, v) =~= g[r]);
        assert(put(g, r, c, v) =~= g);
    }
}

/// Writing a cell changes its row and its column at that cell, and no other
/// line.
pub proof fn lemma_put_lines(g: Grid, r: int, c: int, v: Cell)
    requires
        square(g),
        inside(g, r, c),
    ensures
        put(g, r, c, v)[r] == g[r].update(c, v),
        transpose(put(g, r, c, v))[c] == transpose(g)[c].update(r, v),
        forall|i: int| 0 <= i < g.len() && i != r ==> #[trigger] put(g, r, c, v)[i] == g[i],
        forall|i: int|
            0 <= i < g.len() && i != c ==> #[trigger] transpose(put(g, r, c, v))[i] == transpose(
                g,
            )[i],
{
    let h = put(g, r, c, v);
    assert(transpose(h)[c] =~= transpose(g)[c].update(r, v));
    assert forall|i: int| 0 <= i < g.len() && i != c implies #[trigger] transpose(h)[i]
        == transpose(g)[i] by {
        assert(transpose(h)[i] =~= transpose(g)[i]);
    }
}

/// If a line has no run of three once cell `k` is taken out, then after any
/// write at `k` the window round `k` shows whether the line has one: a run
/// elsewhere would have been there before.
pub proof fn lemma_window_suffices(line: Seq<Cell>, k: int, v: Cell)
    requires
        0 <= k < line.len(),
        !has_run(line.update(k, Cell::Empty)),
    ensures
        has_run(line.update(k, v)) <==> has_run_within(line.update(k, v), window_start(k)),
{
    let after = line.update(k, v);
    let without = line.update(k, Cell::Empty);
    if has_run(after) {
        let i = choose|i: int| run_at(after, i);
        if i <= k <= i + 2 {
            assert(window_start(k) <= i <= window_start(k) + 2);
        } else {
            assert(run_at(without, i));
        }
    }
}

/// If a grid has no run of three once the cell at (`r`, `c`) is taken out,
/// then after any write there the two windows round that cell show whether
/// the grid has one.
pub proof fn lemma_local_check(g: Grid, r: int, c: int, v: Cell)
    requires
        square(g),
        inside(g, r, c),
        run_free(put(g, r, c, Cell::Empty)),
    ensures
        run_free(put(g, r, c, v)) <==> locally_clean(put(g, r, c, v), r, c),
{
    let without = put(g, r, c, Cell::Empty);
    let after = put(g, r, c, v);
    lemma_put_lines(g, r, c, Cell::Empty);
    lemma_put_lines(g, r, c, v);
    assert(!has_run(without[r]));
    assert(!has_run(transpose(without)[c]));
    lemma_window_suffices(g[r], c, v);
    lemma_window_suffices(transpose(g)[c], r, v);
    if locally_clean(after, r, c) {
        assert forall|i: int| 0 <= i < after.len() implies !has_run(#[trigger] after[i]) by {
            if i != r {
                assert(after[i] == without[i]);
            }
        }
        assert forall|i: int| 0 <= i < transpose(after).len() implies !has_run(
            #[trigger] transpose(after)[i],
        ) by {
            if i != c {
                assert(transpose(after)[i] == transpose(without)[i]);
            }
        }
    } else {
        assert(has_run(after[r]) || has_run(transpose(after)[c]));
    }
}

/// A grid has no run of three exactly when the two windows round every one of
/// its cells are clean.
pub proof fn lemma_run_free_by_windows(g: Grid)
    requires
        square(g),
    ensures
        run_free(g) <==> forall|r: int, c: int|
            inside(g, r, c) ==> #[trigger] locally_clean(g, r, c),
{
    let t = transpose(g);
    if run_free(g) {
        assert forall|r: int, c: int| inside(g, r, c) implies #[trigger] locally_clean(g, r, c) by {
            assert(!has_run(g[r]));
            assert(!has_run(t[c]));
        }
    }
    if forall|r: int, c: int| inside(g, r, c) ==> #[trigger] locally_clean(g, r, c) {
        assert forall|r: int| 0 <= r < g.len() implies !has_run(#[trigger] g[r]) by {
            if has_run(g[r]) {
                let i = choose|i: int| run_at(g[r], i);
                assert(locally_clean(g, r, i + 2));
                assert(window_start(i + 2) <= i <= window_start(i + 2) + 2);
            }
        }
        assert forall|c: int| 0 <= c < t.len() implies !has_run(#[trigger] t[c]) by {
            if has_run(t[c]) {
                let i = choose|i: int| run_at(t[c], i);
                assert(locally_clean(g, i + 2, c));
                assert(window_start(i + 2) <= i <= window_start(i + 2) + 2);
            }
        }
    }
}

/// Counting one cell further adds that cell if it holds the colour.
pub proof fn lemma_count_step(line: Seq<Cell>, k: int, colour: Cell)
    requires
        0 <= k < line.len(),
    ensures
        count(line.take(k + 1), colour) == count(line.take(k), colour) + if line[k] == colour {
            1nat
        } else {
            0nat
        },
{
    assert(line.take(k + 1).drop_last() =~= line.take(k));
    assert(line.take(k + 1).last() == line[k]);
}

/// In a filled line every cell is red or blue, so the two counts make up the
/// length.
pub proof fn lemma_count_filled(line: Seq<Cell>)
    requires
        filled(line),
    ensures
        count(line, Cell::Red) + count(line, Cell::Blue) == line.len(),
    decreases line.len(),
{
    if line.len() > 0 {
        let rest = line.drop_last();
        assert forall|i: int| 0 <= i < rest.len() implies rest[i] != Cell::Empty by {
            assert(rest[i] == line[i]);
        }
        lemma_count_filled(rest);
        assert(line.last() == line[line.len() - 1]);
    }
}

/// A line is filled exactly when its red and blue cells make up its length.
pub proof fn lemma_filled_by_count(line: Seq<Cell>)
    ensures
        count(line, Cell::Red) + count(line, Cell::Blue) <= line.len(),
        filled(line) <==> count(line, Cell::Red) + count(line, Cell::Blue) == line.len(),
    decreases line.len(),
{
    if line.len() > 0 {
        let rest = line.drop_last();
        lemma_filled_by_count(rest);
        assert(line.last() == line[line.len() - 1]);
        if filled(line) {
            lemma_count_filled(line);
        } else if filled(rest) {
            let i = choose|i: int| 0 <= i < line.len() && line[i] == Cell::Empty;
            if i < rest.len() {
                assert(rest[i] == line[i]);
            }
        }
    }
}

/// A filled line is balanced exactly when it is within quota.
pub proof fn lemma_filled_balance(line: Seq<Cell>)
    requires
        filled(line),
    ensures
        balanced(line) <==> within_quota(line),
{
    lemma_count_filled(line);
}

/// The columns of a complete square grid are filled, as its rows are.
pub proof fn lemma_complete_columns(g: Grid)
    requires
        square(g),
        complete(g),
    ensures
        complete(transpose(g)),
{
    let t = transpose(g);
    assert forall|c: int| 0 <= c < t.len() implies filled(#[trigger] t[c]) by {
        assert forall|r: int| 0 <= r < t[c].len() implies t[c][r] != Cell::Empty by {
            assert(filled(g[r]));
            assert(t[c][r] == g[r][c]);
        }
    }
}

/// Where every line is filled, the rules on the lines say as much as the run
/// check and the counting check together.
pub proof fn lemma_lines_checks_agree(ls: Grid)
    requires
        complete(ls),
    ensures
        lines_legal(ls) <==> (lines_run_free(ls) && lines_feasible(ls)),
{
    assert forall|i: int| 0 <= i < ls.len() implies (balanced(#[trigger] ls[i]) <==> within_quota(
        ls[i],
    )) by {
        lemma_filled_balance(ls[i]);
    }
}

/// On a complete grid the two ways of checking agree: the grid breaks no rule
/// exactly when it passes the counting check and has no run of three, and so
/// exactly when it passes the counting check and the windows round every cell
/// are clean.
pub proof fn lemma_checks_agree(g: Grid)
    requires
        square(g),
        complete(g),
    ensures
        legal(g) <==> (run_free(g) && feasible(g)),
        legal(g) <==> (feasible(g) && forall|r: int, c: int|
            inside(g, r, c) ==> #[trigger] locally_clean(g, r, c)),
{
    lemma_complete_columns(g);
    lemma_lines_checks_agree(g);
    lemma_lines_checks_agree(transpose(g));
    lemma_run_free_by_windows(g);
}

/// A complete grid that breaks no rule obeys the rules of the finished
/// puzzle, by rows and by columns: no run of three, every line half red and
/// half blue, no two rows alike and no two columns alike.
pub proof fn lemma_solved_grid(g: Grid)
    requires
        square(g),
        complete(g),
        legal(g),
    ensures
        lines_solved(g),
        lines_solved(transpose(g)),
{
    lemma_complete_columns(g);
    let t = transpose(g);
    assert forall|i: int| 0 <= i < g.len() implies balanced(#[trigger] g[i]) by {
        assert(filled(g[i]));
    }
    assert forall|i: int| 0 <= i < t.len() implies balanced(#[trigger] t[i]) by {
        assert(filled(t[i]));
    }
    assert forall|i: int, j: int| 0 <= i < j < g.len() implies #[trigger] g[i] != #[trigger] g[j] by {
        assert(filled(g[i]));
    }
    assert forall|i: int, j: int| 0 <= i < j < t.len() implies #[trigger] t[i] != #[trigger] t[j] by {
        assert(filled(t[i]));
    }
}

} // verus!
