//! What the search is asked to find: the solutions of a grid, the order in
//! which the search meets them, and the steps by which it finds the first.
use vstd::prelude::*;
use crate::board::Cell;
use crate::rules::{
    balanced, complete, count, feasible, filled, has_run, inside, legal, lemma_complete_columns,
    lemma_put, lines_legal, lines_within_quota, put, run_at, run_free, square, transpose,
    within_quota, Grid,
};

verus! {

/// `m` keeps every colour that `l` holds.
pub open spec fn line_extends(m: Seq<Cell>, l: Seq<Cell>) -> bool {
    &&& m.len() == l.len()
    &&& forall|i: int| 0 <= i < l.len() && #[trigger] l[i] != Cell::Empty ==> m[i] == l[i]
}

/// `h` is a square grid of the side of `g` that keeps every colour that `g`
/// holds: it differs from `g` only where `g` is empty.
pub open spec fn extends(h: Grid, g: Grid) -> bool {
    &&& h.len() == g.len()
    &&& square(h)
    &&& forall|r: int, c: int|
        inside(g, r, c) && #[trigger] g[r][c] != Cell::Empty ==> h[r][c] == g[r][c]
}

/// `h` is a solution of `g`: it keeps what `g` holds, leaves no cell empty and
/// breaks no rule.
pub open spec fn solves(h: Grid, g: Grid) -> bool {
    extends(h, g) && complete(h) && legal(h)
}

/// `g` has a solution.
pub open spec fn solvable(g: Grid) -> bool {
    exists|h: Grid| solves(h, g)
}

/// (`r1`, `c1`) is read before (`r2`, `c2`) when the grid is read row by row,
/// each row from the left.
pub open spec fn before(r1: int, c1: int, r2: int, c2: int) -> bool {
    r1 < r2 || (r1 == r2 && c1 < c2)
}

/// Every cell read before (`r`, `c`) is coloured.
pub open spec fn filled_before(g: Grid, r: int, c: int) -> bool {
    forall|r1: int, c1: int|
        inside(g, r1, c1) && before(r1, c1, r, c) ==> #[trigger] g[r1][c1] != Cell::Empty
}

/// `a` and `b` first part at (`r`, `c`), where `a` is red and `b` is blue.
pub open spec fn parts_at(a: Grid, b: Grid, r: int, c: int) -> bool {
    &&& inside(a, r, c)
    &&& a[r][c] == Cell::Red
    &&& b[r][c] == Cell::Blue
    &&& forall|r1: int, c1: int|
        inside(a, r1, c1) && before(r1, c1, r, c) ==> #[trigger] a[r1][c1] == b[r1][c1]
}

/// `a` is `b`, or, reading both row by row, `a` is red where the two first
/// differ. A search that tries red before blue meets `a` no later than `b`.
pub open spec fn precedes(a: Grid, b: Grid) -> bool {
    a == b || exists|r: int, c: int| parts_at(a, b, r, c)
}

/// `h` is the solution of `g` that precedes all its solutions.
pub open spec fn first_solution(h: Grid, g: Grid) -> bool {
    solves(h, g) && forall|k: Grid| #[trigger] solves(k, g) ==> precedes(h, k)
}

/// A run of three in a line is still there in every line that extends it.
proof fn lemma_run_persists(m: Seq<Cell>, l: Seq<Cell>)
    requires
        line_extends(m, l),
        has_run(l),
    ensures
        has_run(m),
{
    let i = choose|i: int| run_at(l, i);
    assert(l[i] != Cell::Empty && l[i + 1] != Cell::Empty && l[i + 2] != Cell::Empty);
    assert(run_at(m, i));
}

/// A filled line has one extension only: itself.
proof fn lemma_filled_fixed(m: Seq<Cell>, l: Seq<Cell>)
    requires
        line_extends(m, l),
        filled(l),
    ensures
        m == l,
{
    assert(m =~= l);
}

/// A line holds no more of a colour than a line that extends it.
proof fn lemma_count_grows(m: Seq<Cell>, l: Seq<Cell>, colour: Cell)
    requires
        line_extends(m, l),
        colour != Cell::Empty,
    ensures
        count(l, colour) <= count(m, colour),
    decreases l.len(),
{
    if l.len() > 0 {
        let m0 = m.drop_last();
        let l0 = l.drop_last();
        assert forall|i: int| 0 <= i < l0.len() && #[trigger] l0[i] != Cell::Empty implies m0[i]
            == l0[i] by {
            assert(l0[i] == l[i]);
            assert(m0[i] == m[i]);
        }
        lemma_count_grows(m0, l0, colour);
        assert(l.last() == l[l.len() - 1]);
        assert(m.last() == m[l.len() - 1]);
    }
}

/// The lines of `hs` extend those of `gs`, one by one.
spec fn lines_extend(hs: Grid, gs: Grid) -> bool {
    &&& hs.len() == gs.len()
    &&& forall|i: int| 0 <= i < gs.len() ==> line_extends(#[trigger] hs[i], gs[i])
}

/// Lines that break no rule extend only lines that break none.
proof fn lemma_lines_legal_below(hs: Grid, gs: Grid)
    requires
        lines_extend(hs, gs),
        lines_legal(hs),
    ensures
        lines_legal(gs),
{
    assert forall|i: int| 0 <= i < gs.len() implies !has_run(#[trigger] gs[i]) by {
        assert(line_extends(hs[i], gs[i]));
        if has_run(gs[i]) {
            lemma_run_persists(hs[i], gs[i]);
        }
    }
    assert forall|i: int| 0 <= i < gs.len() && filled(#[trigger] gs[i]) implies balanced(
        gs[i],
    ) by {
        assert(line_extends(hs[i], gs[i]));
        lemma_filled_fixed(hs[i], gs[i]);
    }
    assert forall|i: int, j: int| 0 <= i < j < gs.len() && filled(gs[i]) implies #[trigger] gs[i]
        != #[trigger] gs[j] by {
        assert(line_extends(hs[i], gs[i]));
        assert(line_extends(hs[j], gs[j]));
        if gs[i] == gs[j] {
            lemma_filled_fixed(hs[i], gs[i]);
            lemma_filled_fixed(hs[j], gs[j]);
            assert(hs[i] == hs[j]);
        }
    }
}

/// Lines that are filled and break no rule extend only lines within quota.
proof fn lemma_lines_quota_below(hs: Grid, gs: Grid)
    requires
        lines_extend(hs, gs),
        lines_legal(hs),
        complete(hs),
    ensures
        lines_within_quota(gs),
{
    assert forall|i: int| 0 <= i < gs.len() implies within_quota(
        #[trigger] gs[i],
    ) by {
        assert(line_extends(hs[i], gs[i]));
        assert(filled(hs[i]));
        lemma_count_grows(hs[i], gs[i], Cell::Red);
        lemma_count_grows(hs[i], gs[i], Cell::Blue);
    }
}

/// A grid that extends another does so row by row and column by column.
proof fn lemma_extends_lines(h: Grid, g: Grid)
    requires
        square(g),
        extends(h, g),
    ensures
        lines_extend(h, g),
        lines_extend(transpose(h), transpose(g)),
{
    assert forall|r: int| 0 <= r < g.len() implies line_extends(#[trigger] h[r], g[r]) by {
        assert forall|c: int| 0 <= c < g[r].len() && #[trigger] g[r][c] != Cell::Empty implies h[r][c]
            == g[r][c] by {
            assert(inside(g, r, c));
        }
    }
    let ht = transpose(h);
    let gt = transpose(g);
    assert forall|c: int| 0 <= c < gt.len() implies line_extends(#[trigger] ht[c], gt[c]) by {
        assert forall|r: int| 0 <= r < gt[c].len() && #[trigger] gt[c][r] != Cell::Empty implies ht[c][r]
            == gt[c][r] by {
            assert(inside(g, r, c));
            assert(gt[c][r] == g[r][c]);
        }
    }
}

/// A grid that breaks no rule extends only grids that break none: what is
/// wrong in a grid stays wrong however its empty cells are coloured.
pub proof fn lemma_legal_below(h: Grid, g: Grid)
    requires
        square(g),
        extends(h, g),
        legal(h),
    ensures
        legal(g),
{
    lemma_extends_lines(h, g);
    lemma_lines_legal_below(h, g);
    lemma_lines_legal_below(transpose(h), transpose(g));
}

/// A grid with a solution has no run of three and passes the counting check.
pub proof fn lemma_solvable_passes(h: Grid, g: Grid)
    requires
        square(g),
        solves(h, g),
    ensures
        legal(g),
        run_free(g),
        feasible(g),
{
    lemma_legal_below(h, g);
    lemma_extends_lines(h, g);
    lemma_complete_columns(h);
    lemma_lines_quota_below(h, g);
    lemma_lines_quota_below(transpose(h), transpose(g));
}

/// A grid that breaks a rule, holds a run of three or fails the counting check
/// has no solution.
pub proof fn lemma_unsolvable(g: Grid)
    requires
        square(g),
        !legal(g) || !run_free(g) || !feasible(g),
    ensures
        !solvable(g),
{
    if solvable(g) {
        let h = choose|h: Grid| solves(h, g);
        lemma_solvable_passes(h, g);
    }
}

/// When every cell up to (`r`, `c`) is coloured, so is every cell read before
/// the next one.
pub proof fn lemma_filled_further(g: Grid, r: int, c: int)
    requires
        square(g),
        inside(g, r, c),
        g[r][c] != Cell::Empty,
        filled_before(g, r, c),
    ensures
        filled_before(g, r, c + 1),
        c + 1 == g.len() ==> filled_before(g, r + 1, 0),
{
    assert forall|r1: int, c1: int| inside(g, r1, c1) && before(r1, c1, r, c + 1) implies #[trigger] g[r1][c1]
        != Cell::Empty by {
        if !(r1 == r && c1 == c) {
            assert(before(r1, c1, r, c));
        }
    }
    if c + 1 == g.len() {
        assert forall|r1: int, c1: int| inside(g, r1, c1) && before(r1, c1, r + 1, 0) implies #[trigger] g[r1][c1]
            != Cell::Empty by {
            assert(before(r1, c1, r, c + 1));
        }
    }
}

/// When every cell is read before (`r`, `c`) and all those are coloured, the
/// grid is complete.
pub proof fn lemma_filled_all(g: Grid, r: int, c: int)
    requires
        square(g),
        r >= g.len(),
        filled_before(g, r, c),
    ensures
        complete(g),
{
    assert forall|r1: int| 0 <= r1 < g.len() implies filled(#[trigger] g[r1]) by {
        assert forall|c1: int| 0 <= c1 < g[r1].len() implies g[r1][c1] != Cell::Empty by {
            assert(inside(g, r1, c1) && before(r1, c1, r, c));
        }
    }
}

/// Colouring the cell at (`r`, `c`) leaves every cell up to it coloured if
/// those before it were.
pub proof fn lemma_filled_after_put(g: Grid, r: int, c: int, v: Cell)
    requires
        square(g),
        inside(g, r, c),
        v != Cell::Empty,
        filled_before(g, r, c),
    ensures
        filled_before(put(g, r, c, v), r, c + 1),
{
    let g1 = put(g, r, c, v);
    lemma_put(g, r, c, v);
    assert forall|r1: int, c1: int|
        inside(g1, r1, c1) && before(r1, c1, r, c + 1) implies #[trigger] g1[r1][c1]
        != Cell::Empty by {
        if !(r1 == r && c1 == c) {
            assert(before(r1, c1, r, c));
            assert(g[r1][c1] != Cell::Empty);
        }
    }
}

/// A complete grid that breaks no rule is its own first solution, and its
/// only one.
pub proof fn lemma_complete_is_first(g: Grid)
    requires
        square(g),
        complete(g),
        legal(g),
    ensures
        first_solution(g, g),
{
    assert forall|k: Grid| #[trigger] solves(k, g) implies precedes(g, k) by {
        assert forall|r: int| 0 <= r < g.len() implies #[trigger] k[r] == g[r] by {
            assert(filled(g[r]));
            assert forall|c: int| 0 <= c < g.len() implies k[r][c] == g[r][c] by {
                assert(inside(g, r, c));
                assert(g[r][c] != Cell::Empty);
            }
            assert(k[r] =~= g[r]);
        }
        assert(k =~= g);
    }
}

/// A solution of a grid with a cell coloured in is a solution of the grid
/// with that cell empty.
pub proof fn lemma_solves_wider(h: Grid, g: Grid, r: int, c: int, v: Cell)
    requires
        square(g),
        inside(g, r, c),
        g[r][c] == Cell::Empty,
        solves(h, put(g, r, c, v)),
    ensures
        solves(h, g),
{
    let g1 = put(g, r, c, v);
    assert forall|r1: int, c1: int|
        inside(g, r1, c1) && #[trigger] g[r1][c1] != Cell::Empty implies h[r1][c1] == g[r1][c1] by {
        assert(inside(g1, r1, c1));
        assert(g1[r1][c1] == g[r1][c1]);
    }
}

/// A solution of a grid colours each empty cell red or blue, and solves the
/// grid with that colour filled in.
pub proof fn lemma_solves_narrower(h: Grid, g: Grid, r: int, c: int)
    requires
        square(g),
        inside(g, r, c),
        solves(h, g),
    ensures
        h[r][c] == Cell::Red || h[r][c] == Cell::Blue,
        solves(h, put(g, r, c, h[r][c])),
{
    assert(filled(h[r]));
    let g1 = put(g, r, c, h[r][c]);
    assert forall|r1: int, c1: int|
        inside(g1, r1, c1) && #[trigger] g1[r1][c1] != Cell::Empty implies h[r1][c1] == g1[r1][c1] by {
        if r1 == r && c1 == c {
        } else {
            assert(g1[r1][c1] == g[r1][c1]);
            assert(inside(g, r1, c1));
        }
    }
}

/// If an empty cell can be neither red nor blue in a solution, there is no
/// solution.
pub proof fn lemma_both_fail(g: Grid, r: int, c: int)
    requires
        square(g),
        inside(g, r, c),
        !solvable(put(g, r, c, Cell::Red)),
        !solvable(put(g, r, c, Cell::Blue)),
    ensures
        !solvable(g),
{
    if solvable(g) {
        let h = choose|h: Grid| solves(h, g);
        lemma_solves_narrower(h, g, r, c);
    }
}

/// At the first empty cell, the first solution with that cell red is the
/// first solution of all.
pub proof fn lemma_red_first(f: Grid, g: Grid, r: int, c: int)
    requires
        square(g),
        inside(g, r, c),
        g[r][c] == Cell::Empty,
        filled_before(g, r, c),
        first_solution(f, put(g, r, c, Cell::Red)),
    ensures
        first_solution(f, g),
{
    let g1 = put(g, r, c, Cell::Red);
    lemma_solves_wider(f, g, r, c, Cell::Red);
    assert(inside(g1, r, c));
    assert(g1[r][c] == Cell::Red);
    assert(f[r][c] == Cell::Red);
    assert forall|k: Grid| #[trigger] solves(k, g) implies precedes(f, k) by {
        lemma_solves_narrower(k, g, r, c);
        if k[r][c] == Cell::Red {
            assert(solves(k, g1));
        } else {
            assert forall|r1: int, c1: int|
                inside(f, r1, c1) && before(r1, c1, r, c) implies #[trigger] f[r1][c1]
                == k[r1][c1] by {
                assert(inside(g, r1, c1));
                assert(g[r1][c1] != Cell::Empty);
            }
            assert(parts_at(f, k, r, c));
        }
    }
}

/// Where no solution has the cell red, the first solution with the cell blue
/// is the first solution of all.
pub proof fn lemma_blue_first(f: Grid, g: Grid, r: int, c: int)
    requires
        square(g),
        inside(g, r, c),
        g[r][c] == Cell::Empty,
        !solvable(put(g, r, c, Cell::Red)),
        first_solution(f, put(g, r, c, Cell::Blue)),
    ensures
        first_solution(f, g),
{
    lemma_solves_wider(f, g, r, c, Cell::Blue);
    assert forall|k: Grid| #[trigger] solves(k, g) implies precedes(f, k) by {
        lemma_solves_narrower(k, g, r, c);
    }
}

/// A grid has at most one first solution.
pub proof fn lemma_first_is_unique(a: Grid, b: Grid, g: Grid)
    requires
        first_solution(a, g),
        first_solution(b, g),
    ensures
        a == b,
{
    assert(precedes(a, b));
    assert(precedes(b, a));
    if a != b {
        let (r, c) = choose|r: int, c: int| parts_at(a, b, r, c);
        let (s, d) = choose|s: int, d: int| parts_at(b, a, s, d);
        assert(inside(b, r, c));
        if before(r, c, s, d) {
            assert(b[r][c] == a[r][c]);
        } else if before(s, d, r, c) {
            assert(a[s][d] == b[s][d]);
        }
    }
}

/// A grid that is complete and breaks no rule has a solution, and its first
/// solution is the grid itself.
pub proof fn lemma_solved_stays(g: Grid, h: Grid)
    requires
        square(g),
        complete(g),
        legal(g),
    ensures
        solvable(g),
        first_solution(h, g) ==> h == g,
{
    lemma_complete_is_first(g);
    if first_solution(h, g) {
        lemma_first_is_unique(h, g, g);
    }
}

} // verus!
