//! The solvers: a plain one that rechecks the whole board after every
//! placement, and a faster one that keeps the rows and columns as bit masks.
use vstd::prelude::*;
use crate::board::Board;
use crate::rules::{complete, legal, Grid};
use crate::solution::{first_solution, solvable};

pub mod brute_force;
pub mod masks;
pub mod smarter;

pub use brute_force::BruteForce;
pub use masks::{bits_iter, BitsIter, BitsRepr};
pub use smarter::Smarter;

verus! {

/// A search that colours the empty cells of a board it has borrowed.
pub trait Solver<'board>: Sized {
    /// The board that the solver works on.
    spec fn board(&self) -> &'board mut Board;

    /// What the solver holds is consistent with its board.
    spec fn wf(&self) -> bool;

    /// The boards that this solver can take.
    spec fn takes(board: Board) -> bool;

    /// The check that this solver makes of a grid after each placement.
    spec fn accepts(g: Grid) -> bool;

    /// A solver for `board`, which stays as it is until `solve` is called.
    fn new_solver(board: &'board mut Board) -> (solver: Self)
        requires
            old(board).wf(),
            Self::takes(*old(board)),
        ensures
            solver.wf(),
            *solver.board() == *old(board),
            *final(solver.board()) == *final(board),
    ;

    /// Colours the empty cells of the board so that no rule is broken, if that
    /// can be done, and says whether it was done. Of all solutions the board
    /// gets the first: the one that is red where it first differs from any
    /// other, reading row by row. A board without a solution is left as it was.
    fn solve(&mut self) -> (solved: bool)
        requires
            old(self).wf(),
        ensures
            final(self).wf(),
            *final(final(self).board()) == *final(old(self).board()),
            solved <==> solvable(old(self).board()@),
            solved ==> first_solution(final(self).board()@, old(self).board()@),
            !solved ==> final(self).board()@ == old(self).board()@,
            complete(old(self).board()@) && legal(old(self).board()@) ==> solved,
            complete(old(self).board()@) ==> final(self).board()@ == old(self).board()@,
    ;

    /// Whether the board as it stands passes the solver's check. This says
    /// nothing on whether the board can be solved.
    fn is_valid(&mut self) -> (valid: bool)
        requires
            old(self).wf(),
        ensures
            *final(self) == *old(self),
            valid == Self::accepts(old(self).board()@),
    ;
}

} // verus!
