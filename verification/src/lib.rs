//! A 9x9 constraint-satisfaction puzzle engine: a board that answers
//! row/column/box queries and enforces that given cells stay fixed, plus
//! solving strategies that fill the board through those queries.

pub mod board;
pub mod solvers;

use vstd::prelude::*;

verus! {

/// Runs the chosen strategy against the board and reports whether the
/// board is valid afterwards.
pub fn run<S: solvers::SolveSudoku>(board: &mut board::Board, solver: &S) -> (solved: bool)
    requires
        old(board).wf(),
    ensures
        final(board).wf(),
        forall|r: int, c: int|
            0 <= r < 9 && 0 <= c < 9 ==> #[trigger] final(board).orig_at(r, c) == old(
                board,
            ).orig_at(r, c),
        solved == final(board).valid_spec(),
{
    solver.solve(board)
}

} // verus!
