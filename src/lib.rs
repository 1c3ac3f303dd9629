//! A Sudoku engine: candidate tracking on a 9x9 board, deduction by naked and
//! hidden singles, guided backtracking search, grid generation from a seed,
//! and reduction of a solved grid to a puzzle that needs no guessing.
use vstd::prelude::*;

pub mod board;
pub mod deduce;
pub mod generate;
pub mod iters;
pub mod point;
pub mod propagate;
pub mod queue;
mod random;
pub mod search;

pub use board::Sudoku;
pub use generate::{init, reduce, reduce_in_order, seed_bytes, to_remove};
pub use iters::{BlockIter, ColIter, Neighbours, RowIter};
pub use point::Point;
pub use propagate::{is_consistent, StepResult};
pub use queue::{GetKey, PriorityQueue, QueueDrain};
pub use search::{solve_recursive, Branch, SearchFailure, MAX_FAILURES};

use board::{cell, num_empty, peer_holds};
use deduce::{reaches, solvable_without_guessing, stable};
use propagate::{consistent, contradiction, extends, is_full};

verus! {

/// The digit at column `x`, row `y`; 0 if empty.
pub fn get(sudoku: &Sudoku, x: usize, y: usize) -> (r: u8)
    requires
        sudoku.wf(),
        x < 9,
        y < 9,
    ensures
        r == sudoku.cells()[cell(x as int, y as int)],
{
    sudoku.get((x, y))
}

/// Places `value` in the empty cell at column `x`, row `y`, and takes it
/// from the candidates of its peers.
pub fn set(sudoku: &mut Sudoku, x: usize, y: usize, value: u8)
    requires
        old(sudoku).wf(),
        x < 9,
        y < 9,
        1 <= value <= 9,
        old(sudoku).cells()[cell(x as int, y as int)] == 0,
    ensures
        final(sudoku).wf(),
        final(sudoku).cells() == old(sudoku).cells().update(cell(x as int, y as int), value),
{
    sudoku.set((x, y), value)
}

/// Whether `value` can still go at column `x`, row `y`: no peer holds it.
pub fn is_possible(sudoku: &Sudoku, x: usize, y: usize, value: u8) -> (r: bool)
    requires
        sudoku.wf(),
        x < 9,
        y < 9,
        value <= 9,
    ensures
        r == (value >= 1 && !peer_holds(sudoku.cells(), cell(x as int, y as int), value as int)),
{
    sudoku.is_possible((x, y), value)
}

/// The number of empty cells.
pub fn count_remaining(sudoku: &Sudoku) -> (r: usize)
    requires
        sudoku.wf(),
    ensures
        r == num_empty(sudoku.cells()),
{
    sudoku.count_remaining()
}

/// Fills what propagation alone can fill; whether the board came out full.
pub fn solve(sudoku: &mut Sudoku) -> (r: bool)
    requires
        old(sudoku).wf(),
        consistent(old(sudoku).cells()),
    ensures
        final(sudoku).wf(),
        consistent(final(sudoku).cells()),
        extends(final(sudoku).cells(), old(sudoku).cells()),
        reaches(old(sudoku).cells(), final(sudoku).cells()),
        r == is_full(final(sudoku).cells()),
        r == solvable_without_guessing(old(sudoku).cells()),
        !r ==> contradiction(final(sudoku).cells(), final(sudoku).masks()) || stable(*final(sudoku)),
{
    propagate::solve_non_guessing(sudoku)
}

} // verus!
