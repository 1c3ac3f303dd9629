//! Making puzzles: a full grid from a seed, then as many clues taken out as
//! propagation alone can still put back.
use crate::board::{cell, is_peer, num_empty, peer_holds, Sudoku};
use crate::deduce::{
    cells_ok, lemma_full_solvable, lemma_reaches_in_solution, lemma_reaches_refl,
    lemma_solvable_mono, lemma_unique_completion, reaches, solvable_without_guessing,
};
use crate::propagate::{
    consistent, extends, is_full, lemma_full_unit, lemma_place_consistent, solve_non_guessing,
    unit_cell, unit_has,
};
use crate::random::{gen_range, rng_from_seed, shuffle};
use crate::search::{has_solution, solve_recursive, SearchFailure, MAX_FAILURES};
use vstd::arithmetic::div_mod::{lemma_fundamental_div_mod, lemma_fundamental_div_mod_converse};
use vstd::prelude::*;
use vstd::seq_lib::group_to_multiset_ensures;

verus! {

broadcast use group_to_multiset_ensures;

/// Byte `i` of the seed made from `words`: each word little-endian, in
/// order; bytes past the words stay zero.
pub open spec fn seed_byte(words: Seq<u32>, i: int) -> u8 {
    if i / 4 < words.len() {
        ((words[i / 4] >> ((8 * (i % 4)) as u32)) & 0xffu32) as u8
    } else {
        0
    }
}

/// How many clues a difficulty asks to take out: none for 0, `30 + 6 * d`
/// for `d` in `1..=4`, and as many as possible (all 81) above.
pub open spec fn removal_target(difficulty: int) -> int {
    if difficulty == 0 {
        0
    } else if difficulty <= 4 {
        30 + 6 * difficulty
    } else {
        81
    }
}

/// Emptying a cell never makes a conflict.
proof fn lemma_unplace_consistent(cells: Seq<u8>, c: int)
    requires
        cells.len() == 81,
        consistent(cells),
        0 <= c < 81,
    ensures
        consistent(cells.update(c, 0)),
{
    let n = cells.update(c, 0);
    assert forall|a: int, b: int|
        0 <= a < 81 && 0 <= b < 81 && #[trigger] crate::board::is_peer(a, b) && n[a] != 0 implies n[a]
        != n[b] by {
        if b != c {
            assert(cells[a] != cells[b]);
        }
    }
}

/// A full grid: the digit of cell `c` is `(x + 3 * (y % 3) + y / 3) % 9 + 1`
/// for column `x = c / 9` and row `y = c % 9`.
spec fn pattern(c: int) -> int {
    (c / 9 + 3 * ((c % 9) % 3) + (c % 9) / 3) % 9 + 1
}

/// Two numbers less than nine apart differ modulo nine unless equal.
proof fn lemma_mod_nine_distinct(p: int, q: int)
    requires
        0 <= p,
        0 <= q,
        p != q,
        -9 < p - q < 9,
    ensures
        p % 9 != q % 9,
{
    lemma_fundamental_div_mod(p, 9);
    lemma_fundamental_div_mod(q, 9);
    if p % 9 == q % 9 {
        assert(p - q == 9 * (p / 9 - q / 9));
    }
}

/// Peers never share a digit in the pattern grid.
proof fn lemma_pattern_peers(a: int, b: int)
    requires
        0 <= a < 81,
        0 <= b < 81,
        is_peer(a, b),
    ensures
        pattern(a) != pattern(b),
{
    let (x1, y1, x2, y2) = (a / 9, a % 9, b / 9, b % 9);
    lemma_fundamental_div_mod(a, 9);
    lemma_fundamental_div_mod(b, 9);
    lemma_fundamental_div_mod_converse(a, 27, x1 / 3, 9 * (x1 % 3) + y1);
    lemma_fundamental_div_mod_converse(b, 27, x2 / 3, 9 * (x2 % 3) + y2);
    let k1 = 3 * (y1 % 3) + y1 / 3;
    let k2 = 3 * (y2 % 3) + y2 / 3;
    assert(y1 == 3 * (y1 / 3) + y1 % 3);
    assert(y2 == 3 * (y2 / 3) + y2 % 3);
    assert(x1 == 3 * (x1 / 3) + x1 % 3);
    assert(x2 == 3 * (x2 / 3) + x2 % 3);
    lemma_mod_nine_distinct(x1 + k1, x2 + k2);
}

/// The pattern grid with digits `d` and `v` swapped.
spec fn pattern_with(d: int, v: int) -> Seq<u8> {
    Seq::new(
        81,
        |c: int|
            (if pattern(c) == d {
                v
            } else if pattern(c) == v {
                d
            } else {
                pattern(c)
            }) as u8,
    )
}

/// A board with a single digit, anywhere, has a solution.
proof fn lemma_one_digit_solvable(cells: Seq<u8>, c: int, v: int)
    requires
        0 <= c < 81,
        1 <= v <= 9,
        cells == Seq::new(81, |i: int| 0u8).update(c, v as u8),
    ensures
        has_solution(cells),
{
    lemma_fundamental_div_mod(c, 9);
    let d = pattern(c);
    assert(1 <= d <= 9) by {
        lemma_fundamental_div_mod(c / 9 + 3 * ((c % 9) % 3) + (c % 9) / 3, 9);
    }
    let f = pattern_with(d, v);
    assert forall|i: int| 0 <= i < 81 implies 1 <= #[trigger] pattern(i) <= 9 by {
        lemma_fundamental_div_mod(i, 9);
        lemma_fundamental_div_mod(i / 9 + 3 * ((i % 9) % 3) + (i % 9) / 3, 9);
    }
    assert(cells_ok(f));
    assert(is_full(f));
    assert forall|a: int, b: int|
        0 <= a < 81 && 0 <= b < 81 && #[trigger] is_peer(a, b) && f[a] != 0 implies f[a] != f[b] by {
        lemma_pattern_peers(a, b);
        assert(1 <= pattern(a) <= 9 && 1 <= pattern(b) <= 9);
    }
    assert(consistent(f));
    assert(extends(f, cells));
}

/// Cell `c` is empty, or emptying it would leave a board that forced
/// placements cannot fill.
pub open spec fn kept_for_cause(cells: Seq<u8>, c: int) -> bool {
    cells[c] == 0 || !solvable_without_guessing(cells.update(c, 0))
}

/// A clue that could not go stays so when other clues go.
proof fn lemma_still_kept(f: Seq<u8>, before: Seq<u8>, after: Seq<u8>, ci: int, cj: int)
    requires
        cells_ok(f),
        is_full(f),
        consistent(f),
        cells_ok(before),
        consistent(before),
        extends(f, before),
        0 <= ci < 81,
        0 <= cj < 81,
        after == before.update(ci, 0),
        !solvable_without_guessing(before.update(cj, 0)),
    ensures
        !solvable_without_guessing(after.update(cj, 0)),
{
    let q = after.update(cj, 0);
    let q2 = before.update(cj, 0);
    lemma_unplace_consistent(before, ci);
    lemma_unplace_consistent(after, cj);
    assert(extends(q2, q));
    assert(extends(f, q2));
    if solvable_without_guessing(q) {
        lemma_solvable_mono(q, q2, f);
    }
}

/// The 32-byte seed made from `words`.
pub fn seed_bytes(words: &[u32]) -> (r: [u8; 32])
    ensures
        forall|i: int| 0 <= i < 32 ==> #[trigger] r@[i] == seed_byte(words@, i),
{
    let mut bytes = [0u8; 32];
    let mut i: usize = 0;
    while i < 32
        invariant
            0 <= i <= 32,
            forall|j: int| 0 <= j < i ==> #[trigger] bytes@[j] == seed_byte(words@, j),
            forall|j: int| i <= j < 32 ==> #[trigger] bytes@[j] == 0,
        decreases 32 - i,
    {
        if i / 4 < words.len() {
            let w = words[i / 4];
            let shift = (8 * (i % 4)) as u32;
            bytes[i] = ((w >> shift) & 0xffu32) as u8;
        }
        i = i + 1;
    }
    bytes
}

/// Generates a full grid from `seed`: one random digit in a random cell of
/// an empty board, then the search. A board that comes back is full and free
/// of conflicts. The only failure is `Exhausted`: the search ran out of
/// guesses, and another seed may do.
pub fn init(seed: &[u32]) -> (r: Result<Sudoku, SearchFailure>)
    ensures
        r matches Ok(b) ==> b.wf() && is_full(b.cells()) && consistent(b.cells()),
        r matches Err(e) ==> e == SearchFailure::Exhausted,
{
    let mut rng = rng_from_seed(seed_bytes(seed));
    let start_x = gen_range(&mut rng, 0, 9);
    let start_y = gen_range(&mut rng, 0, 9);
    let start_value = gen_range(&mut rng, 1, 10) as u8;
    let mut sudoku = Sudoku::new();
    proof {
        let c = cell(start_x as int, start_y as int);
        assert(consistent(sudoku.cells()));
        assert(!peer_holds(sudoku.cells(), c, start_value as int));
        lemma_place_consistent(sudoku.cells(), c, start_value);
        lemma_one_digit_solvable(sudoku.cells().update(c, start_value), c, start_value as int);
    }
    sudoku.set((start_x, start_y), start_value);
    let mut budget = MAX_FAILURES;
    solve_recursive(sudoku, &mut rng, &mut budget)
}

/// The number of clues to take out for `difficulty`.
pub fn to_remove(difficulty: usize) -> (r: usize)
    ensures
        r == removal_target(difficulty as int),
{
    if difficulty == 0 {
        0
    } else if difficulty <= 4 {
        30 + difficulty * 6
    } else {
        81
    }
}

/// Takes clues out of a solved board, in a random order drawn from `seed`,
/// keeping a removal only if propagation alone still fills the board. Stops
/// once `removal_target(difficulty)` clues are out or every cell was tried.
/// The puzzle has the solved board as its only solution, propagation alone
/// solves it, and when it stopped short of the target no clue left can go
/// without losing that. The order is the only random part; the rest is
/// `reduce_in_order`.
pub fn reduce(sudoku: &mut Sudoku, seed: &[u8; 32], difficulty: usize)
    requires
        old(sudoku).wf(),
        is_full(old(sudoku).cells()),
        consistent(old(sudoku).cells()),
    ensures
        final(sudoku).wf(),
        consistent(final(sudoku).cells()),
        forall|i: int|
            0 <= i < 81 ==> #[trigger] final(sudoku).cells()[i] == old(sudoku).cells()[i]
                || final(sudoku).cells()[i] == 0,
        num_empty(final(sudoku).cells()) <= removal_target(difficulty as int),
        solvable_without_guessing(final(sudoku).cells()),
        forall|f: Seq<u8>|
            cells_ok(f) && is_full(f) && consistent(f) && extends(f, final(sudoku).cells()) ==> f
                == old(sudoku).cells(),
        num_empty(final(sudoku).cells()) < removal_target(difficulty as int) ==> forall|c: int|
            0 <= c < 81 && #[trigger] final(sudoku).cells()[c] != 0 ==> !solvable_without_guessing(
                final(sudoku).cells().update(c, 0),
            ),
{
    proof {
        lemma_reaches_refl(sudoku.cells());
        lemma_full_solvable(sudoku.cells(), sudoku.cells());
        lemma_only_completion(*sudoku, *sudoku);
    }
    let target = to_remove(difficulty);
    proof {
        crate::board::lemma_num_empty_zero(sudoku.cells());
    }
    if target == 0 {
        return;
    }
    let mut rng = rng_from_seed(*seed);
    let mut remaining: Vec<(usize, usize)> = Vec::new();
    let mut x: usize = 0;
    while x < 9
        invariant
            x <= 9,
            remaining@.len() == x * 9,
            forall|j: int|
                0 <= j < remaining@.len() ==> (#[trigger] remaining@[j]).0 < 9 && remaining@[j].1 < 9
                    && cell(remaining@[j].0 as int, remaining@[j].1 as int) == j,
        decreases 9 - x,
    {
        let mut y: usize = 0;
        while y < 9
            invariant
                x < 9,
                y <= 9,
                remaining@.len() == x * 9 + y,
                forall|j: int|
                    0 <= j < remaining@.len() ==> (#[trigger] remaining@[j]).0 < 9 && remaining@[j].1
                        < 9 && cell(remaining@[j].0 as int, remaining@[j].1 as int) == j,
            decreases 9 - y,
        {
            remaining.push((x, y));
            y = y + 1;
        }
        x = x + 1;
    }
    let ghost listed = remaining@;
    shuffle(&mut remaining, &mut rng);
    proof {
        assert forall|c: int| 0 <= c < 81 implies #[trigger] tries_cell(remaining@, c) by {
            let p = listed[c];
            assert(listed.contains(p));
            assert(listed.to_multiset().count(p) > 0);
            assert(remaining@.contains(p));
            let j = choose|j: int| 0 <= j < remaining@.len() && remaining@[j] == p;
            assert(cell(remaining@[j].0 as int, remaining@[j].1 as int) == c);
        }
        assert forall|j: int| 0 <= j < remaining@.len() implies (#[trigger] remaining@[j]).0 < 9
            && remaining@[j].1 < 9 by {
            assert(remaining@.contains(remaining@[j]));
            assert(remaining@.to_multiset().count(remaining@[j]) > 0);
            assert(listed.contains(remaining@[j]));
        }
    }
    reduce_in_order(sudoku, &remaining, target);
}

/// Some entry of `order` names cell `c`.
pub open spec fn tries_cell(order: Seq<(usize, usize)>, c: int) -> bool {
    exists|j: int| 0 <= j < order.len() && #[trigger] cell(order[j].0 as int, order[j].1 as int) == c
}

/// What `reduce_in_order` leaves of `cells` when it tries the cells of
/// `order` in turn, `removed` clues being out already: a clue goes if
/// propagation alone still fills the board without it, until `target` are out.
pub open spec fn reduce_run(cells: Seq<u8>, order: Seq<(usize, usize)>, removed: int, target: int) -> Seq<
    u8,
>
    decreases order.len(),
{
    if order.len() == 0 || removed >= target {
        cells
    } else {
        let c = cell(order[0].0 as int, order[0].1 as int);
        if cells[c] != 0 && solvable_without_guessing(cells.update(c, 0)) {
            reduce_run(cells.update(c, 0), order.drop_first(), removed + 1, target)
        } else {
            reduce_run(cells, order.drop_first(), removed, target)
        }
    }
}

/// Takes clues out of a solved board, trying the cells of `order` in turn
/// and keeping a removal only if propagation alone still fills the board,
/// until `target` clues are out. The result is `reduce_run` of the board:
/// the same inputs always give the same puzzle.
pub fn reduce_in_order(sudoku: &mut Sudoku, order: &Vec<(usize, usize)>, target: usize)
    requires
        old(sudoku).wf(),
        is_full(old(sudoku).cells()),
        consistent(old(sudoku).cells()),
        forall|j: int| 0 <= j < order@.len() ==> (#[trigger] order@[j]).0 < 9 && order@[j].1 < 9,
    ensures
        final(sudoku).wf(),
        final(sudoku).cells() == reduce_run(old(sudoku).cells(), order@, 0, target as int),
        consistent(final(sudoku).cells()),
        forall|i: int|
            0 <= i < 81 ==> #[trigger] final(sudoku).cells()[i] == old(sudoku).cells()[i]
                || final(sudoku).cells()[i] == 0,
        num_empty(final(sudoku).cells()) <= target,
        solvable_without_guessing(final(sudoku).cells()),
        forall|f: Seq<u8>|
            cells_ok(f) && is_full(f) && consistent(f) && extends(f, final(sudoku).cells()) ==> f
                == old(sudoku).cells(),
        (forall|c: int| 0 <= c < 81 ==> #[trigger] tries_cell(order@, c)) && num_empty(final(sudoku).cells()) < target ==> forall|c: int|
            0 <= c < 81 && #[trigger] final(sudoku).cells()[c] != 0 ==> !solvable_without_guessing(
                final(sudoku).cells().update(c, 0),
            ),
{
    proof {
        lemma_reaches_refl(sudoku.cells());
        lemma_full_solvable(sudoku.cells(), sudoku.cells());
        lemma_only_completion(*sudoku, *sudoku);
        crate::board::lemma_num_empty_zero(sudoku.cells());
        assert(order@.skip(0) =~= order@);
    }
    if target == 0 {
        return;
    }
    let ghost start = *sudoku;
    let mut removed: usize = 0;
    let mut i: usize = 0;
    while i < order.len()
        invariant
            sudoku.wf(),
            start == *old(sudoku),
            consistent(sudoku.cells()),
            forall|j: int|
                0 <= j < 81 ==> #[trigger] sudoku.cells()[j] == start.cells()[j] || sudoku.cells()[j]
                    == 0,
            num_empty(sudoku.cells()) == removed,
            removed < target,
            solvable_without_guessing(sudoku.cells()),
            forall|f: Seq<u8>|
                cells_ok(f) && is_full(f) && consistent(f) && extends(f, sudoku.cells()) ==> f
                    == start.cells(),
            start.wf(),
            is_full(start.cells()),
            consistent(start.cells()),
            forall|j: int| 0 <= j < order@.len() ==> (#[trigger] order@[j]).0 < 9 && order@[j].1 < 9,
            i <= order@.len(),
            reduce_run(start.cells(), order@, 0, target as int) == reduce_run(
                sudoku.cells(),
                order@.skip(i as int),
                removed as int,
                target as int,
            ),
            forall|j: int|
                0 <= j < i ==> kept_for_cause(
                    sudoku.cells(),
                    cell((#[trigger] order@[j]).0 as int, order@[j].1 as int),
                ),
        decreases order@.len() - i,
    {
        let p = order[i];
        let ghost ci = cell(p.0 as int, p.1 as int);
        proof {
            assert(order@.skip(i as int)[0] == p);
            assert(order@.skip(i as int).drop_first() =~= order@.skip(i as int + 1));
        }
        if sudoku.get(p) != 0 {
            let mut state = *sudoku;
            proof {
                lemma_unplace_consistent(state.cells(), ci);
            }
            state.unset(p);
            let ghost puzzle = state;
            if solve_non_guessing(&mut state) {
                proof {
                    lemma_only_completion(start, puzzle);
                    lemma_unplace_consistent(sudoku.cells(), ci);
                    crate::board::lemma_num_empty_update(sudoku.cells(), ci, 0);
                }
                let ghost before = sudoku.cells();
                sudoku.unset(p);
                proof {
                    assert forall|j: int| 0 <= j < i + 1 implies kept_for_cause(
                        sudoku.cells(),
                        cell((#[trigger] order@[j]).0 as int, order@[j].1 as int),
                    ) by {
                        let cj = cell(order@[j].0 as int, order@[j].1 as int);
                        if j < i && cj != ci && sudoku.cells()[cj] != 0 {
                            assert(kept_for_cause(before, cj));
                            lemma_still_kept(start.cells(), before, sudoku.cells(), ci, cj);
                        }
                    }
                }
                proof {
                    assert(sudoku.cells() == before.update(ci, 0));
                    assert(reduce_run(before, order@.skip(i as int), removed as int, target as int)
                        == reduce_run(
                        sudoku.cells(),
                        order@.skip(i as int + 1),
                        removed as int + 1,
                        target as int,
                    ));
                }
                removed = removed + 1;
                if removed >= target {
                    proof {
                        assert(reduce_run(sudoku.cells(), order@.skip(i as int + 1), removed as int, target as int)
                            == sudoku.cells());
                    }
                    return;
                }
                i = i + 1;
                continue;
            }
        }
        i = i + 1;
    }
    proof {
        assert(order@.skip(i as int) =~= Seq::<(usize, usize)>::empty());
        assert forall|c: int|
            0 <= c < 81 && #[trigger] sudoku.cells()[c] != 0 && (forall|c2: int|
                0 <= c2 < 81 ==> #[trigger] tries_cell(order@, c2)) implies !solvable_without_guessing(sudoku.cells().update(c, 0)) by {
            assert(tries_cell(order@, c));
            let j = choose|j: int|
                0 <= j < order@.len() && #[trigger] cell(order@[j].0 as int, order@[j].1 as int) == c;
            assert(kept_for_cause(sudoku.cells(), cell(order@[j].0 as int, order@[j].1 as int)));
        }
    }
}

/// The full grid is the one full conflict-free board that keeps the digits of
/// a puzzle taken from it, when forced placements fill that puzzle.
proof fn lemma_only_completion(solved: Sudoku, puzzle: Sudoku)
    requires
        solved.wf(),
        is_full(solved.cells()),
        consistent(solved.cells()),
        puzzle.wf(),
        consistent(puzzle.cells()),
        extends(solved.cells(), puzzle.cells()),
        solvable_without_guessing(puzzle.cells()),
    ensures
        forall|f: Seq<u8>|
            cells_ok(f) && is_full(f) && consistent(f) && extends(f, puzzle.cells()) ==> f
                == solved.cells(),
{
    assert forall|f: Seq<u8>|
        cells_ok(f) && is_full(f) && consistent(f) && extends(f, puzzle.cells()) implies f
        == solved.cells() by {
        lemma_unique_completion(puzzle.cells(), f, solved.cells());
    }
}

/// A generated grid holds every digit exactly once in each row, column and
/// block.
pub proof fn generated_grid_holds_each_digit_once(grid: Sudoku, u: int, v: int)
    requires
        grid.wf(),
        is_full(grid.cells()),
        consistent(grid.cells()),
        0 <= u < 27,
        1 <= v <= 9,
    ensures
        unit_has(grid.cells(), u, v),
        forall|k1: int, k2: int|
            0 <= k1 < 9 && 0 <= k2 < 9 && grid.cells()[unit_cell(u, k1)] == v && grid.cells()[unit_cell(
                u,
                k2,
            )] == v ==> k1 == k2,
{
    lemma_full_unit(grid.cells(), u, v);
}

/// A puzzle that `reduce` hands back is solved by propagation alone, and
/// what propagation fills in is the grid it was taken from: `solve` on it
/// returns true and gives back that grid.
pub proof fn reduced_puzzle_solves_without_guessing(
    solved: Sudoku,
    puzzle: Sudoku,
    after: Sudoku,
    r: bool,
)
    requires
        solved.wf(),
        is_full(solved.cells()),
        consistent(solved.cells()),
        puzzle.wf(),
        consistent(puzzle.cells()),
        forall|i: int|
            0 <= i < 81 ==> #[trigger] puzzle.cells()[i] == solved.cells()[i] || puzzle.cells()[i]
                == 0,
        solvable_without_guessing(puzzle.cells()),
        after.wf(),
        consistent(after.cells()),
        reaches(puzzle.cells(), after.cells()),
        r == is_full(after.cells()),
        r == solvable_without_guessing(puzzle.cells()),
    ensures
        r,
        after == solved,
{
    let steps = choose|s: Seq<(int, int)>| crate::deduce::forced_trace(puzzle.cells(), s)
        && crate::deduce::run(puzzle.cells(), s) == after.cells();
    lemma_reaches_in_solution(puzzle.cells(), steps, solved.cells());
    assert(after.cells() =~= solved.cells()) by {
        assert forall|i: int| 0 <= i < 81 implies after.cells()[i] == solved.cells()[i] by {
            assert(after.cells()[i] != 0);
        }
    }
    crate::board::Sudoku::lemma_determined(after, solved);
}

/// `reduce_run` only takes clues out.
proof fn lemma_run_removes(cells: Seq<u8>, order: Seq<(usize, usize)>, removed: int, target: int)
    requires
        cells.len() == 81,
        forall|j: int| 0 <= j < order.len() ==> (#[trigger] order[j]).0 < 9 && order[j].1 < 9,
    ensures
        reduce_run(cells, order, removed, target).len() == 81,
        forall|i: int|
            0 <= i < 81 ==> #[trigger] reduce_run(cells, order, removed, target)[i] == cells[i]
                || reduce_run(cells, order, removed, target)[i] == 0,
    decreases order.len(),
{
    if order.len() > 0 && removed < target {
        assert(order[0].0 < 9 && order[0].1 < 9);
        let c = cell(order[0].0 as int, order[0].1 as int);
        assert forall|j: int| 0 <= j < order.drop_first().len() implies (#[trigger] order.drop_first()[j]).0 < 9
            && order.drop_first()[j].1 < 9 by {
            assert(order.drop_first()[j] == order[j + 1]);
        }
        lemma_run_removes(cells.update(c, 0), order.drop_first(), removed + 1, target);
        lemma_run_removes(cells, order.drop_first(), removed, target);
    }
}

/// With the same order, a larger target keeps no clue that a smaller one
/// takes out: every clue of the puzzle for the larger target is a clue, with
/// the same digit, of the puzzle for the smaller one.
proof fn lemma_larger_target(cells: Seq<u8>, order: Seq<(usize, usize)>, removed: int, t1: int, t2: int)
    requires
        cells.len() == 81,
        forall|j: int| 0 <= j < order.len() ==> (#[trigger] order[j]).0 < 9 && order[j].1 < 9,
        t1 <= t2,
    ensures
        extends(reduce_run(cells, order, removed, t1), reduce_run(cells, order, removed, t2)),
    decreases order.len(),
{
    lemma_run_removes(cells, order, removed, t2);
    if order.len() > 0 && removed < t1 {
        assert(order[0].0 < 9 && order[0].1 < 9);
        let c = cell(order[0].0 as int, order[0].1 as int);
        assert forall|j: int| 0 <= j < order.drop_first().len() implies (#[trigger] order.drop_first()[j]).0 < 9
            && order.drop_first()[j].1 < 9 by {
            assert(order.drop_first()[j] == order[j + 1]);
        }
        if cells[c] != 0 && solvable_without_guessing(cells.update(c, 0)) {
            lemma_larger_target(cells.update(c, 0), order.drop_first(), removed + 1, t1, t2);
        } else {
            lemma_larger_target(cells, order.drop_first(), removed, t1, t2);
        }
    }
}

/// Reduction is monotone in the difficulty: with the same order of cells,
/// the puzzle for a higher difficulty keeps only clues that the puzzle for
/// a lower one keeps too.
pub proof fn harder_puzzles_keep_fewer_clues(
    cells: Seq<u8>,
    order: Seq<(usize, usize)>,
    d1: int,
    d2: int,
)
    requires
        cells.len() == 81,
        forall|j: int| 0 <= j < order.len() ==> (#[trigger] order[j]).0 < 9 && order[j].1 < 9,
        0 <= d1 <= d2,
    ensures
        extends(
            reduce_run(cells, order, 0, removal_target(d1)),
            reduce_run(cells, order, 0, removal_target(d2)),
        ),
{
    lemma_larger_target(cells, order, 0, removal_target(d1), removal_target(d2));
}

/// `reduce_in_order` depends on its inputs alone: the same solved board,
/// order and target give the same puzzle, every candidate mask included.
pub proof fn reduce_in_order_is_determined(
    solved: Seq<u8>,
    order: Seq<(usize, usize)>,
    target: int,
    a: Sudoku,
    b: Sudoku,
)
    requires
        a.wf(),
        b.wf(),
        a.cells() == reduce_run(solved, order, 0, target),
        b.cells() == reduce_run(solved, order, 0, target),
    ensures
        a == b,
{
    Sudoku::lemma_determined(a, b);
}

} // verus!
