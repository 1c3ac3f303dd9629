//! Backtracking search: propagate, then guess at the empty cell with the
//! fewest candidates, trying its digits in a random order.
//!
//! Each guess works on its own copy of the board (a board is 243 bytes and
//! `Copy`), so a failed branch is undone by dropping its copy; no undo log is
//! kept.
use crate::board::{cell, count_digits, lemma_num_empty_update, num_empty, peer_holds, Sudoku};
use crate::deduce::{
    cells_ok, contradiction_is_order_free, forced_trace, lemma_reaches_in_solution,
    lemma_solution_no_contradiction, reaches, run, solvable_without_guessing, stable,
};
use crate::propagate::contradiction;
use crate::point::Point;
use crate::propagate::{consistent, extends, is_full, lemma_cell_of, lemma_place_consistent, propagate, StepResult};
use crate::queue::{GetKey, PriorityQueue};
use crate::random::shuffle;
use rand::rngs::StdRng;
use vstd::prelude::*;
use vstd::seq_lib::group_to_multiset_ensures;

verus! {

broadcast use group_to_multiset_ensures;

/// How many guesses may fail in one search before it gives up.
pub const MAX_FAILURES: u32 = 1000;

/// Why a search returned no board.
#[derive(Debug, PartialEq, Eq, Structural, Clone, Copy)]
pub enum SearchFailure {
    /// Every branch ran into a contradiction.
    NoSolution,
    /// The budget of failed guesses ran out first.
    Exhausted,
}

/// A branch point: an empty cell and how many digits it can still take.
#[derive(Clone, Copy)]
pub struct Branch {
    pub num_possible: u32,
    pub point: Point,
}

impl GetKey for Branch {
    open spec fn key(&self) -> int {
        self.num_possible as int
    }

    fn get_key(&self) -> (k: u32) {
        self.num_possible
    }
}

/// The branch entry of cell `i` on board `s`.
pub open spec fn branch_at(s: Sudoku, i: int) -> Branch {
    Branch {
        num_possible: count_digits(s.masks()[i], 1) as u32,
        point: Point { x: (i / 9) as u8, y: (i % 9) as u8 },
    }
}

/// `b` is the entry of an empty cell of `s`.
pub open spec fn branch_ok(s: Sudoku, b: Branch) -> bool {
    &&& b.point.wf()
    &&& s.cells()[cell(b.point.x as int, b.point.y as int)] == 0
    &&& b == branch_at(s, cell(b.point.x as int, b.point.y as int))
}

/// Some full board without conflicts keeps every digit of `b`.
pub open spec fn has_solution(b: Seq<u8>) -> bool {
    exists|f: Seq<u8>| cells_ok(f) && is_full(f) && consistent(f) && #[trigger] extends(f, b)
}

/// A queue with one entry for every empty cell of `s`.
fn queue_from_sudoku(s: &Sudoku) -> (q: PriorityQueue<Branch>)
    requires
        s.wf(),
    ensures
        q.wf(),
        forall|b: Branch| #[trigger] q.items().to_multiset().count(b) > 0 ==> branch_ok(*s, b),
        forall|i: int|
            0 <= i < 81 && s.cells()[i] == 0 ==> #[trigger] q.items().to_multiset().count(
                branch_at(*s, i),
            ) > 0,
        q.items().len() == num_empty(s.cells()),
{
    let mut queue: PriorityQueue<Branch> = PriorityQueue::new();
    let mut c: usize = 0;
    while c < 81
        invariant
            0 <= c <= 81,
            s.wf(),
            queue.wf(),
            forall|b: Branch| #[trigger] queue.items().to_multiset().count(b) > 0 ==> branch_ok(*s, b),
            forall|i: int|
                0 <= i < c && s.cells()[i] == 0 ==> #[trigger] queue.items().to_multiset().count(
                    branch_at(*s, i),
                ) > 0,
            queue.items().len() == num_empty(s.cells().subrange(0, c as int)),
        decreases 81 - c,
    {
        proof {
            lemma_cell_of(c as int);
            assert(s.cells().subrange(0, c as int + 1).drop_last() =~= s.cells().subrange(0, c as int));
        }
        let pos = (c / 9, c % 9);
        if s.get(pos) == 0 {
            let num_possible = s.count_possible(pos);
            let b = Branch { num_possible, point: Point::new((c / 9) as u8, (c % 9) as u8) };
            assert(b == branch_at(*s, c as int));
            queue.insert(b);
        }
        c = c + 1;
    }
    assert(s.cells().subrange(0, 81) =~= s.cells());
    queue
}

/// The empty cell with the fewest candidates, or `None` on a full board.
fn pick_branch(s: &Sudoku) -> (r: Option<Branch>)
    requires
        s.wf(),
    ensures
        r is None ==> is_full(s.cells()),
        r matches Some(b) ==> branch_ok(*s, b) && forall|i: int|
            0 <= i < 81 && s.cells()[i] == 0 ==> count_digits(s.masks()[i], 1) >= b.num_possible,
{
    let mut queue = queue_from_sudoku(s);
    let ghost items = queue.items();
    let r = queue.pop();
    proof {
        if items.len() > 0 {
            assert(items.contains(items.last()));
            assert(items.to_multiset().count(items.last()) > 0);
            assert forall|i: int| 0 <= i < 81 && s.cells()[i] == 0 implies count_digits(
                s.masks()[i],
                1,
            ) >= r.unwrap().num_possible by {
                assert(items.to_multiset().count(branch_at(*s, i)) > 0);
                assert(items.contains(branch_at(*s, i)));
                let j = choose|j: int| 0 <= j < items.len() && items[j] == branch_at(*s, i);
                assert(items[j].key() >= items.last().key());
                lemma_count_digits_le_9(s.masks()[i], 1);
                lemma_count_digits_le_9(s.masks()[cell(r.unwrap().point.x as int, r.unwrap().point.y as int)], 1);
            }
        } else {
            assert forall|i: int| 0 <= i < 81 implies #[trigger] s.cells()[i] != 0 by {
                if s.cells()[i] == 0 {
                    assert(items.to_multiset().count(branch_at(*s, i)) > 0);
                }
            }
        }
    }
    r
}

proof fn lemma_count_digits_le_9(m: u16, from: int)
    requires
        1 <= from <= 10,
    ensures
        count_digits(m, from) <= 10 - from,
    decreases 10 - from,
{
    if from <= 9 {
        lemma_count_digits_le_9(m, from + 1);
    }
}

/// The digits still possible at `pos`, in increasing order.
fn possible_values(s: &Sudoku, pos: (usize, usize)) -> (r: Vec<u8>)
    requires
        s.wf(),
        pos.0 < 9,
        pos.1 < 9,
    ensures
        forall|j: int|
            0 <= j < r@.len() ==> 1 <= #[trigger] r@[j] <= 9 && !peer_holds(
                s.cells(),
                cell(pos.0 as int, pos.1 as int),
                r@[j] as int,
            ),
        forall|d: int|
            1 <= d <= 9 && !peer_holds(s.cells(), cell(pos.0 as int, pos.1 as int), d) ==> r@.contains(
                d as u8,
            ),
        forall|i: int, j: int| 0 <= i < j < r@.len() ==> r@[i] < r@[j],
{
    let mut values: Vec<u8> = Vec::new();
    let mut v: u8 = 1;
    while v <= 9
        invariant
            1 <= v <= 10,
            s.wf(),
            pos.0 < 9,
            pos.1 < 9,
            forall|j: int|
                0 <= j < values@.len() ==> 1 <= #[trigger] values@[j] <= 9 && !peer_holds(
                    s.cells(),
                    cell(pos.0 as int, pos.1 as int),
                    values@[j] as int,
                ),
            forall|d: int|
                1 <= d < v && !peer_holds(s.cells(), cell(pos.0 as int, pos.1 as int), d)
                    ==> values@.contains(d as u8),
            forall|i: int, j: int| 0 <= i < j < values@.len() ==> values@[i] < values@[j],
            forall|j: int| 0 <= j < values@.len() ==> values@[j] < v,
        decreases 10 - v,
    {
        let ghost before = values@;
        if s.is_possible(pos, v) {
            values.push(v);
            assert(values@[values@.len() - 1] == v);
        }
        assert forall|d: int|
            1 <= d < v + 1 && !peer_holds(s.cells(), cell(pos.0 as int, pos.1 as int), d)
                implies values@.contains(d as u8) by {
            if d < v {
                let j = choose|j: int| 0 <= j < before.len() && before[j] == d as u8;
                assert(values@[j] == d as u8);
            }
        }
        v = v + 1;
    }
    values
}

/// Solves `state` by propagation and guessing. A board that comes back is
/// full, free of conflicts and keeps every digit of `state`; `NoSolution`
/// comes only when no such board exists. Each guess that fails takes one
/// unit of `budget`; when none is left the search stops with `Exhausted`.
pub fn solve_recursive(state: Sudoku, rng: &mut StdRng, budget: &mut u32) -> (r: Result<
    Sudoku,
    SearchFailure,
>)
    requires
        state.wf(),
        consistent(state.cells()),
    ensures
        r matches Ok(b) ==> b.wf() && is_full(b.cells()) && consistent(b.cells()) && extends(
            b.cells(),
            state.cells(),
        ),
        r matches Err(SearchFailure::NoSolution) ==> !has_solution(state.cells()),
        solvable_without_guessing(state.cells()) ==> r is Ok,
        (exists|g: Sudoku|
            g.wf() && reaches(state.cells(), g.cells()) && #[trigger] contradiction(
                g.cells(),
                g.masks(),
            )) ==> r == Err::<Sudoku, SearchFailure>(SearchFailure::NoSolution),
        r matches Err(SearchFailure::Exhausted) ==> *final(budget) == 0,
        *final(budget) <= *old(budget),
    decreases num_empty(state.cells()),
{
    let mut cur = state;
    let step = propagate(&mut cur);
    proof {
        if !(step is Impossible) {
            lemma_no_contradiction_reached(state, cur);
        }
    }
    match step {
        StepResult::Solved => {
            return Ok(cur);
        },
        StepResult::Impossible => {
            proof {
                lemma_no_solution_beyond(state, cur);
            }
            return Err(SearchFailure::NoSolution);
        },
        StepResult::NeedsGuess => {},
    }
    let b = match pick_branch(&cur) {
        Some(b) => b,
        None => {
            return Err(SearchFailure::NoSolution);
        },
    };
    if b.num_possible == 0 {
        proof {
            lemma_count_digits_le_9(cur.masks()[cell(b.point.x as int, b.point.y as int)], 1);
        }
        assert(count_digits(cur.masks()[cell(b.point.x as int, b.point.y as int)], 1) >= 2);
        return Err(SearchFailure::NoSolution);
    }
    let point = (b.point.x as usize, b.point.y as usize);
    let mut values = possible_values(&cur, point);
    let ghost sorted = values@;
    shuffle(&mut values, rng);
    let ghost c = cell(point.0 as int, point.1 as int);
    let mut i: usize = 0;
    while i < values.len()
        invariant
            cur.wf(),
            consistent(cur.cells()),
            extends(cur.cells(), state.cells()),
            num_empty(cur.cells()) <= num_empty(state.cells()),
            point.0 < 9,
            point.1 < 9,
            c == cell(point.0 as int, point.1 as int),
            cur.cells()[c] == 0,
            values@.to_multiset() == sorted.to_multiset(),
            forall|j: int|
                0 <= j < sorted.len() ==> 1 <= #[trigger] sorted[j] <= 9 && !peer_holds(
                    cur.cells(),
                    c,
                    sorted[j] as int,
                ),
            *budget <= *old(budget),
            cells_ok(state.cells()),
            consistent(state.cells()),
            reaches(state.cells(), cur.cells()),
            !solvable_without_guessing(state.cells()),
            !exists|g: Sudoku|
                g.wf() && reaches(state.cells(), g.cells()) && #[trigger] contradiction(
                    g.cells(),
                    g.masks(),
                ),
            forall|d: int|
                1 <= d <= 9 && !peer_holds(cur.cells(), c, d) ==> sorted.contains(d as u8),
            forall|j: int|
                0 <= j < i ==> !has_solution(cur.cells().update(c, #[trigger] values@[j])),
        decreases values@.len() - i,
    {
        let v = values[i];
        proof {
            assert(values@.contains(v));
            assert(values@.to_multiset().count(v) > 0);
            assert(sorted.to_multiset().count(v) > 0);
            assert(sorted.contains(v));
            lemma_place_consistent(cur.cells(), c, v);
            lemma_num_empty_update(cur.cells(), c, v);
        }
        let mut next = cur;
        next.set(point, v);
        match solve_recursive(next, rng, budget) {
            Ok(solved) => {
                assert forall|j: int| 0 <= j < 81 && #[trigger] state.cells()[j] != 0 implies solved.cells()[j]
                    == state.cells()[j] by {
                    assert(cur.cells()[j] == state.cells()[j]);
                    assert(next.cells()[j] == cur.cells()[j]);
                }
                return Ok(solved);
            },
            Err(SearchFailure::Exhausted) => {
                return Err(SearchFailure::Exhausted);
            },
            Err(SearchFailure::NoSolution) => {
                assert(!has_solution(cur.cells().update(c, values@[i as int])));
                if *budget == 0 {
                    return Err(SearchFailure::Exhausted);
                }
                *budget = *budget - 1;
            },
        }
        i = i + 1;
    }
    proof {
        if has_solution(state.cells()) {
            let f = choose|f: Seq<u8>| cells_ok(f) && is_full(f) && consistent(f) && #[trigger] extends(f, state.cells());
            let steps = choose|s: Seq<(int, int)>| forced_trace(state.cells(), s) && run(state.cells(), s) == cur.cells();
            lemma_reaches_in_solution(state.cells(), steps, f);
            let w = f[c];
            if peer_holds(cur.cells(), c, w as int) {
                let q = choose|q: int| 0 <= q < 81 && crate::board::is_peer(c, q) && cur.cells()[q] == w;
                assert(f[q] == w);
                assert(crate::board::is_peer(c, q));
            }
            assert(sorted.contains(w));
            assert(sorted.to_multiset().count(w) > 0);
            assert(values@.contains(w));
            let j = choose|j: int| 0 <= j < values@.len() && values@[j] == w;
            assert(!has_solution(cur.cells().update(c, values@[j])));
            assert(extends(f, cur.cells().update(c, w)));
        }
    }
    Err(SearchFailure::NoSolution)
}

/// When propagation from `b` ends stable at `g`, no board reached from `b`
/// by forced placements shows a contradiction.
proof fn lemma_no_contradiction_reached(b: Sudoku, g: Sudoku)
    requires
        b.wf(),
        consistent(b.cells()),
        g.wf(),
        consistent(g.cells()),
        reaches(b.cells(), g.cells()),
        stable(g),
    ensures
        !exists|h: Sudoku|
            h.wf() && reaches(b.cells(), h.cells()) && #[trigger] contradiction(h.cells(), h.masks()),
{
    if exists|h: Sudoku|
        h.wf() && reaches(b.cells(), h.cells()) && #[trigger] contradiction(h.cells(), h.masks()) {
        let h = choose|h: Sudoku|
            h.wf() && reaches(b.cells(), h.cells()) && #[trigger] contradiction(h.cells(), h.masks());
        contradiction_is_order_free(b.cells(), h, g);
    }
}

/// No full board without conflicts keeps the digits of `b` when propagation
/// from `b` ran into a contradiction at `g`.
proof fn lemma_no_solution_beyond(b: Sudoku, g: Sudoku)
    requires
        b.wf(),
        consistent(b.cells()),
        g.wf(),
        reaches(b.cells(), g.cells()),
        crate::propagate::contradiction(g.cells(), g.masks()),
    ensures
        !has_solution(b.cells()),
{
    if has_solution(b.cells()) {
        let f = choose|f: Seq<u8>| cells_ok(f) && is_full(f) && consistent(f) && #[trigger] extends(f, b.cells());
        let steps = choose|s: Seq<(int, int)>| forced_trace(b.cells(), s) && run(b.cells(), s) == g.cells();
        lemma_reaches_in_solution(b.cells(), steps, f);
        lemma_solution_no_contradiction(g, f);
    }
}

} // verus!
