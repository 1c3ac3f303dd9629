//! What propagation may deduce: naked and hidden singles as forced steps,
//! chains of them, and the facts that make propagation order-free.
use crate::board::{count_digits, has_digit, is_peer, mask_matches, peer_holds, Sudoku};
use crate::propagate::{
    consistent, contradiction, extends, is_full, lemma_full_unit, lemma_place_consistent,
    lemma_unit_cells, no_hidden_single, no_naked_single, open_at, unit_blocked, unit_cell,
    unit_has, unit_settled,
};
use vstd::prelude::*;

verus! {

/// 81 cells, each empty or a digit.
pub open spec fn cells_ok(cells: Seq<u8>) -> bool {
    cells.len() == 81 && forall|i: int| 0 <= i < 81 ==> #[trigger] cells[i] <= 9
}

/// Cell `c` is empty and no peer holds `v`.
pub open spec fn fits(cells: Seq<u8>, c: int, v: int) -> bool {
    cells[c] == 0 && !peer_holds(cells, c, v)
}

/// Naked single: `v` fits `c` and every other digit is held by a peer of `c`.
pub open spec fn naked(cells: Seq<u8>, c: int, v: int) -> bool {
    &&& 0 <= c < 81
    &&& 1 <= v <= 9
    &&& fits(cells, c, v)
    &&& forall|d: int| 1 <= d <= 9 && d != v ==> #[trigger] peer_holds(cells, c, d)
}

/// Hidden single: `v` is not placed in unit `u`, fits its `k`-th cell and
/// fits no other cell of it.
pub open spec fn hidden(cells: Seq<u8>, u: int, k: int, v: int) -> bool {
    &&& 0 <= u < 27
    &&& 0 <= k < 9
    &&& 1 <= v <= 9
    &&& !unit_has(cells, u, v)
    &&& fits(cells, unit_cell(u, k), v)
    &&& forall|j: int| 0 <= j < 9 && j != k ==> !#[trigger] fits(cells, unit_cell(u, j), v)
}

/// Placing `v` at `c` is forced by a naked or a hidden single.
pub open spec fn forced(cells: Seq<u8>, c: int, v: int) -> bool {
    ||| naked(cells, c, v)
    ||| exists|u: int, k: int| unit_cell(u, k) == c && #[trigger] hidden(cells, u, k, v)
}

/// The board after the placements `steps` (cell, digit), in order.
pub open spec fn run(b: Seq<u8>, steps: Seq<(int, int)>) -> Seq<u8>
    decreases steps.len(),
{
    if steps.len() == 0 {
        b
    } else {
        run(b, steps.drop_last()).update(steps.last().0, steps.last().1 as u8)
    }
}

/// Each placement of `steps` is forced on the board it is made on.
pub open spec fn forced_trace(b: Seq<u8>, steps: Seq<(int, int)>) -> bool
    decreases steps.len(),
{
    steps.len() == 0 || (forced_trace(b, steps.drop_last()) && forced(
        run(b, steps.drop_last()),
        steps.last().0,
        steps.last().1,
    ))
}

/// `g` follows from `b` by forced placements alone.
pub open spec fn reaches(b: Seq<u8>, g: Seq<u8>) -> bool {
    exists|steps: Seq<(int, int)>| forced_trace(b, steps) && run(b, steps) == g
}

/// Forced placements alone fill `b` completely.
pub open spec fn solvable_without_guessing(b: Seq<u8>) -> bool {
    exists|steps: Seq<(int, int)>| forced_trace(b, steps) && is_full(#[trigger] run(b, steps))
}

/// Nothing more can be deduced: no naked and no hidden single.
pub open spec fn stable(g: Sudoku) -> bool {
    no_naked_single(g.cells(), g.masks()) && no_hidden_single(g.cells(), g.masks())
}

pub proof fn lemma_reaches_refl(a: Seq<u8>)
    ensures
        reaches(a, a),
{
    let steps = Seq::<(int, int)>::empty();
    assert(forced_trace(a, steps) && run(a, steps) == a);
}

/// What a forced placement is: a digit into an empty cell that it fits.
pub proof fn lemma_forced_fits(a: Seq<u8>, c: int, v: int)
    requires
        forced(a, c, v),
    ensures
        0 <= c < 81,
        1 <= v <= 9,
        fits(a, c, v),
{
    if !naked(a, c, v) {
        let (u, k) = choose|u: int, k: int| unit_cell(u, k) == c && #[trigger] hidden(a, u, k, v);
        lemma_unit_cells(u, k, k);
    }
}

pub proof fn lemma_reaches_step(a: Seq<u8>, c: int, v: int)
    requires
        forced(a, c, v),
    ensures
        reaches(a, a.update(c, v as u8)),
{
    let steps = seq![(c, v)];
    assert(steps.drop_last() =~= Seq::<(int, int)>::empty());
    assert(run(a, steps.drop_last()) == a);
    assert(forced_trace(a, steps.drop_last()));
    assert(steps.last() == (c, v));
    assert(forced_trace(a, steps));
    assert(run(a, steps) == a.update(c, v as u8));
}

proof fn lemma_trace_append(b: Seq<u8>, s1: Seq<(int, int)>, s2: Seq<(int, int)>)
    requires
        forced_trace(b, s1),
        forced_trace(run(b, s1), s2),
    ensures
        forced_trace(b, s1 + s2),
        run(b, s1 + s2) == run(run(b, s1), s2),
    decreases s2.len(),
{
    if s2.len() == 0 {
        assert(s1 + s2 =~= s1);
    } else {
        lemma_trace_append(b, s1, s2.drop_last());
        assert((s1 + s2).drop_last() =~= s1 + s2.drop_last());
        assert((s1 + s2).last() == s2.last());
    }
}

pub proof fn lemma_reaches_trans(a: Seq<u8>, b: Seq<u8>, c: Seq<u8>)
    requires
        reaches(a, b),
        reaches(b, c),
    ensures
        reaches(a, c),
{
    let s1 = choose|s: Seq<(int, int)>| forced_trace(a, s) && run(a, s) == b;
    let s2 = choose|s: Seq<(int, int)>| forced_trace(b, s) && run(b, s) == c;
    lemma_trace_append(a, s1, s2);
}

/// Forced placements keep a board well formed and free of conflicts, and
/// only add digits.
pub proof fn lemma_trace_shape(b: Seq<u8>, steps: Seq<(int, int)>)
    requires
        cells_ok(b),
        consistent(b),
        forced_trace(b, steps),
    ensures
        cells_ok(run(b, steps)),
        consistent(run(b, steps)),
        extends(run(b, steps), b),
    decreases steps.len(),
{
    if steps.len() > 0 {
        let prev = run(b, steps.drop_last());
        let (c, v) = steps.last();
        lemma_trace_shape(b, steps.drop_last());
        lemma_forced_fits(prev, c, v);
        lemma_place_consistent(prev, c, v as u8);
    }
}

/// If `x` has more digits than `t`, whatever a peer holds in `t` it holds in `x`.
proof fn lemma_peer_holds_mono(t: Seq<u8>, x: Seq<u8>, c: int, d: int)
    requires
        extends(x, t),
        t.len() == 81,
        1 <= d <= 9,
        peer_holds(t, c, d),
    ensures
        peer_holds(x, c, d),
{
    let q = choose|q: int| 0 <= q < 81 && is_peer(c, q) && t[q] == d;
    assert(x[q] == d);
}

/// A forced placement is made by every full conflict-free board that keeps
/// the digits of the board it is forced on.
proof fn lemma_forced_in_solution(a: Seq<u8>, f: Seq<u8>, c: int, v: int)
    requires
        cells_ok(a),
        cells_ok(f),
        is_full(f),
        consistent(f),
        extends(f, a),
        forced(a, c, v),
    ensures
        f[c] == v,
{
    lemma_forced_fits(a, c, v);
    if naked(a, c, v) {
        let w = f[c] as int;
        if w != v {
            assert(peer_holds(a, c, w));
            let q = choose|q: int| 0 <= q < 81 && is_peer(c, q) && a[q] == w;
            assert(f[q] == w);
            assert(is_peer(c, q));
        }
    } else {
        let (u, k) = choose|u: int, k: int| unit_cell(u, k) == c && #[trigger] hidden(a, u, k, v);
        lemma_full_unit(f, u, v);
        let j = choose|j: int| 0 <= j < 9 && f[#[trigger] unit_cell(u, j)] == v;
        let cj = unit_cell(u, j);
        lemma_unit_cells(u, j, j);
        if a[cj] != 0 {
            assert(a[cj] == v);
            assert(unit_has(a, u, v));
        }
        if peer_holds(a, cj, v) {
            let q = choose|q: int| 0 <= q < 81 && is_peer(cj, q) && a[q] == v;
            assert(f[q] == v);
            assert(is_peer(cj, q));
        }
        assert(fits(a, cj, v));
        if j != k {
            assert(!fits(a, unit_cell(u, j), v));
        }
    }
}

/// Every full conflict-free board that keeps the digits of `b` keeps those
/// of any board that follows from `b` by forced placements.
pub proof fn lemma_reaches_in_solution(b: Seq<u8>, steps: Seq<(int, int)>, f: Seq<u8>)
    requires
        cells_ok(b),
        consistent(b),
        forced_trace(b, steps),
        cells_ok(f),
        is_full(f),
        consistent(f),
        extends(f, b),
    ensures
        extends(f, run(b, steps)),
    decreases steps.len(),
{
    if steps.len() > 0 {
        let prev = run(b, steps.drop_last());
        let (c, v) = steps.last();
        lemma_reaches_in_solution(b, steps.drop_last(), f);
        lemma_trace_shape(b, steps.drop_last());
        lemma_forced_in_solution(prev, f, c, v);
    }
}

proof fn lemma_two_digits(m: u16, from: int, a: int, b: int)
    requires
        1 <= from <= a,
        a < b <= 9,
        has_digit(m, a as u16),
        has_digit(m, b as u16),
    ensures
        count_digits(m, from) >= 2,
    decreases b - from,
{
    if from < a {
        lemma_two_digits(m, from + 1, a, b);
    } else {
        lemma_one_digit(m, from + 1, b);
    }
}

proof fn lemma_one_digit(m: u16, from: int, a: int)
    requires
        1 <= from <= a <= 9,
        has_digit(m, a as u16),
    ensures
        count_digits(m, from) >= 1,
    decreases a - from,
{
    if from < a {
        lemma_one_digit(m, from + 1, a);
    }
}

/// At least two candidates means two distinct digits in the mask.
proof fn lemma_count_two(m: u16, v: int)
    requires
        count_digits(m, 1) >= 2,
        1 <= v <= 9,
    ensures
        exists|d: int| 1 <= d <= 9 && d != v && #[trigger] has_digit(m, d as u16),
{
    if forall|d: int| 1 <= d <= 9 && d != v ==> !#[trigger] has_digit(m, d as u16) {
        lemma_count_at_most_one(m, 1, v);
    }
}

proof fn lemma_count_at_most_one(m: u16, from: int, v: int)
    requires
        1 <= from <= 10,
        1 <= v <= 9,
        forall|d: int| from <= d <= 9 && d != v ==> !#[trigger] has_digit(m, d as u16),
    ensures
        count_digits(m, from) <= 1,
        from > v ==> count_digits(m, from) == 0,
    decreases 10 - from,
{
    if from <= 9 {
        lemma_count_at_most_one(m, from + 1, v);
    }
}

/// A single candidate: every other digit is out.
pub proof fn lemma_count_one(m: u16, v: int)
    requires
        count_digits(m, 1) == 1,
        1 <= v <= 9,
        has_digit(m, v as u16),
    ensures
        forall|d: int| 1 <= d <= 9 && d != v ==> !#[trigger] has_digit(m, d as u16),
{
    assert forall|d: int| 1 <= d <= 9 && d != v implies !#[trigger] has_digit(m, d as u16) by {
        if has_digit(m, d as u16) {
            if d < v {
                lemma_two_digits(m, 1, d, v);
            } else {
                lemma_two_digits(m, 1, v, d);
            }
        }
    }
}

/// On a well-formed board a digit fits a cell exactly when its bit is set
/// in the cell's mask and the cell is empty.
pub proof fn lemma_fits_mask(g: Sudoku, c: int, v: int)
    requires
        g.wf(),
        0 <= c < 81,
        1 <= v <= 9,
    ensures
        fits(g.cells(), c, v) == (g.cells()[c] == 0 && has_digit(g.masks()[c], v as u16)),
{
    assert(mask_matches(g.cells(), g.masks(), c));
    assert(has_digit(g.masks()[c], v as u16) <==> !peer_holds(g.cells(), c, (v as u16) as int));
}

/// A forced placement is already made on a stable conflict-free board that
/// keeps the digits of the board it is forced on.
proof fn lemma_forced_persists(t: Seq<u8>, g: Sudoku, c: int, v: int)
    requires
        cells_ok(t),
        g.wf(),
        consistent(g.cells()),
        extends(g.cells(), t),
        stable(g),
        forced(t, c, v),
    ensures
        g.cells()[c] == v,
{
    let gc = g.cells();
    lemma_forced_fits(t, c, v);
    if naked(t, c, v) {
        let w = gc[c] as int;
        if w != 0 && w != v {
            assert(peer_holds(t, c, w));
            lemma_peer_holds_mono(t, gc, c, w);
            let q = choose|q: int| 0 <= q < 81 && is_peer(c, q) && gc[q] == w;
            assert(is_peer(c, q));
        }
        if w == 0 {
            assert(count_digits(g.masks()[c], 1) >= 2);
            lemma_count_two(g.masks()[c], v);
            let d = choose|d: int| 1 <= d <= 9 && d != v && #[trigger] has_digit(g.masks()[c], d as u16);
            assert(peer_holds(t, c, d));
            lemma_peer_holds_mono(t, gc, c, d);
            lemma_fits_mask(g, c, d);
        }
    } else {
        let (u, k) = choose|u: int, k: int| unit_cell(u, k) == c && #[trigger] hidden(t, u, k, v);
        if gc[c] != v {
            assert(unit_settled(gc, g.masks(), u, v));
            if unit_has(gc, u, v) {
                let j = choose|j: int| 0 <= j < 9 && gc[#[trigger] unit_cell(u, j)] == v;
                let cj = unit_cell(u, j);
                lemma_unit_cells(u, j, j);
                if t[cj] != 0 {
                    assert(unit_has(t, u, v));
                }
                if peer_holds(t, cj, v) {
                    lemma_peer_holds_mono(t, gc, cj, v);
                    let q = choose|q: int| 0 <= q < 81 && is_peer(cj, q) && gc[q] == v;
                    assert(is_peer(cj, q));
                }
                assert(fits(t, cj, v));
                if j != k {
                    assert(!fits(t, unit_cell(u, j), v));
                }
            } else {
                let (j1, j2) = choose|j1: int, j2: int|
                    0 <= j1 < 9 && 0 <= j2 < 9 && j1 != j2 && #[trigger] open_at(
                        gc,
                        g.masks(),
                        u,
                        j1,
                        v,
                    ) && #[trigger] open_at(gc, g.masks(), u, j2, v);
                lemma_open_fits(t, g, u, j1, v);
                lemma_open_fits(t, g, u, j2, v);
                if j1 != k {
                    assert(!fits(t, unit_cell(u, j1), v));
                } else {
                    assert(!fits(t, unit_cell(u, j2), v));
                }
            }
        }
    }
}

/// A cell open for `v` on `g` is one that `v` fits on any board that `g` extends.
proof fn lemma_open_fits(t: Seq<u8>, g: Sudoku, u: int, j: int, v: int)
    requires
        cells_ok(t),
        g.wf(),
        extends(g.cells(), t),
        0 <= u < 27,
        0 <= j < 9,
        1 <= v <= 9,
        open_at(g.cells(), g.masks(), u, j, v),
    ensures
        fits(t, unit_cell(u, j), v),
        fits(g.cells(), unit_cell(u, j), v),
{
    let cj = unit_cell(u, j);
    lemma_unit_cells(u, j, j);
    lemma_fits_mask(g, cj, v);
    if t[cj] != 0 {
        assert(g.cells()[cj] == t[cj]);
    }
    if peer_holds(t, cj, v) {
        lemma_peer_holds_mono(t, g.cells(), cj, v);
    }
}

/// A stable conflict-free board keeps the digits of every board that
/// follows by forced placements from a board it keeps the digits of.
pub proof fn lemma_reaches_within_stable(b: Seq<u8>, steps: Seq<(int, int)>, g: Sudoku)
    requires
        cells_ok(b),
        consistent(b),
        forced_trace(b, steps),
        g.wf(),
        consistent(g.cells()),
        extends(g.cells(), b),
        stable(g),
    ensures
        extends(g.cells(), run(b, steps)),
    decreases steps.len(),
{
    if steps.len() > 0 {
        let prev = run(b, steps.drop_last());
        let (c, v) = steps.last();
        lemma_reaches_within_stable(b, steps.drop_last(), g);
        lemma_trace_shape(b, steps.drop_last());
        lemma_forced_persists(prev, g, c, v);
    }
}

/// A full board without conflicts is stable.
pub proof fn lemma_full_stable(g: Sudoku)
    requires
        g.wf(),
        is_full(g.cells()),
        consistent(g.cells()),
    ensures
        stable(g),
{
    assert forall|u: int, v: int| 0 <= u < 27 && 1 <= v <= 9 implies #[trigger] unit_settled(
        g.cells(),
        g.masks(),
        u,
        v,
    ) by {
        lemma_full_unit(g.cells(), u, v);
    }
}

/// A board that some full conflict-free board extends shows no contradiction.
pub proof fn lemma_solution_no_contradiction(g: Sudoku, f: Seq<u8>)
    requires
        g.wf(),
        cells_ok(f),
        is_full(f),
        consistent(f),
        extends(f, g.cells()),
    ensures
        !contradiction(g.cells(), g.masks()),
{
    let gc = g.cells();
    if !contradiction(gc, g.masks()) {
    } else if exists|c: int| 0 <= c < 81 && gc[c] == 0 && #[trigger] count_digits(g.masks()[c], 1) == 0 {
        let c = choose|c: int| 0 <= c < 81 && gc[c] == 0 && #[trigger] count_digits(g.masks()[c], 1) == 0;
        let w = f[c] as int;
        if peer_holds(gc, c, w) {
            let q = choose|q: int| 0 <= q < 81 && is_peer(c, q) && gc[q] == w;
            assert(f[q] == w);
            assert(is_peer(c, q));
        }
        lemma_fits_mask(g, c, w);
        lemma_one_digit(g.masks()[c], 1, w);
    } else {
        let (u, v) = choose|u: int, v: int|
            0 <= u < 27 && 1 <= v <= 9 && #[trigger] unit_blocked(gc, g.masks(), u, v);
        lemma_full_unit(f, u, v);
        let j = choose|j: int| 0 <= j < 9 && f[#[trigger] unit_cell(u, j)] == v;
        let cj = unit_cell(u, j);
        lemma_unit_cells(u, j, j);
        if gc[cj] != 0 {
            assert(unit_has(gc, u, v));
        }
        if peer_holds(gc, cj, v) {
            let q = choose|q: int| 0 <= q < 81 && is_peer(cj, q) && gc[q] == v;
            assert(f[q] == v);
            assert(is_peer(cj, q));
        }
        lemma_fits_mask(g, cj, v);
        assert(open_at(gc, g.masks(), u, j, v));
    }
}

/// Propagation that ends short of a full board, in a contradiction or a
/// stable state, shows that forced placements cannot fill the board.
pub proof fn lemma_stuck_not_solvable(b: Seq<u8>, g: Sudoku)
    requires
        cells_ok(b),
        consistent(b),
        g.wf(),
        consistent(g.cells()),
        reaches(b, g.cells()),
        contradiction(g.cells(), g.masks()) || stable(g),
        !is_full(g.cells()),
    ensures
        !solvable_without_guessing(b),
{
    if solvable_without_guessing(b) {
        let steps = choose|steps: Seq<(int, int)>| forced_trace(b, steps) && is_full(#[trigger] run(b, steps));
        let f = run(b, steps);
        lemma_trace_shape(b, steps);
        let gsteps = choose|s: Seq<(int, int)>| forced_trace(b, s) && run(b, s) == g.cells();
        lemma_trace_shape(b, gsteps);
        if contradiction(g.cells(), g.masks()) {
            lemma_reaches_in_solution(b, gsteps, f);
            lemma_solution_no_contradiction(g, f);
        } else {
            lemma_reaches_within_stable(b, steps, g);
            assert forall|i: int| 0 <= i < 81 implies #[trigger] g.cells()[i] != 0 by {
                assert(f[i] != 0);
            }
        }
    }
}

/// A full board reached by forced placements shows that they fill the board.
pub proof fn lemma_full_solvable(b: Seq<u8>, g: Seq<u8>)
    requires
        reaches(b, g),
        is_full(g),
    ensures
        solvable_without_guessing(b),
{
    let steps = choose|s: Seq<(int, int)>| forced_trace(b, s) && run(b, s) == g;
    assert(is_full(run(b, steps)));
}

/// Propagation does not depend on the order of its scans: two boards that
/// follow from the same conflict-free board by forced placements, and on
/// which nothing more can be deduced, are the same board.
pub proof fn propagation_is_confluent(b: Seq<u8>, g1: Sudoku, g2: Sudoku)
    requires
        cells_ok(b),
        consistent(b),
        g1.wf(),
        g2.wf(),
        reaches(b, g1.cells()),
        reaches(b, g2.cells()),
        stable(g1),
        stable(g2),
    ensures
        g1 == g2,
{
    let s1 = choose|s: Seq<(int, int)>| forced_trace(b, s) && run(b, s) == g1.cells();
    let s2 = choose|s: Seq<(int, int)>| forced_trace(b, s) && run(b, s) == g2.cells();
    lemma_trace_shape(b, s1);
    lemma_trace_shape(b, s2);
    lemma_reaches_within_stable(b, s2, g1);
    lemma_reaches_within_stable(b, s1, g2);
    assert(g1.cells() =~= g2.cells()) by {
        assert forall|i: int| 0 <= i < 81 implies g1.cells()[i] == g2.cells()[i] by {
            if g1.cells()[i] != 0 {
                assert(g2.cells()[i] == g1.cells()[i]);
            } else if g2.cells()[i] != 0 {
                assert(g1.cells()[i] == g2.cells()[i]);
            }
        }
    }
    Sudoku::lemma_determined(g1, g2);
}

/// A board that forced placements fill has one full conflict-free board
/// that keeps its digits: any two such boards are equal.
pub proof fn lemma_unique_completion(p: Seq<u8>, f1: Seq<u8>, f2: Seq<u8>)
    requires
        cells_ok(p),
        consistent(p),
        solvable_without_guessing(p),
        cells_ok(f1),
        is_full(f1),
        consistent(f1),
        extends(f1, p),
        cells_ok(f2),
        is_full(f2),
        consistent(f2),
        extends(f2, p),
    ensures
        f1 == f2,
{
    let steps = choose|steps: Seq<(int, int)>| forced_trace(p, steps) && is_full(#[trigger] run(p, steps));
    let g = run(p, steps);
    lemma_reaches_in_solution(p, steps, f1);
    lemma_reaches_in_solution(p, steps, f2);
    assert forall|i: int| 0 <= i < 81 implies f1[i] == f2[i] by {
        assert(g[i] != 0);
    }
    assert(f1 =~= f2);
}

/// A board that a stable conflict-free board extends shows no contradiction.
proof fn lemma_stable_no_contradiction(g1: Sudoku, g2: Sudoku)
    requires
        g1.wf(),
        g2.wf(),
        consistent(g2.cells()),
        stable(g2),
        extends(g2.cells(), g1.cells()),
    ensures
        !contradiction(g1.cells(), g1.masks()),
{
    let c1 = g1.cells();
    let c2 = g2.cells();
    if !contradiction(c1, g1.masks()) {
    } else if exists|c: int| 0 <= c < 81 && c1[c] == 0 && #[trigger] count_digits(g1.masks()[c], 1) == 0 {
        let c = choose|c: int| 0 <= c < 81 && c1[c] == 0 && #[trigger] count_digits(g1.masks()[c], 1) == 0;
        let w = c2[c] as int;
        if w != 0 {
            if peer_holds(c1, c, w) {
                lemma_peer_holds_mono(c1, c2, c, w);
                let q = choose|q: int| 0 <= q < 81 && is_peer(c, q) && c2[q] == w;
                assert(is_peer(c, q));
            }
            lemma_fits_mask(g1, c, w);
            lemma_one_digit(g1.masks()[c], 1, w);
        } else {
            assert(count_digits(g2.masks()[c], 1) >= 2);
            lemma_count_two(g2.masks()[c], 1);
            let d = choose|d: int| 1 <= d <= 9 && d != 1 && #[trigger] has_digit(g2.masks()[c], d as u16);
            lemma_fits_mask(g2, c, d);
            if peer_holds(c1, c, d) {
                lemma_peer_holds_mono(c1, c2, c, d);
            }
            lemma_fits_mask(g1, c, d);
            lemma_one_digit(g1.masks()[c], 1, d);
        }
    } else {
        let (u, v) = choose|u: int, v: int|
            0 <= u < 27 && 1 <= v <= 9 && #[trigger] unit_blocked(c1, g1.masks(), u, v);
        assert(unit_settled(c2, g2.masks(), u, v));
        if unit_has(c2, u, v) {
            let j = choose|j: int| 0 <= j < 9 && c2[#[trigger] unit_cell(u, j)] == v;
            let cj = unit_cell(u, j);
            lemma_unit_cells(u, j, j);
            if c1[cj] != 0 {
                assert(unit_has(c1, u, v));
            }
            if peer_holds(c1, cj, v) {
                lemma_peer_holds_mono(c1, c2, cj, v);
                let q = choose|q: int| 0 <= q < 81 && is_peer(cj, q) && c2[q] == v;
                assert(is_peer(cj, q));
            }
            lemma_fits_mask(g1, cj, v);
            assert(open_at(c1, g1.masks(), u, j, v));
        } else {
            let (j1, j2) = choose|j1: int, j2: int|
                0 <= j1 < 9 && 0 <= j2 < 9 && j1 != j2 && #[trigger] open_at(c2, g2.masks(), u, j1, v)
                    && #[trigger] open_at(c2, g2.masks(), u, j2, v);
            lemma_open_fits(c1, g2, u, j1, v);
            lemma_unit_cells(u, j1, j1);
            lemma_fits_mask(g1, unit_cell(u, j1), v);
            assert(open_at(c1, g1.masks(), u, j1, v));
        }
    }
}

/// Whether propagation ends in a contradiction does not depend on the order
/// of its scans either: once one order of forced placements reaches a
/// contradiction, no order reaches a stable board.
pub proof fn contradiction_is_order_free(b: Seq<u8>, g1: Sudoku, g2: Sudoku)
    requires
        cells_ok(b),
        consistent(b),
        g1.wf(),
        g2.wf(),
        reaches(b, g1.cells()),
        reaches(b, g2.cells()),
        contradiction(g1.cells(), g1.masks()),
    ensures
        !stable(g2),
{
    if stable(g2) {
        let s1 = choose|s: Seq<(int, int)>| forced_trace(b, s) && run(b, s) == g1.cells();
        let s2 = choose|s: Seq<(int, int)>| forced_trace(b, s) && run(b, s) == g2.cells();
        lemma_trace_shape(b, s1);
        lemma_trace_shape(b, s2);
        lemma_reaches_within_stable(b, s1, g2);
        lemma_stable_no_contradiction(g1, g2);
    }
}

/// Forced placements on `q` can be replayed on any `q2` that has more of the
/// digits of the same full conflict-free board `f`: each one is either
/// already made on `q2` or forced there too.
pub proof fn lemma_replay(q: Seq<u8>, q2: Seq<u8>, f: Seq<u8>, steps: Seq<(int, int)>) -> (steps2: Seq<
    (int, int),
>)
    requires
        cells_ok(q),
        consistent(q),
        cells_ok(q2),
        extends(q2, q),
        cells_ok(f),
        is_full(f),
        consistent(f),
        extends(f, q2),
        forced_trace(q, steps),
    ensures
        forced_trace(q2, steps2),
        extends(run(q2, steps2), run(q, steps)),
        extends(f, run(q2, steps2)),
        cells_ok(run(q2, steps2)),
    decreases steps.len(),
{
    if steps.len() == 0 {
        lemma_reaches_refl(q2);
        Seq::empty()
    } else {
        let prev_steps = steps.drop_last();
        let s2 = lemma_replay(q, q2, f, prev_steps);
        let t = run(q, prev_steps);
        let t2 = run(q2, s2);
        let (c, v) = steps.last();
        lemma_trace_shape(q, prev_steps);
        assert(extends(f, q)) by {
            assert forall|i: int| 0 <= i < 81 && #[trigger] q[i] != 0 implies f[i] == q[i] by {
                assert(q2[i] == q[i]);
            }
        }
        lemma_reaches_in_solution(q, prev_steps, f);
        lemma_forced_in_solution(t, f, c, v);
        lemma_forced_fits(t, c, v);
        if t2[c] != 0 {
            assert(t2[c] == v);
            assert(extends(t2, t.update(c, v as u8)));
            s2
        } else {
            // v fits c on t2: a peer holding v on t2 would clash with c in f.
            if peer_holds(t2, c, v) {
                let r = choose|r: int| 0 <= r < 81 && is_peer(c, r) && t2[r] == v;
                assert(f[r] == v);
                assert(is_peer(c, r));
            }
            if naked(t, c, v) {
                assert forall|d: int| 1 <= d <= 9 && d != v implies #[trigger] peer_holds(t2, c, d) by {
                    assert(peer_holds(t, c, d));
                    lemma_peer_holds_mono(t, t2, c, d);
                }
                assert(naked(t2, c, v));
            } else {
                let (u, k) = choose|u: int, k: int| unit_cell(u, k) == c && #[trigger] hidden(t, u, k, v);
                if unit_has(t2, u, v) {
                    let j = choose|j: int| 0 <= j < 9 && t2[#[trigger] unit_cell(u, j)] == v;
                    lemma_unit_cells(u, j, k);
                    assert(f[unit_cell(u, j)] == v);
                    if j != k {
                        assert(is_peer(unit_cell(u, j), c));
                    }
                }
                assert forall|j: int| 0 <= j < 9 && j != k implies !#[trigger] fits(t2, unit_cell(u, j), v) by {
                    let cj = unit_cell(u, j);
                    lemma_unit_cells(u, j, j);
                    if fits(t2, cj, v) {
                        if t[cj] != 0 {
                            assert(t2[cj] == t[cj]);
                        }
                        if peer_holds(t, cj, v) {
                            lemma_peer_holds_mono(t, t2, cj, v);
                        }
                        assert(fits(t, cj, v));
                    }
                }
                assert(hidden(t2, u, k, v));
            }
            let s3 = s2.push((c, v));
            assert(s3.drop_last() =~= s2);
            assert(forced_trace(q2, s3));
            assert(run(q2, s3) == t2.update(c, v as u8));
            s3
        }
    }
}

/// More digits of the same solution never stop forced placements from
/// filling a board.
pub proof fn lemma_solvable_mono(q: Seq<u8>, q2: Seq<u8>, f: Seq<u8>)
    requires
        cells_ok(q),
        consistent(q),
        cells_ok(q2),
        extends(q2, q),
        cells_ok(f),
        is_full(f),
        consistent(f),
        extends(f, q2),
        solvable_without_guessing(q),
    ensures
        solvable_without_guessing(q2),
{
    let steps = choose|steps: Seq<(int, int)>| forced_trace(q, steps) && is_full(#[trigger] run(q, steps));
    let steps2 = lemma_replay(q, q2, f, steps);
    assert forall|i: int| 0 <= i < 81 implies #[trigger] run(q2, steps2)[i] != 0 by {
        assert(run(q, steps)[i] != 0);
    }
    assert(is_full(run(q2, steps2)));
}

} // verus!
