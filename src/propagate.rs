//! Deduction to a fixpoint: naked singles (a cell with one candidate left)
//! and hidden singles (a digit with one cell left in a unit).
use crate::board::{
    cell, count_digits, has_digit, is_peer, mask_matches, lemma_num_empty_update, lemma_num_empty_zero,
    num_empty, peer_holds, Sudoku,
};
use crate::iters::{block_positions, col_positions, row_positions, BlockIter, ColIter, RowIter};
use crate::deduce::{
    cells_ok, forced, hidden, lemma_count_one, lemma_fits_mask, lemma_full_solvable, lemma_full_stable,
    lemma_reaches_refl, lemma_reaches_step, lemma_reaches_trans, lemma_stuck_not_solvable, naked,
    reaches, solvable_without_guessing, stable,
};
use vstd::prelude::*;
use vstd::arithmetic::div_mod::{lemma_fundamental_div_mod, lemma_fundamental_div_mod_converse};
use vstd::set_lib::{lemma_int_range, lemma_subset_equality, set_int_range};

verus! {

/// No two peers hold the same digit.
pub open spec fn consistent(cells: Seq<u8>) -> bool {
    forall|a: int, b: int|
        0 <= a < 81 && 0 <= b < 81 && #[trigger] is_peer(a, b) && cells[a] != 0 ==> cells[a]
            != cells[b]
}

/// Every cell holds a digit.
pub open spec fn is_full(cells: Seq<u8>) -> bool {
    forall|i: int| 0 <= i < 81 ==> #[trigger] cells[i] != 0
}

/// `new` keeps every digit that `old` had placed.
pub open spec fn extends(new: Seq<u8>, old: Seq<u8>) -> bool {
    forall|i: int| 0 <= i < 81 && #[trigger] old[i] != 0 ==> new[i] == old[i]
}

/// The `k`-th cell (`k` in `0..9`) of unit `u` (`u` in `0..27`): rows
/// first, then columns, then blocks, left to right and top to bottom.
pub open spec fn unit_cell(u: int, k: int) -> int {
    if u < 9 {
        cell(k, u)
    } else if u < 18 {
        cell(u - 9, k)
    } else {
        cell(((u - 18) % 3) * 3 + k % 3, ((u - 18) / 3) * 3 + k / 3)
    }
}

/// Some cell of unit `u` holds `v`.
pub open spec fn unit_has(cells: Seq<u8>, u: int, v: int) -> bool {
    exists|k: int| 0 <= k < 9 && cells[#[trigger] unit_cell(u, k)] == v
}

/// Cell `k` of unit `u` is empty and can still take `v`.
pub open spec fn open_at(cells: Seq<u8>, masks: Seq<u16>, u: int, k: int, v: int) -> bool {
    cells[unit_cell(u, k)] == 0 && has_digit(masks[unit_cell(u, k)], v as u16)
}

/// `v` is placed in unit `u`, or at least two cells of it can take `v`.
pub open spec fn unit_settled(cells: Seq<u8>, masks: Seq<u16>, u: int, v: int) -> bool {
    ||| unit_has(cells, u, v)
    ||| exists|k1: int, k2: int|
        0 <= k1 < 9 && 0 <= k2 < 9 && k1 != k2 && #[trigger] open_at(cells, masks, u, k1, v)
            && #[trigger] open_at(cells, masks, u, k2, v)
}

/// `v` is neither placed in unit `u` nor possible in any of its cells.
pub open spec fn unit_blocked(cells: Seq<u8>, masks: Seq<u16>, u: int, v: int) -> bool {
    !unit_has(cells, u, v) && forall|k: int| 0 <= k < 9 ==> !#[trigger] open_at(cells, masks, u, k, v)
}

/// An empty cell with no candidate, or a digit with no place in a unit.
pub open spec fn contradiction(cells: Seq<u8>, masks: Seq<u16>) -> bool {
    ||| exists|c: int| 0 <= c < 81 && cells[c] == 0 && #[trigger] count_digits(masks[c], 1) == 0
    ||| exists|u: int, v: int| 0 <= u < 27 && 1 <= v <= 9 && #[trigger] unit_blocked(cells, masks, u, v)
}

/// No naked single: every empty cell has at least two candidates.
pub open spec fn no_naked_single(cells: Seq<u8>, masks: Seq<u16>) -> bool {
    forall|c: int| 0 <= c < 81 && cells[c] == 0 ==> #[trigger] count_digits(masks[c], 1) >= 2
}

/// No hidden single and no digit without a place, in any unit.
pub open spec fn no_hidden_single(cells: Seq<u8>, masks: Seq<u16>) -> bool {
    forall|u: int, v: int| 0 <= u < 27 && 1 <= v <= 9 ==> #[trigger] unit_settled(cells, masks, u, v)
}

/// Where the `k`-th cell of unit `u` lies: its column, row and block.
proof fn lemma_unit_cell_coords(u: int, k: int)
    requires
        0 <= u < 27,
        0 <= k < 9,
    ensures
        0 <= unit_cell(u, k) < 81,
        u < 9 ==> unit_cell(u, k) / 9 == k && unit_cell(u, k) % 9 == u,
        9 <= u < 18 ==> unit_cell(u, k) / 9 == u - 9 && unit_cell(u, k) % 9 == k,
        18 <= u ==> {
            &&& unit_cell(u, k) / 9 == ((u - 18) % 3) * 3 + k % 3
            &&& unit_cell(u, k) % 9 == ((u - 18) / 3) * 3 + k / 3
            &&& unit_cell(u, k) / 27 == (u - 18) % 3
            &&& (unit_cell(u, k) % 9) / 3 == (u - 18) / 3
        },
{
    let a = unit_cell(u, k);
    if u < 9 {
        lemma_fundamental_div_mod_converse(a, 9, k, u);
    } else if u < 18 {
        lemma_fundamental_div_mod_converse(a, 9, u - 9, k);
    } else {
        let b = u - 18;
        let x = (b % 3) * 3 + k % 3;
        let y = (b / 3) * 3 + k / 3;
        assert(0 <= y < 9);
        lemma_fundamental_div_mod_converse(a, 9, x, y);
        lemma_fundamental_div_mod_converse(a, 27, b % 3, (k % 3) * 9 + y);
        lemma_fundamental_div_mod_converse(y, 3, b / 3, k / 3);
    }
}

/// The nine cells of a unit are distinct, in range, and peers of each other.
pub proof fn lemma_unit_cells(u: int, k1: int, k2: int)
    requires
        0 <= u < 27,
        0 <= k1 < 9,
        0 <= k2 < 9,
    ensures
        0 <= unit_cell(u, k1) < 81,
        k1 != k2 ==> is_peer(unit_cell(u, k1), unit_cell(u, k2)),
{
    lemma_unit_cell_coords(u, k1);
    lemma_unit_cell_coords(u, k2);
    if u >= 18 && k1 != k2 {
        assert(k1 == (k1 / 3) * 3 + k1 % 3);
        assert(k2 == (k2 / 3) * 3 + k2 % 3);
    }
}

/// In a full board without conflicts every unit holds every digit once.
pub proof fn lemma_full_unit(cells: Seq<u8>, u: int, v: int)
    requires
        cells.len() == 81,
        is_full(cells),
        consistent(cells),
        forall|i: int| 0 <= i < 81 ==> #[trigger] cells[i] <= 9,
        0 <= u < 27,
        1 <= v <= 9,
    ensures
        unit_has(cells, u, v),
        forall|k1: int, k2: int|
            0 <= k1 < 9 && 0 <= k2 < 9 && cells[unit_cell(u, k1)] == v && cells[unit_cell(u, k2)]
                == v ==> k1 == k2,
{
    let s = Seq::new(9, |k: int| cells[unit_cell(u, k)] as int);
    assert forall|k1: int, k2: int|
        0 <= k1 < 9 && 0 <= k2 < 9 && k1 != k2 implies s[k1] != s[k2] by {
        lemma_unit_cells(u, k1, k2);
        let a = unit_cell(u, k1);
        assert(cells[a] != 0);
        assert(is_peer(a, unit_cell(u, k2)));
    }
    assert(s.no_duplicates());
    s.unique_seq_to_set();
    lemma_int_range(1, 10);
    assert forall|x: int| s.to_set().contains(x) implies set_int_range(1, 10).contains(x) by {
        let k = choose|k: int| 0 <= k < 9 && s[k] == x;
        lemma_unit_cells(u, k, k);
        assert(cells[unit_cell(u, k)] <= 9);
        assert(cells[unit_cell(u, k)] != 0);
    }
    lemma_subset_equality(s.to_set(), set_int_range(1, 10));
    assert(set_int_range(1, 10).contains(v));
    assert(s.to_set().contains(v));
    let k = choose|k: int| 0 <= k < 9 && s[k] == v;
    assert(cells[unit_cell(u, k)] == v);
    assert forall|k1: int, k2: int|
        0 <= k1 < 9 && 0 <= k2 < 9 && cells[unit_cell(u, k1)] == v && cells[unit_cell(u, k2)]
            == v implies k1 == k2 by {
        if k1 != k2 {
            assert(s[k1] != s[k2]);
        }
    }
}

/// A cell index splits into its column and row.
pub proof fn lemma_cell_of(c: int)
    requires
        0 <= c < 81,
    ensures
        cell(c / 9, c % 9) == c,
        0 <= c / 9 < 9,
        0 <= c % 9 < 9,
{
    lemma_fundamental_div_mod(c, 9);
}

/// Placing a digit that no peer holds keeps the board free of conflicts.
pub proof fn lemma_place_consistent(cells: Seq<u8>, c: int, v: u8)
    requires
        cells.len() == 81,
        consistent(cells),
        0 <= c < 81,
        1 <= v <= 9,
        !peer_holds(cells, c, v as int),
    ensures
        consistent(cells.update(c, v)),
{
    let n = cells.update(c, v);
    assert forall|a: int, b: int|
        0 <= a < 81 && 0 <= b < 81 && #[trigger] is_peer(a, b) && n[a] != 0 implies n[a]
        != n[b] by {
        if a == c {
            assert(!(is_peer(c, b) && cells[b] == v));
        } else if b == c {
            assert(is_peer(c, a));
            assert(!(is_peer(c, a) && cells[a] == v));
        } else {
            assert(cells[a] != 0);
        }
    }
}

/// Makes the forced placement of `v` into the empty cell `c`.
fn place(s: &mut Sudoku, c: usize, v: u8)
    requires
        old(s).wf(),
        consistent(old(s).cells()),
        c < 81,
        1 <= v <= 9,
        old(s).cells()[c as int] == 0,
        !peer_holds(old(s).cells(), c as int, v as int),
        forced(old(s).cells(), c as int, v as int),
    ensures
        final(s).wf(),
        consistent(final(s).cells()),
        final(s).cells() == old(s).cells().update(c as int, v),
        extends(final(s).cells(), old(s).cells()),
        num_empty(final(s).cells()) + 1 == num_empty(old(s).cells()),
        reaches(old(s).cells(), final(s).cells()),
{
    proof {
        lemma_reaches_step(s.cells(), c as int, v as int);
        lemma_cell_of(c as int);
        lemma_place_consistent(s.cells(), c as int, v);
        lemma_num_empty_update(s.cells(), c as int, v);
    }
    s.set((c / 9, c % 9), v);
}

/// The cells of row `y`, read through its walker.
fn row_cells(y: usize) -> (r: Vec<(usize, usize)>)
    requires
        y < 9,
    ensures
        r@ == row_positions(y as int, 0),
{
    let mut it = RowIter::at(y);
    let mut r: Vec<(usize, usize)> = Vec::new();
    while r.len() < 9
        invariant
            it.wf(),
            r@.len() <= 9,
            r@ + it.rest() == row_positions(y as int, 0),
        decreases 9 - r@.len(),
    {
        let ghost before = it.rest();
        assert(row_positions(y as int, 0).len() == 9);
        assert(before.len() == 9 - r@.len());
        let p = it.next().unwrap();
        r.push(p);
        assert(r@ + it.rest() =~= row_positions(y as int, 0));
    }
    assert(r@ =~= row_positions(y as int, 0));
    r
}

/// The cells of column `x`, read through its walker.
fn col_cells(x: usize) -> (r: Vec<(usize, usize)>)
    requires
        x < 9,
    ensures
        r@ == col_positions(x as int, 0),
{
    let mut it = ColIter::at(x);
    let mut r: Vec<(usize, usize)> = Vec::new();
    while r.len() < 9
        invariant
            it.wf(),
            r@.len() <= 9,
            r@ + it.rest() == col_positions(x as int, 0),
        decreases 9 - r@.len(),
    {
        let ghost before = it.rest();
        assert(col_positions(x as int, 0).len() == 9);
        assert(before.len() == 9 - r@.len());
        let p = it.next().unwrap();
        r.push(p);
        assert(r@ + it.rest() =~= col_positions(x as int, 0));
    }
    assert(r@ =~= col_positions(x as int, 0));
    r
}

/// The cells of the block at `(bx, by)`, read through its walker.
fn block_cells(bx: usize, by: usize) -> (r: Vec<(usize, usize)>)
    requires
        bx < 9,
        by < 9,
    ensures
        r@ == block_positions(bx / 3 * 3, by / 3 * 3, 0),
{
    let mut it = BlockIter::at(bx, by);
    let mut r: Vec<(usize, usize)> = Vec::new();
    while r.len() < 9
        invariant
            it.wf(),
            r@.len() <= 9,
            r@ + it.rest() == block_positions(bx / 3 * 3, by / 3 * 3, 0),
        decreases 9 - r@.len(),
    {
        let ghost before = it.rest();
        assert(block_positions(bx / 3 * 3, by / 3 * 3, 0).len() == 9);
        assert(before.len() == 9 - r@.len());
        let p = it.next().unwrap();
        r.push(p);
        assert(r@ + it.rest() =~= block_positions(bx / 3 * 3, by / 3 * 3, 0));
    }
    assert(r@ =~= block_positions(bx / 3 * 3, by / 3 * 3, 0));
    r
}

/// The positions of unit `u`, in the order of `unit_cell`.
fn unit_positions(u: usize) -> (r: Vec<(usize, usize)>)
    requires
        u < 27,
    ensures
        r@.len() == 9,
        forall|k: int|
            0 <= k < 9 ==> (#[trigger] r@[k]).0 < 9 && r@[k].1 < 9 && cell(r@[k].0 as int, r@[k].1 as int)
                == unit_cell(u as int, k),
{
    if u < 9 {
        row_cells(u)
    } else if u < 18 {
        col_cells(u - 9)
    } else {
        let b = u - 18;
        let bx = (b % 3) * 3;
        let by = (b / 3) * 3;
        assert(bx / 3 * 3 == bx && by / 3 * 3 == by);
        block_cells(bx, by)
    }
}

/// The only candidate of cell `c`, if it has exactly one.
fn only_possible(s: &Sudoku, c: usize) -> (r: Option<u8>)
    requires
        s.wf(),
        c < 81,
    ensures
        r is Some <==> count_digits(s.masks()[c as int], 1) == 1,
        r matches Some(v) ==> 1 <= v <= 9 && has_digit(s.masks()[c as int], v as u16),
{
    proof {
        lemma_cell_of(c as int);
    }
    let m = s.candidates_of((c / 9, c % 9));
    let mut num: u8 = 0;
    let mut d: u16 = 9;
    while d >= 1
        invariant
            0 <= d <= 9,
            s.wf(),
            c < 81,
            m == s.masks()[c as int],
            num == 0 ==> count_digits(m, d as int + 1) == 0,
            num != 0 ==> count_digits(m, d as int + 1) == 1 && d < num <= 9 && has_digit(
                m,
                num as u16,
            ),
        decreases d,
    {
        if (m >> d) & 1u16 == 1u16 {
            if num != 0 {
                proof {
                    assert(count_digits(m, d as int) == count_digits(m, d as int + 1) + 1);
                    lemma_count_digits_mono(m, 1, d as int);
                }
                return None;
            }
            num = d as u8;
        }
        d = d - 1;
    }
    if num != 0 {
        Some(num)
    } else {
        None
    }
}

proof fn lemma_count_digits_mono(m: u16, a: int, b: int)
    requires
        1 <= a <= b <= 10,
    ensures
        count_digits(m, a) >= count_digits(m, b),
    decreases b - a,
{
    if a < b {
        lemma_count_digits_mono(m, a + 1, b);
    }
}

/// One scan for naked singles: every empty cell with a single candidate
/// gets it, in index order.
fn naked_singles(s: &mut Sudoku) -> (r: Result<bool, ()>)
    requires
        old(s).wf(),
        consistent(old(s).cells()),
    ensures
        reaches(old(s).cells(), final(s).cells()),
        final(s).wf(),
        consistent(final(s).cells()),
        extends(final(s).cells(), old(s).cells()),
        num_empty(final(s).cells()) <= num_empty(old(s).cells()),
        r is Err ==> contradiction(final(s).cells(), final(s).masks()),
        r == Ok::<bool, ()>(false) ==> *final(s) == *old(s) && no_naked_single(
            final(s).cells(),
            final(s).masks(),
        ),
        r == Ok::<bool, ()>(true) ==> num_empty(final(s).cells()) < num_empty(old(s).cells()),
{
    let ghost start = *s;
    proof {
        lemma_reaches_refl(s.cells());
    }
    let mut change = false;
    let mut c: usize = 0;
    while c < 81
        invariant
            0 <= c <= 81,
            s.wf(),
            start == *old(s),
            consistent(s.cells()),
            reaches(start.cells(), s.cells()),
            extends(s.cells(), start.cells()),
            num_empty(s.cells()) <= num_empty(start.cells()),
            change ==> num_empty(s.cells()) < num_empty(start.cells()),
            !change ==> *s == start,
            !change ==> forall|i: int|
                0 <= i < c && start.cells()[i] == 0 ==> #[trigger] count_digits(
                    start.masks()[i],
                    1,
                ) >= 2,
        decreases 81 - c,
    {
        proof {
            lemma_cell_of(c as int);
        }
        let pos = (c / 9, c % 9);
        if s.get(pos) == 0 {
            let n = s.count_possible(pos);
            if n == 0 {
                return Err(());
            }
            match only_possible(s, c) {
                Some(v) => {
                    assert(has_digit(s.masks()[c as int], v as u16));
                    assert(mask_matches(s.cells(), s.masks(), c as int));
                    proof {
                        lemma_count_one(s.masks()[c as int], v as int);
                        assert forall|d: int| 1 <= d <= 9 && d != v implies #[trigger] peer_holds(
                            s.cells(),
                            c as int,
                            d,
                        ) by {
                            assert(!has_digit(s.masks()[c as int], d as u16));
                            lemma_fits_mask(*s, c as int, d);
                        }
                        lemma_fits_mask(*s, c as int, v as int);
                        assert(naked(s.cells(), c as int, v as int));
                    }
                    let ghost before = s.cells();
                    place(s, c, v);
                    proof {
                        lemma_reaches_trans(start.cells(), before, s.cells());
                    }
                    change = true;
                },
                None => {},
            }
        }
        c = c + 1;
    }
    Ok(change)
}

/// One scan of unit `u` for hidden singles: each digit that is not placed
/// there and fits exactly one of its cells goes into that cell.
fn check_in(s: &mut Sudoku, u: usize) -> (r: Result<bool, ()>)
    requires
        old(s).wf(),
        consistent(old(s).cells()),
        u < 27,
    ensures
        reaches(old(s).cells(), final(s).cells()),
        final(s).wf(),
        consistent(final(s).cells()),
        extends(final(s).cells(), old(s).cells()),
        num_empty(final(s).cells()) <= num_empty(old(s).cells()),
        r is Err ==> exists|v: int|
            1 <= v <= 9 && #[trigger] unit_blocked(final(s).cells(), final(s).masks(), u as int, v),
        r == Ok::<bool, ()>(false) ==> *final(s) == *old(s) && forall|v: int|
            1 <= v <= 9 ==> #[trigger] unit_settled(final(s).cells(), final(s).masks(), u as int, v),
        r == Ok::<bool, ()>(true) ==> num_empty(final(s).cells()) < num_empty(old(s).cells()),
{
    let ghost start = *s;
    proof {
        lemma_reaches_refl(s.cells());
    }
    let pos = unit_positions(u);
    let mut change = false;
    let mut v: u8 = 1;
    while v <= 9
        invariant
            1 <= v <= 10,
            u < 27,
            pos@.len() == 9,
            forall|k: int|
                0 <= k < 9 ==> (#[trigger] pos@[k]).0 < 9 && pos@[k].1 < 9 && cell(
                    pos@[k].0 as int,
                    pos@[k].1 as int,
                ) == unit_cell(u as int, k),
            s.wf(),
            start == *old(s),
            consistent(s.cells()),
            reaches(start.cells(), s.cells()),
            extends(s.cells(), start.cells()),
            num_empty(s.cells()) <= num_empty(start.cells()),
            change ==> num_empty(s.cells()) < num_empty(start.cells()),
            !change ==> *s == start,
            !change ==> forall|w: int|
                1 <= w < v ==> #[trigger] unit_settled(start.cells(), start.masks(), u as int, w),
        decreases 10 - v,
    {
        let mut placed = false;
        let mut count: usize = 0;
        let mut found: usize = 0;
        let ghost mut second: int = 0;
        let mut k: usize = 0;
        while k < 9
            invariant
                0 <= k <= 9,
                1 <= v <= 9,
                u < 27,
                pos@.len() == 9,
                forall|j: int|
                    0 <= j < 9 ==> (#[trigger] pos@[j]).0 < 9 && pos@[j].1 < 9 && cell(
                        pos@[j].0 as int,
                        pos@[j].1 as int,
                    ) == unit_cell(u as int, j),
                s.wf(),
                placed ==> unit_has(s.cells(), u as int, v as int),
                !placed ==> forall|j: int|
                    0 <= j < k ==> s.cells()[#[trigger] unit_cell(u as int, j)] != v,
                count <= 2,
                count >= 1 ==> found < k && open_at(s.cells(), s.masks(), u as int, found as int, v as int),
                count == 1 ==> forall|j: int|
                    0 <= j < k && j != found ==> !#[trigger] open_at(s.cells(), s.masks(), u as int, j, v as int),
                count == 0 ==> forall|j: int|
                    0 <= j < k ==> !#[trigger] open_at(s.cells(), s.masks(), u as int, j, v as int),
                count == 2 ==> 0 <= second < 9 && second != found && open_at(
                    s.cells(),
                    s.masks(),
                    u as int,
                    second,
                    v as int,
                ),
            decreases 9 - k,
        {
            let p = pos[k];
            let val = s.get(p);
            let ghost c = unit_cell(u as int, k as int);
            proof {
                lemma_unit_cells(u as int, k as int, k as int);
                assert(mask_matches(s.cells(), s.masks(), c));
            }
            if val == v {
                placed = true;
            } else if val == 0 && s.is_possible(p, v) {
                if count == 0 {
                    found = k;
                    count = 1;
                } else if count == 1 {
                    proof {
                        second = k as int;
                    }
                    count = 2;
                }
            }
            k = k + 1;
        }
        if !placed {
            if count == 0 {
                assert(unit_blocked(s.cells(), s.masks(), u as int, v as int));
                return Err(());
            } else if count == 1 {
                let p = pos[found];
                proof {
                    lemma_unit_cells(u as int, found as int, found as int);
                    lemma_cell_of(unit_cell(u as int, found as int));
                    assert(mask_matches(s.cells(), s.masks(), unit_cell(u as int, found as int)));
                    lemma_fits_mask(*s, unit_cell(u as int, found as int), v as int);
                    assert forall|j: int| 0 <= j < 9 && j != found implies !#[trigger] crate::deduce::fits(
                        s.cells(),
                        unit_cell(u as int, j),
                        v as int,
                    ) by {
                        lemma_unit_cells(u as int, j, j);
                        lemma_fits_mask(*s, unit_cell(u as int, j), v as int);
                        assert(!open_at(s.cells(), s.masks(), u as int, j, v as int));
                    }
                    assert(!unit_has(s.cells(), u as int, v as int));
                    assert(hidden(s.cells(), u as int, found as int, v as int));
                    assert(unit_cell(u as int, found as int) == (p.0 * 9 + p.1) as int);
                }
                let ghost before = s.cells();
                place(s, p.0 * 9 + p.1, v);
                proof {
                    lemma_reaches_trans(start.cells(), before, s.cells());
                }
                change = true;
            }
        }
        proof {
            if !change {
                assert(unit_settled(start.cells(), start.masks(), u as int, v as int));
            }
        }
        v = v + 1;
    }
    Ok(change)
}

/// One full pass: naked singles over the board, then hidden singles over
/// the rows, the columns and the blocks. `Ok(true)` if anything was placed.
pub fn update(s: &mut Sudoku) -> (r: Result<bool, ()>)
    requires
        old(s).wf(),
        consistent(old(s).cells()),
    ensures
        reaches(old(s).cells(), final(s).cells()),
        final(s).wf(),
        consistent(final(s).cells()),
        extends(final(s).cells(), old(s).cells()),
        num_empty(final(s).cells()) <= num_empty(old(s).cells()),
        r is Err ==> contradiction(final(s).cells(), final(s).masks()),
        r == Ok::<bool, ()>(false) ==> {
            &&& *final(s) == *old(s)
            &&& no_naked_single(final(s).cells(), final(s).masks())
            &&& no_hidden_single(final(s).cells(), final(s).masks())
        },
        r == Ok::<bool, ()>(true) ==> num_empty(final(s).cells()) < num_empty(old(s).cells()),
{
    let ghost start = *s;
    proof {
        lemma_reaches_refl(s.cells());
    }
    let mut change = match naked_singles(s) {
        Err(()) => return Err(()),
        Ok(c) => c,
    };
    proof {
        lemma_reaches_trans(start.cells(), start.cells(), s.cells());
    }
    let mut u: usize = 0;
    while u < 27
        invariant
            0 <= u <= 27,
            s.wf(),
            start == *old(s),
            consistent(s.cells()),
            reaches(start.cells(), s.cells()),
            extends(s.cells(), start.cells()),
            num_empty(s.cells()) <= num_empty(start.cells()),
            change ==> num_empty(s.cells()) < num_empty(start.cells()),
            !change ==> *s == start && no_naked_single(start.cells(), start.masks()),
            !change ==> forall|w: int, v: int|
                0 <= w < u && 1 <= v <= 9 ==> #[trigger] unit_settled(
                    start.cells(),
                    start.masks(),
                    w,
                    v,
                ),
        decreases 27 - u,
    {
        let ghost before = s.cells();
        let r = check_in(s, u);
        proof {
            lemma_reaches_trans(start.cells(), before, s.cells());
        }
        match r {
            Err(()) => {
                return Err(());
            },
            Ok(c) => {
                change = change || c;
            },
        }
        u = u + 1;
    }
    Ok(change)
}

/// A contradiction never shows on a full board without conflicts.
proof fn lemma_full_no_contradiction(cells: Seq<u8>, masks: Seq<u16>)
    requires
        cells.len() == 81,
        forall|i: int| 0 <= i < 81 ==> #[trigger] cells[i] <= 9,
        consistent(cells),
        contradiction(cells, masks),
    ensures
        !is_full(cells),
{
    if is_full(cells) {
        if exists|u: int, v: int| 0 <= u < 27 && 1 <= v <= 9 && #[trigger] unit_blocked(cells, masks, u, v) {
            let (u, v) = choose|u: int, v: int|
                0 <= u < 27 && 1 <= v <= 9 && #[trigger] unit_blocked(cells, masks, u, v);
            lemma_full_unit(cells, u, v);
        } else {
            let c = choose|c: int| 0 <= c < 81 && cells[c] == 0 && #[trigger] count_digits(masks[c], 1) == 0;
            assert(cells[c] != 0);
        }
    }
}

/// Where propagation stopped.
pub enum StepResult {
    /// Every cell is filled.
    Solved,
    /// Cells are left, and no naked or hidden single.
    NeedsGuess,
    /// A cell or a unit has no way left to be filled.
    Impossible,
}

/// Propagates without guessing until nothing more follows.
pub fn propagate(s: &mut Sudoku) -> (r: StepResult)
    requires
        old(s).wf(),
        consistent(old(s).cells()),
    ensures
        final(s).wf(),
        consistent(final(s).cells()),
        extends(final(s).cells(), old(s).cells()),
        num_empty(final(s).cells()) <= num_empty(old(s).cells()),
        reaches(old(s).cells(), final(s).cells()),
        (r is Solved) == is_full(final(s).cells()),
        (r is Solved) == solvable_without_guessing(old(s).cells()),
        r is Impossible ==> contradiction(final(s).cells(), final(s).masks()),
        !(r is Impossible) ==> stable(*final(s)),
{
    proof {
        lemma_reaches_refl(s.cells());
    }
    loop
        invariant
            s.wf(),
            consistent(s.cells()),
            extends(s.cells(), old(s).cells()),
            num_empty(s.cells()) <= num_empty(old(s).cells()),
            reaches(old(s).cells(), s.cells()),
            consistent(old(s).cells()),
            cells_ok(old(s).cells()),
        decreases num_empty(s.cells()),
    {
        let ghost before = s.cells();
        let r = update(s);
        proof {
            lemma_reaches_trans(old(s).cells(), before, s.cells());
        }
        match r {
            Err(()) => {
                proof {
                    lemma_full_no_contradiction(s.cells(), s.masks());
                    lemma_stuck_not_solvable(old(s).cells(), *s);
                }
                return StepResult::Impossible;
            },
            Ok(true) => {},
            Ok(false) => {
                let n = s.count_remaining();
                proof {
                    lemma_num_empty_zero(s.cells());
                }
                if n == 0 {
                    proof {
                        lemma_full_stable(*s);
                        lemma_full_solvable(old(s).cells(), s.cells());
                    }
                    return StepResult::Solved;
                } else {
                    proof {
                        lemma_stuck_not_solvable(old(s).cells(), *s);
                    }
                    return StepResult::NeedsGuess;
                }
            },
        }
    }
}

/// Propagates without guessing; whether the board came out full. If not,
/// propagation found a contradiction or stalled with no naked and no hidden
/// single left.
pub fn solve_non_guessing(s: &mut Sudoku) -> (r: bool)
    requires
        old(s).wf(),
        consistent(old(s).cells()),
    ensures
        final(s).wf(),
        consistent(final(s).cells()),
        extends(final(s).cells(), old(s).cells()),
        reaches(old(s).cells(), final(s).cells()),
        r == is_full(final(s).cells()),
        r == solvable_without_guessing(old(s).cells()),
        !r ==> contradiction(final(s).cells(), final(s).masks()) || stable(*final(s)),
{
    let r = propagate(s);
    matches!(r, StepResult::Solved)
}

/// Whether no two peers hold the same digit.
pub fn is_consistent(s: &Sudoku) -> (r: bool)
    requires
        s.wf(),
    ensures
        r == consistent(s.cells()),
{
    let mut a: usize = 0;
    while a < 81
        invariant
            0 <= a <= 81,
            s.wf(),
            forall|x: int, y: int|
                0 <= x < a && 0 <= y < 81 && #[trigger] is_peer(x, y) && s.cells()[x] != 0
                    ==> s.cells()[x] != s.cells()[y],
        decreases 81 - a,
    {
        proof {
            lemma_cell_of(a as int);
        }
        let va = s.get((a / 9, a % 9));
        let mut b: usize = 0;
        while b < 81
            invariant
                0 <= b <= 81,
                a < 81,
                s.wf(),
                va == s.cells()[a as int],
                forall|y: int|
                    0 <= y < b && #[trigger] is_peer(a as int, y) && s.cells()[a as int] != 0
                        ==> s.cells()[a as int] != s.cells()[y],
            decreases 81 - b,
        {
            proof {
                lemma_cell_of(b as int);
            }
            let peer = b != a && (b / 9 == a / 9 || b % 9 == a % 9 || (b / 27 == a / 27 && (b % 9)
                / 3 == (a % 9) / 3));
            if peer && va != 0 && va == s.get((b / 9, b % 9)) {
                assert(is_peer(a as int, b as int));
                return false;
            }
            b = b + 1;
        }
        a = a + 1;
    }
    true
}

} // verus!
