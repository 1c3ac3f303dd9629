//! The 9x9 board: placed digits and, for every cell, the set of digits that no
//! peer holds, kept as a bitmask (bit `d` for digit `d`).
use vstd::prelude::*;

verus! {

/// Every digit possible: bits 1 to 9.
pub const ALL_POSSIBLE: u16 = 0x3FE;

/// The bits that never stand for a digit: bit 0 and bits 10 to 15.
pub const NOT_DIGITS: u16 = 0xFC01;

/// Index of the cell in column `x`, row `y`.
pub open spec fn cell(x: int, y: int) -> int {
    x * 9 + y
}

/// Cells `a` and `b` (indices in `0..81`) share a column, a row or a block.
pub open spec fn same_unit(a: int, b: int) -> bool {
    ||| a / 9 == b / 9
    ||| a % 9 == b % 9
    ||| (a / 27 == b / 27 && (a % 9) / 3 == (b % 9) / 3)
}

/// `b` is one of the 20 peers of `a`.
pub open spec fn is_peer(a: int, b: int) -> bool {
    a != b && same_unit(a, b)
}

/// Some peer of cell `c` holds digit `d`.
pub open spec fn peer_holds(cells: Seq<u8>, c: int, d: int) -> bool {
    exists|q: int| 0 <= q < 81 && is_peer(c, q) && cells[q] == d
}

/// Bit `d` of `mask` is set.
pub open spec fn has_digit(mask: u16, d: u16) -> bool {
    (mask >> d) & 1u16 == 1u16
}

/// The mask of cell `c` holds exactly the digits that no peer of `c` holds.
pub open spec fn mask_matches(cells: Seq<u8>, masks: Seq<u16>, c: int) -> bool {
    &&& masks[c] & NOT_DIGITS == 0
    &&& forall|d: u16|
        1 <= d <= 9 ==> (#[trigger] has_digit(masks[c], d) <==> !peer_holds(cells, c, d as int))
}

/// 81 cells holding 0 (empty) or a digit, each mask in step with them.
pub open spec fn valid_state(cells: Seq<u8>, masks: Seq<u16>) -> bool {
    &&& cells.len() == 81
    &&& masks.len() == 81
    &&& forall|i: int| 0 <= i < 81 ==> #[trigger] cells[i] <= 9
    &&& forall|c: int| 0 <= c < 81 ==> #[trigger] mask_matches(cells, masks, c)
}

/// Some peer of cell `c` among the first `n` cells holds digit `d`.
pub open spec fn held_before(cells: Seq<u8>, c: int, d: int, n: int) -> bool {
    exists|r: int| 0 <= r < n && is_peer(c, r) && cells[r] == d
}

proof fn lemma_held_step(cells: Seq<u8>, c: int, d: int, q: int)
    requires
        0 <= q,
    ensures
        held_before(cells, c, d, q + 1) == (held_before(cells, c, d, q) || (is_peer(c, q)
            && cells[q] == d)),
{
    if held_before(cells, c, d, q + 1) {
        let r = choose|r: int| 0 <= r < q + 1 && is_peer(c, r) && cells[r] == d;
        if r < q {
            assert(held_before(cells, c, d, q));
        }
    }
    if held_before(cells, c, d, q) {
        let r = choose|r: int| 0 <= r < q && is_peer(c, r) && cells[r] == d;
        assert(0 <= r < q + 1 && is_peer(c, r) && cells[r] == d);
    }
    if is_peer(c, q) && cells[q] == d {
        assert(0 <= q < q + 1 && is_peer(c, q) && cells[q] == d);
    }
}

/// Number of empty cells.
pub open spec fn num_empty(s: Seq<u8>) -> nat
    decreases s.len(),
{
    if s.len() == 0 {
        0
    } else {
        num_empty(s.drop_last()) + if s.last() == 0 {
            1nat
        } else {
            0nat
        }
    }
}

/// Digits `d` in `from..=9` whose bit is set in `mask`.
pub open spec fn count_digits(mask: u16, from: int) -> nat
    decreases 10 - from,
{
    if from > 9 || from < 1 {
        0
    } else {
        count_digits(mask, from + 1) + if has_digit(mask, from as u16) {
            1nat
        } else {
            0nat
        }
    }
}

/// The peers of cell `c` among the first `n` cells whose mask had bit `v`,
/// as positions, in index order.
pub open spec fn cleared_peers(masks: Seq<u16>, c: int, v: u16, n: int) -> Seq<(usize, usize)>
    decreases n,
{
    if n <= 0 {
        Seq::empty()
    } else if is_peer(c, n - 1) && has_digit(masks[n - 1], v) {
        cleared_peers(masks, c, v, n - 1).push((((n - 1) / 9) as usize, ((n - 1) % 9) as usize))
    } else {
        cleared_peers(masks, c, v, n - 1)
    }
}

proof fn lemma_clear_bit(m: u16, v: u16, d: u16)
    requires
        v < 16,
        d < 16,
    ensures
        has_digit(m & !(1u16 << v), d) == (has_digit(m, d) && d != v),
        m & NOT_DIGITS == 0 ==> (m & !(1u16 << v)) & NOT_DIGITS == 0,
{
    assert(((m & !(1u16 << v)) >> d) & 1u16 == 1u16 <==> (((m >> d) & 1u16 == 1u16) && d != v))
        by (bit_vector)
        requires
            v < 16,
            d < 16,
    ;
    assert(m & 0xFC01u16 == 0 ==> (m & !(1u16 << v)) & 0xFC01u16 == 0) by (bit_vector);
}

proof fn lemma_set_bit(m: u16, v: u16, d: u16)
    requires
        1 <= v <= 9,
        d < 16,
    ensures
        has_digit(m | (1u16 << v), d) == (has_digit(m, d) || d == v),
        m & NOT_DIGITS == 0 ==> (m | (1u16 << v)) & NOT_DIGITS == 0,
{
    assert(((m | (1u16 << v)) >> d) & 1u16 == 1u16 <==> (((m >> d) & 1u16 == 1u16) || d == v))
        by (bit_vector)
        requires
            v < 16,
            d < 16,
    ;
    assert(m & 0xFC01u16 == 0 ==> (m | (1u16 << v)) & 0xFC01u16 == 0) by (bit_vector)
        requires
            1 <= v <= 9,
    ;
}

proof fn lemma_all_possible(d: u16)
    requires
        1 <= d <= 9,
    ensures
        has_digit(ALL_POSSIBLE, d),
        ALL_POSSIBLE & NOT_DIGITS == 0,
{
    assert((0x3FEu16 >> d) & 1u16 == 1u16) by (bit_vector)
        requires
            1 <= d <= 9,
    ;
    assert(0x3FEu16 & 0xFC01u16 == 0) by (bit_vector);
}

/// Two masks with no bits outside the digits and the same digits are equal.
proof fn lemma_mask_ext(a: u16, b: u16)
    requires
        a & NOT_DIGITS == 0,
        b & NOT_DIGITS == 0,
        forall|d: u16| 1 <= d <= 9 ==> has_digit(a, d) == has_digit(b, d),
    ensures
        a == b,
{
    assert(has_digit(a, 1) == has_digit(b, 1));
    assert(has_digit(a, 2) == has_digit(b, 2));
    assert(has_digit(a, 3) == has_digit(b, 3));
    assert(has_digit(a, 4) == has_digit(b, 4));
    assert(has_digit(a, 5) == has_digit(b, 5));
    assert(has_digit(a, 6) == has_digit(b, 6));
    assert(has_digit(a, 7) == has_digit(b, 7));
    assert(has_digit(a, 8) == has_digit(b, 8));
    assert(has_digit(a, 9) == has_digit(b, 9));
    assert(a == b) by (bit_vector)
        requires
            a & 0xFC01u16 == 0,
            b & 0xFC01u16 == 0,
            ((a >> 1u16) & 1u16 == 1u16) == ((b >> 1u16) & 1u16 == 1u16),
            ((a >> 2u16) & 1u16 == 1u16) == ((b >> 2u16) & 1u16 == 1u16),
            ((a >> 3u16) & 1u16 == 1u16) == ((b >> 3u16) & 1u16 == 1u16),
            ((a >> 4u16) & 1u16 == 1u16) == ((b >> 4u16) & 1u16 == 1u16),
            ((a >> 5u16) & 1u16 == 1u16) == ((b >> 5u16) & 1u16 == 1u16),
            ((a >> 6u16) & 1u16 == 1u16) == ((b >> 6u16) & 1u16 == 1u16),
            ((a >> 7u16) & 1u16 == 1u16) == ((b >> 7u16) & 1u16 == 1u16),
            ((a >> 8u16) & 1u16 == 1u16) == ((b >> 8u16) & 1u16 == 1u16),
            ((a >> 9u16) & 1u16 == 1u16) == ((b >> 9u16) & 1u16 == 1u16),
    ;
}

/// Writing `w` into cell `c` leaves "some peer of `q` holds `d`" as it was,
/// unless `c` is a peer of `q` and the old or the new value is `d`.
proof fn lemma_peer_holds_frame(cells: Seq<u8>, c: int, w: u8, q: int, d: int)
    requires
        cells.len() == 81,
        0 <= c < 81,
        0 <= q < 81,
        !is_peer(q, c) || (w != d && cells[c] != d),
    ensures
        peer_holds(cells.update(c, w), q, d) == peer_holds(cells, q, d),
{
    let nc = cells.update(c, w);
    if peer_holds(nc, q, d) {
        let r = choose|r: int| 0 <= r < 81 && is_peer(q, r) && nc[r] == d;
        assert(r != c);
        assert(cells[r] == d);
    }
    if peer_holds(cells, q, d) {
        let r = choose|r: int| 0 <= r < 81 && is_peer(q, r) && cells[r] == d;
        assert(r != c);
        assert(nc[r] == d);
    }
}

/// How writing `w` into cell `i` changes the number of empty cells.
pub proof fn lemma_num_empty_update(s: Seq<u8>, i: int, w: u8)
    requires
        0 <= i < s.len(),
    ensures
        num_empty(s.update(i, w)) + (if s[i] == 0 {
            1int
        } else {
            0int
        }) == num_empty(s) + (if w == 0 {
            1int
        } else {
            0int
        }),
    decreases s.len(),
{
    let t = s.update(i, w);
    if i == s.len() - 1 {
        assert(t.drop_last() =~= s.drop_last());
    } else {
        assert(t.drop_last() =~= s.drop_last().update(i, w));
        lemma_num_empty_update(s.drop_last(), i, w);
    }
}

/// No cell is empty exactly when the count of empty cells is zero.
pub proof fn lemma_num_empty_zero(s: Seq<u8>)
    ensures
        (num_empty(s) == 0) == (forall|i: int| 0 <= i < s.len() ==> s[i] != 0),
    decreases s.len(),
{
    if s.len() > 0 {
        lemma_num_empty_zero(s.drop_last());
        if num_empty(s) == 0 {
            assert forall|i: int| 0 <= i < s.len() implies s[i] != 0 by {
                if i < s.len() - 1 {
                    assert(s[i] == s.drop_last()[i]);
                }
            }
        }
        if forall|i: int| 0 <= i < s.len() ==> s[i] != 0 {
            assert forall|i: int| 0 <= i < s.len() - 1 implies s.drop_last()[i] != 0 by {
                assert(s[i] != 0);
            }
        }
    }
}

/// The board: digits placed (0 for empty) and the candidate mask of every cell.
#[derive(Clone, Copy)]
pub struct Sudoku {
    board: [u8; 81],
    possible: [u16; 81],
}

impl Sudoku {
    /// The digits, cell `x * 9 + y` for column `x` and row `y`.
    pub closed spec fn cells(&self) -> Seq<u8> {
        self.board@
    }

    /// The candidate masks, indexed as `cells`.
    pub closed spec fn masks(&self) -> Seq<u16> {
        self.possible@
    }

    pub open spec fn wf(&self) -> bool {
        valid_state(self.cells(), self.masks())
    }

    /// A board is determined by its digits: the masks follow from them.
    pub proof fn lemma_determined(a: Sudoku, b: Sudoku)
        requires
            a.wf(),
            b.wf(),
            a.cells() == b.cells(),
        ensures
            a == b,
    {
        assert forall|c: int| 0 <= c < 81 implies a.masks()[c] == b.masks()[c] by {
            assert(mask_matches(a.cells(), a.masks(), c));
            assert(mask_matches(b.cells(), b.masks(), c));
            lemma_mask_ext(a.masks()[c], b.masks()[c]);
        }
        assert(a.board =~= b.board);
        assert(a.possible =~= b.possible);
    }

    /// The empty board: every digit possible everywhere.
    pub fn new() -> (r: Sudoku)
        ensures
            r.wf(),
            r.cells() == Seq::new(81, |i: int| 0u8),
    {
        let r = Sudoku { board: [0u8; 81], possible: [ALL_POSSIBLE; 81] };
        assert(r.cells() =~= Seq::new(81, |i: int| 0u8));
        assert forall|c: int| 0 <= c < 81 implies mask_matches(r.cells(), r.masks(), c) by {
            assert forall|d: u16| 1 <= d <= 9 implies (#[trigger] has_digit(r.masks()[c], d)
                <==> !peer_holds(r.cells(), c, d as int)) by {
                lemma_all_possible(d);
            }
            lemma_all_possible(1);
        }
        r
    }

    /// A board holding `digits` (cell `x * 9 + y` for column `x`, row `y`;
    /// 0 for empty), with every mask worked out from them. Peers may hold the
    /// same digit: nothing is checked.
    pub fn from_digits(digits: [u8; 81]) -> (r: Sudoku)
        requires
            forall|i: int| 0 <= i < 81 ==> #[trigger] digits@[i] <= 9,
        ensures
            r.wf(),
            r.cells() == digits@,
    {
        let mut r = Sudoku { board: digits, possible: [ALL_POSSIBLE; 81] };
        r.refresh_possible();
        r
    }

    /// Works out every mask again from the digits.
    fn refresh_possible(&mut self)
        requires
            forall|i: int| 0 <= i < 81 ==> #[trigger] old(self).cells()[i] <= 9,
        ensures
            final(self).wf(),
            final(self).cells() == old(self).cells(),
    {
        let mut c: usize = 0;
        while c < 81
            invariant
                0 <= c <= 81,
                self.cells() == old(self).cells(),
                self.masks().len() == 81,
                forall|i: int| 0 <= i < 81 ==> #[trigger] self.cells()[i] <= 9,
                forall|i: int| 0 <= i < c ==> #[trigger] mask_matches(self.cells(), self.masks(), i),
            decreases 81 - c,
        {
            let mut m: u16 = ALL_POSSIBLE;
            let mut q: usize = 0;
            proof {
                assert forall|d: u16| 1 <= d <= 9 implies #[trigger] has_digit(m, d) by {
                    lemma_all_possible(d);
                }
                lemma_all_possible(1);
            }
            while q < 81
                invariant
                    0 <= q <= 81,
                    c < 81,
                    self.cells().len() == 81,
                    forall|i: int| 0 <= i < 81 ==> #[trigger] self.cells()[i] <= 9,
                    m & NOT_DIGITS == 0,
                    forall|d: u16|
                        1 <= d <= 9 ==> (#[trigger] has_digit(m, d) <==> !held_before(
                            self.cells(),
                            c as int,
                            d as int,
                            q as int,
                        )),
                decreases 81 - q,
            {
                let peer = q != c && (q / 9 == c / 9 || q % 9 == c % 9 || (q / 27 == c / 27 && (q
                    % 9) / 3 == (c % 9) / 3));
                let d = self.board[q];
                let ghost m0 = m;
                if peer && d != 0 {
                    m = m & !(1u16 << (d as u16));
                }
                proof {
                    assert forall|e: u16| 1 <= e <= 9 implies (#[trigger] has_digit(m, e) <==> !held_before(
                        self.cells(),
                        c as int,
                        e as int,
                        q + 1,
                    )) by {
                        if peer && d != 0 {
                            lemma_clear_bit(m0, d as u16, e);
                        }
                        lemma_held_step(self.cells(), c as int, e as int, q as int);
                    }
                    if peer && d != 0 {
                        lemma_clear_bit(m0, d as u16, 1);
                    }
                }
                q = q + 1;
            }
            let ghost masks0 = self.masks();
            self.possible[c] = m;
            proof {
                assert forall|d: u16| 1 <= d <= 9 implies held_before(self.cells(), c as int, d as int, 81)
                    == peer_holds(self.cells(), c as int, d as int) by {}
                assert forall|i: int| 0 <= i < c + 1 implies #[trigger] mask_matches(
                    self.cells(),
                    self.masks(),
                    i,
                ) by {
                    if i < c {
                        assert(mask_matches(self.cells(), masks0, i));
                        assert(self.masks()[i] == masks0[i]);
                    }
                }
            }
            c = c + 1;
        }
    }

    /// The digit at `(x, y)`, 0 if the cell is empty.
    pub fn get(&self, pos: (usize, usize)) -> (r: u8)
        requires
            self.wf(),
            pos.0 < 9,
            pos.1 < 9,
        ensures
            r == self.cells()[cell(pos.0 as int, pos.1 as int)],
    {
        self.board[pos.0 * 9 + pos.1]
    }

    /// The candidate mask of `(x, y)`.
    pub fn candidates_of(&self, pos: (usize, usize)) -> (r: u16)
        requires
            self.wf(),
            pos.0 < 9,
            pos.1 < 9,
        ensures
            r == self.masks()[cell(pos.0 as int, pos.1 as int)],
            r & NOT_DIGITS == 0,
            forall|d: u16|
                1 <= d <= 9 ==> (#[trigger] has_digit(r, d) <==> !peer_holds(
                    self.cells(),
                    cell(pos.0 as int, pos.1 as int),
                    d as int,
                )),
    {
        let c = pos.0 * 9 + pos.1;
        assert(mask_matches(self.cells(), self.masks(), c as int));
        self.possible[c]
    }

    /// Whether no peer of `(x, y)` holds `val` (never for 0).
    pub fn is_possible(&self, pos: (usize, usize), val: u8) -> (r: bool)
        requires
            self.wf(),
            pos.0 < 9,
            pos.1 < 9,
            val <= 9,
        ensures
            r == (val >= 1 && !peer_holds(self.cells(), cell(pos.0 as int, pos.1 as int), val as int)),
    {
        let m = self.candidates_of(pos);
        let v = val as u16;
        let r = (m >> v) & 1u16 == 1u16;
        proof {
            if val == 0 {
                assert(m & 0xFC01u16 == 0 ==> (m >> 0u16) & 1u16 == 0u16) by (bit_vector);
            } else {
                assert(has_digit(m, v) == r);
            }
        }
        r
    }

    /// How many digits are still possible at `(x, y)`.
    pub fn count_possible(&self, pos: (usize, usize)) -> (r: u32)
        requires
            self.wf(),
            pos.0 < 9,
            pos.1 < 9,
        ensures
            r == count_digits(self.masks()[cell(pos.0 as int, pos.1 as int)], 1),
            r <= 9,
    {
        let m = self.candidates_of(pos);
        let mut n: u32 = 0;
        let mut d: u16 = 9;
        while d >= 1
            invariant
                0 <= d <= 9,
                n == count_digits(m, d as int + 1),
                n <= 9 - d,
            decreases d,
        {
            if (m >> d) & 1u16 == 1u16 {
                n = n + 1;
            }
            d = d - 1;
        }
        n
    }

    /// Places `value` at `(x, y)` and takes it from the candidates of every
    /// peer; appends to `changes` the peers whose mask lost it, in index order.
    pub fn set_tracking(&mut self, pos: (usize, usize), value: u8, changes: &mut Vec<(usize, usize)>)
        requires
            old(self).wf(),
            pos.0 < 9,
            pos.1 < 9,
            1 <= value <= 9,
            old(self).cells()[cell(pos.0 as int, pos.1 as int)] == 0,
        ensures
            final(self).wf(),
            final(self).cells() == old(self).cells().update(
                cell(pos.0 as int, pos.1 as int),
                value,
            ),
            final(changes)@ == old(changes)@ + cleared_peers(
                old(self).masks(),
                cell(pos.0 as int, pos.1 as int),
                value as u16,
                81,
            ),
    {
        let c = pos.0 * 9 + pos.1;
        let v = value as u16;
        let ghost cells0 = self.cells();
        let ghost masks0 = self.masks();
        self.board[c] = value;
        let mut p: usize = 0;
        while p < 81
            invariant
                0 <= p <= 81,
                c < 81,
                1 <= v <= 9,
                v == value as u16,
                self.cells() == cells0.update(c as int, value),
                self.masks().len() == 81,
                forall|q: int|
                    0 <= q < 81 ==> #[trigger] self.masks()[q] == if q < p && is_peer(
                        c as int,
                        q,
                    ) {
                        masks0[q] & !(1u16 << v)
                    } else {
                        masks0[q]
                    },
                changes@ == old(changes)@ + cleared_peers(masks0, c as int, v, p as int),
            decreases 81 - p,
        {
            let peer = p != c && (p / 9 == c / 9 || p % 9 == c % 9 || (p / 27 == c / 27 && (p % 9)
                / 3 == (c % 9) / 3));
            if peer {
                let m = self.possible[p];
                if (m >> v) & 1u16 == 1u16 {
                    changes.push((p / 9, p % 9));
                }
                self.possible[p] = m & !(1u16 << v);
            }
            p = p + 1;
        }
        proof {
            assert forall|q: int| 0 <= q < 81 implies mask_matches(
                self.cells(),
                self.masks(),
                q,
            ) by {
                assert(mask_matches(cells0, masks0, q));
                assert forall|d: u16| 1 <= d <= 9 implies (#[trigger] has_digit(
                    self.masks()[q],
                    d,
                ) <==> !peer_holds(self.cells(), q, d as int)) by {
                    if is_peer(c as int, q) {
                        lemma_clear_bit(masks0[q], v, d);
                        if d == v {
                            assert(is_peer(q, c as int));
                            assert(self.cells()[c as int] == d);
                        } else {
                            lemma_peer_holds_frame(cells0, c as int, value, q, d as int);
                        }
                    } else {
                        lemma_peer_holds_frame(cells0, c as int, value, q, d as int);
                    }
                }
                if is_peer(c as int, q) {
                    lemma_clear_bit(masks0[q], v, 1);
                }
            }
        }
    }

    /// Places `value` at `(x, y)` and takes it from the candidates of every peer.
    pub fn set(&mut self, pos: (usize, usize), value: u8)
        requires
            old(self).wf(),
            pos.0 < 9,
            pos.1 < 9,
            1 <= value <= 9,
            old(self).cells()[cell(pos.0 as int, pos.1 as int)] == 0,
        ensures
            final(self).wf(),
            final(self).cells() == old(self).cells().update(
                cell(pos.0 as int, pos.1 as int),
                value,
            ),
    {
        let mut changes: Vec<(usize, usize)> = Vec::new();
        self.set_tracking(pos, value, &mut changes);
    }

    /// Whether some peer of cell `p` holds `v`.
    fn peer_holds_at(&self, p: usize, v: u8) -> (r: bool)
        requires
            p < 81,
            self.cells().len() == 81,
        ensures
            r == peer_holds(self.cells(), p as int, v as int),
    {
        let mut q: usize = 0;
        while q < 81
            invariant
                0 <= q <= 81,
                p < 81,
                self.cells().len() == 81,
                forall|r: int|
                    0 <= r < q ==> !(is_peer(p as int, r) && #[trigger] self.cells()[r] == v),
            decreases 81 - q,
        {
            let peer = q != p && (q / 9 == p / 9 || q % 9 == p % 9 || (q / 27 == p / 27 && (q % 9)
                / 3 == (p % 9) / 3));
            if peer && self.board[q] == v {
                assert(is_peer(p as int, q as int) && self.cells()[q as int] == v);
                return true;
            }
            q = q + 1;
        }
        false
    }

    /// Empties `(x, y)`. Each peer gets the removed digit back as a candidate
    /// unless one of its own peers still holds it.
    pub fn unset(&mut self, pos: (usize, usize))
        requires
            old(self).wf(),
            pos.0 < 9,
            pos.1 < 9,
            old(self).cells()[cell(pos.0 as int, pos.1 as int)] != 0,
        ensures
            final(self).wf(),
            final(self).cells() == old(self).cells().update(cell(pos.0 as int, pos.1 as int), 0),
    {
        let c = pos.0 * 9 + pos.1;
        let value = self.board[c];
        let v = value as u16;
        let ghost cells0 = self.cells();
        let ghost masks0 = self.masks();
        self.board[c] = 0;
        let ghost cells1 = self.cells();
        assert(cells1 == cells0.update(c as int, 0));
        let mut p: usize = 0;
        while p < 81
            invariant
                0 <= p <= 81,
                c < 81,
                1 <= v <= 9,
                v == value as u16,
                self.cells() == cells1,
                cells1.len() == 81,
                self.masks().len() == 81,
                forall|q: int|
                    0 <= q < 81 ==> #[trigger] self.masks()[q] == if q < p && is_peer(
                        c as int,
                        q,
                    ) && !peer_holds(cells1, q, v as int) {
                        masks0[q] | (1u16 << v)
                    } else {
                        masks0[q]
                    },
            decreases 81 - p,
        {
            let peer = p != c && (p / 9 == c / 9 || p % 9 == c % 9 || (p / 27 == c / 27 && (p % 9)
                / 3 == (c % 9) / 3));
            if peer {
                if !self.peer_holds_at(p, value) {
                    self.possible[p] = self.possible[p] | (1u16 << v);
                }
            }
            p = p + 1;
        }
        proof {
            assert forall|q: int| 0 <= q < 81 implies mask_matches(
                self.cells(),
                self.masks(),
                q,
            ) by {
                assert(mask_matches(cells0, masks0, q));
                assert forall|d: u16| 1 <= d <= 9 implies (#[trigger] has_digit(
                    self.masks()[q],
                    d,
                ) <==> !peer_holds(self.cells(), q, d as int)) by {
                    if is_peer(c as int, q) && !peer_holds(cells1, q, v as int) {
                        lemma_set_bit(masks0[q], v, d);
                        if d != v {
                            lemma_peer_holds_frame(cells0, c as int, 0, q, d as int);
                        }
                    } else if is_peer(c as int, q) && d == v {
                        assert(is_peer(q, c as int) && cells0[c as int] == d);
                        assert(peer_holds(cells0, q, d as int));
                    } else {
                        lemma_peer_holds_frame(cells0, c as int, 0, q, d as int);
                    }
                }
                if is_peer(c as int, q) && !peer_holds(cells1, q, v as int) {
                    lemma_set_bit(masks0[q], v, 1);
                }
            }
        }
    }

    /// Number of empty cells.
    pub fn count_remaining(&self) -> (r: usize)
        requires
            self.wf(),
        ensures
            r == num_empty(self.cells()),
    {
        let mut n: usize = 0;
        let mut i: usize = 0;
        while i < 81
            invariant
                0 <= i <= 81,
                self.cells().len() == 81,
                n == num_empty(self.cells().subrange(0, i as int)),
                n <= i,
            decreases 81 - i,
        {
            assert(self.cells().subrange(0, i as int + 1).drop_last() =~= self.cells().subrange(
                0,
                i as int,
            ));
            if self.board[i] == 0 {
                n = n + 1;
            }
            i = i + 1;
        }
        assert(self.cells().subrange(0, 81) =~= self.cells());
        n
    }
}

/// Placing a digit in an empty cell and emptying that cell again gives back
/// the board as it was, every candidate mask included.
pub proof fn place_then_unplace_restores(
    before: Sudoku,
    placed: Sudoku,
    after: Sudoku,
    x: int,
    y: int,
    v: u8,
)
    requires
        0 <= x < 9,
        0 <= y < 9,
        1 <= v <= 9,
        before.wf(),
        before.cells()[cell(x, y)] == 0,
        placed.wf(),
        placed.cells() == before.cells().update(cell(x, y), v),
        after.wf(),
        after.cells() == placed.cells().update(cell(x, y), 0),
    ensures
        after == before,
        after.masks() == before.masks(),
{
    assert(after.cells() =~= before.cells());
    Sudoku::lemma_determined(after, before);
}

} // verus!
