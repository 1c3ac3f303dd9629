//! Walks over the cells of a row, a column, a 3x3 block, and the peers of a
//! cell. Positions are `(x, y)` pairs: `x` is the column, `y` the row.
use vstd::prelude::*;

verus! {

/// The positions `(x, y)` for `x` in `from..9`.
pub open spec fn row_positions(y: int, from: int) -> Seq<(usize, usize)> {
    Seq::new((9 - from) as nat, |k: int| ((from + k) as usize, y as usize))
}

/// The positions `(x, y)` for `y` in `from..9`.
pub open spec fn col_positions(x: int, from: int) -> Seq<(usize, usize)> {
    Seq::new((9 - from) as nat, |k: int| (x as usize, (from + k) as usize))
}

/// The positions of the block with top-left corner `(bx, by)`, row by row,
/// starting at offset `from` (in `0..=9`) of that order.
pub open spec fn block_positions(bx: int, by: int, from: int) -> Seq<(usize, usize)> {
    Seq::new(
        (9 - from) as nat,
        |k: int| ((bx + (from + k) % 3) as usize, (by + (from + k) / 3) as usize),
    )
}

/// `s` with every occurrence of `p` taken out, order kept.
pub open spec fn without(s: Seq<(usize, usize)>, p: (usize, usize)) -> Seq<(usize, usize)>
    decreases s.len(),
{
    if s.len() == 0 {
        s
    } else if s[0] == p {
        without(s.drop_first(), p)
    } else {
        seq![s[0]].add(without(s.drop_first(), p))
    }
}

/// The cells of row `y`, from left to right.
#[derive(Clone)]
pub struct RowIter {
    y: usize,
    i: usize,
}

impl RowIter {
    pub closed spec fn wf(&self) -> bool {
        self.i <= 9
    }

    /// The positions still to come.
    pub closed spec fn rest(&self) -> Seq<(usize, usize)> {
        row_positions(self.y as int, self.i as int)
    }

    pub fn at(y: usize) -> (r: RowIter)
        ensures
            r.wf(),
            r.rest() == row_positions(y as int, 0),
    {
        RowIter { y, i: 0 }
    }

    /// Hands out the next position, or `None` once the row is done.
    pub fn next(&mut self) -> (r: Option<(usize, usize)>)
        requires
            old(self).wf(),
        ensures
            final(self).wf(),
            old(self).rest().len() == 0 ==> r is None && final(self).rest() == old(self).rest(),
            old(self).rest().len() > 0 ==> r == Some(old(self).rest()[0]) && final(self).rest()
                == old(self).rest().drop_first(),
    {
        if self.i == 9 {
            return None;
        }
        let ret = (self.i, self.y);
        self.i = self.i + 1;
        assert(self.rest() =~= old(self).rest().drop_first());
        Some(ret)
    }
}

/// The cells of column `x`, from top to bottom.
#[derive(Clone)]
pub struct ColIter {
    x: usize,
    i: usize,
}

impl ColIter {
    pub closed spec fn wf(&self) -> bool {
        self.i <= 9
    }

    /// The positions still to come.
    pub closed spec fn rest(&self) -> Seq<(usize, usize)> {
        col_positions(self.x as int, self.i as int)
    }

    pub fn at(x: usize) -> (r: ColIter)
        ensures
            r.wf(),
            r.rest() == col_positions(x as int, 0),
    {
        ColIter { x, i: 0 }
    }

    /// Hands out the next position, or `None` once the column is done.
    pub fn next(&mut self) -> (r: Option<(usize, usize)>)
        requires
            old(self).wf(),
        ensures
            final(self).wf(),
            old(self).rest().len() == 0 ==> r is None && final(self).rest() == old(self).rest(),
            old(self).rest().len() > 0 ==> r == Some(old(self).rest()[0]) && final(self).rest()
                == old(self).rest().drop_first(),
    {
        if self.i == 9 {
            return None;
        }
        let ret = (self.x, self.i);
        self.i = self.i + 1;
        assert(self.rest() =~= old(self).rest().drop_first());
        Some(ret)
    }
}

/// The nine cells of the 3x3 block that holds a given cell, row by row.
#[derive(Clone)]
pub struct BlockIter {
    x: usize,
    y: usize,
    dx: usize,
    dy: usize,
}

impl BlockIter {
    pub closed spec fn wf(&self) -> bool {
        &&& self.x <= 6
        &&& self.y <= 6
        &&& self.dx < 3
        &&& self.dy <= 3
        &&& self.dy == 3 ==> self.dx == 0
    }

    /// The positions still to come.
    pub closed spec fn rest(&self) -> Seq<(usize, usize)> {
        block_positions(self.x as int, self.y as int, self.dy * 3 + self.dx)
    }

    pub fn at(x: usize, y: usize) -> (r: BlockIter)
        requires
            x < 9,
            y < 9,
        ensures
            r.wf(),
            r.rest() == block_positions(x / 3 * 3, y / 3 * 3, 0),
    {
        BlockIter { x: x / 3 * 3, y: y / 3 * 3, dx: 0, dy: 0 }
    }

    /// Hands out the next position, or `None` once the block is done.
    pub fn next(&mut self) -> (r: Option<(usize, usize)>)
        requires
            old(self).wf(),
        ensures
            final(self).wf(),
            old(self).rest().len() == 0 ==> r is None && final(self).rest() == old(self).rest(),
            old(self).rest().len() > 0 ==> r == Some(old(self).rest()[0]) && final(self).rest()
                == old(self).rest().drop_first(),
    {
        if self.dy == 3 {
            return None;
        }
        let ret = (self.x + self.dx, self.y + self.dy);
        self.dx = self.dx + 1;
        if self.dx == 3 {
            self.dy = self.dy + 1;
            self.dx = 0;
        }
        assert(self.rest() =~= old(self).rest().drop_first());
        Some(ret)
    }
}

/// The cells that share a column, a row or a block with a given cell: first
/// its column, then its row, then its block, the cell itself left out. A cell
/// of the block that lies in the same row or column comes twice.
pub struct Neighbours {
    pos: (usize, usize),
    col: ColIter,
    row: RowIter,
    block: BlockIter,
}

impl Neighbours {
    pub closed spec fn wf(&self) -> bool {
        self.col.wf() && self.row.wf() && self.block.wf()
    }

    /// The positions still to come.
    pub closed spec fn rest(&self) -> Seq<(usize, usize)> {
        without(self.col.rest() + self.row.rest() + self.block.rest(), self.pos)
    }

    pub fn of(x: usize, y: usize) -> (r: Neighbours)
        requires
            x < 9,
            y < 9,
        ensures
            r.wf(),
            r.rest() == without(
                col_positions(x as int, 0) + row_positions(y as int, 0) + block_positions(
                    x / 3 * 3,
                    y / 3 * 3,
                    0,
                ),
                (x, y),
            ),
    {
        Neighbours {
            pos: (x, y),
            col: ColIter::at(x),
            row: RowIter::at(y),
            block: BlockIter::at(x, y),
        }
    }

    /// Hands out the next peer position, or `None` once all are done.
    pub fn next(&mut self) -> (r: Option<(usize, usize)>)
        requires
            old(self).wf(),
        ensures
            final(self).wf(),
            old(self).rest().len() == 0 ==> r is None && final(self).rest() == old(self).rest(),
            old(self).rest().len() > 0 ==> r == Some(old(self).rest()[0]) && final(self).rest()
                == old(self).rest().drop_first(),
    {
        loop
            invariant
                self.wf(),
                self.pos == old(self).pos,
                self.rest() == old(self).rest(),
            decreases self.col.rest().len() + self.row.rest().len() + self.block.rest().len(),
        {
            let ghost all = self.col.rest() + self.row.rest() + self.block.rest();
            let got = match self.col.next() {
                Some(p) => Some(p),
                None => match self.row.next() {
                    Some(p) => Some(p),
                    None => self.block.next(),
                },
            };
            match got {
                None => {
                    assert(all.len() == 0);
                    return None;
                },
                Some(p) => {
                    assert(all.len() > 0 && p == all[0]);
                    assert(self.col.rest() + self.row.rest() + self.block.rest() =~= all.drop_first());
                    if p.0 != self.pos.0 || p.1 != self.pos.1 {
                        return Some(p);
                    }
                },
            }
        }
    }
}

} // verus!
