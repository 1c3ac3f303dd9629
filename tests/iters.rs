use sudoku_core::{BlockIter, ColIter, Neighbours, RowIter};

#[test]
fn test_block_iter_1() {
    let mut iter = BlockIter::at(0, 0);
    for y in 0..3 {
        for x in 0..3 {
            assert_eq!(iter.next(), Some((x, y)));
        }
    }
    assert_eq!(iter.next(), None);
    assert_eq!(iter.next(), None);
}

#[test]
fn test_block_iter_2() {
    let mut iter = BlockIter::at(5, 8);
    for y in 6..9 {
        for x in 3..6 {
            assert_eq!(iter.next(), Some((x, y)));
        }
    }
    assert_eq!(iter.next(), None);
    assert_eq!(iter.next(), None);
}

#[test]
fn test_block_all_iter() {
    let mut been_there = [[0; 9]; 9];
    let mut blocks = BlockIter::at(0, 0);
    while let Some((x, y)) = blocks.next() {
        let (bx, by) = (x * 3, y * 3);
        let mut cells = BlockIter::at(bx, by);
        while let Some((x, y)) = cells.next() {
            been_there[x as usize][y as usize] += 1;
        }
    }
    assert_eq!(been_there, [[1; 9]; 9]);
}

#[test]
fn test_col_iter_1() {
    let mut iter = ColIter::at(0);
    for y in 0..9 {
        assert_eq!(iter.next(), Some((0, y)));
    }
    assert_eq!(iter.next(), None);
    assert_eq!(iter.next(), None);
}

#[test]
fn test_col_iter_2() {
    let mut iter = ColIter::at(5);
    for y in 0..9 {
        assert_eq!(iter.next(), Some((5, y)));
    }
    assert_eq!(iter.next(), None);
    assert_eq!(iter.next(), None);
}

#[test]
fn test_col_all_iter() {
    let mut been_there = [[0; 9]; 9];
    for cx in 0..9 {
        let mut cells = ColIter::at(cx);
        while let Some((x, y)) = cells.next() {
            been_there[x as usize][y as usize] += 1;
        }
    }
    assert_eq!(been_there, [[1; 9]; 9]);
}

#[test]
fn test_neighbours() {
    let mut iter = Neighbours::of(7, 3);
    for y in 0..3 {
        assert_eq!(iter.next(), Some((7, y)));
    }
    for y in 4..9 {
        assert_eq!(iter.next(), Some((7, y)));
    }
    for x in 0..7 {
        assert_eq!(iter.next(), Some((x, 3)));
    }
    for x in 8..9 {
        assert_eq!(iter.next(), Some((x, 3)));
    }
    assert_eq!(iter.next(), Some((6, 3)));
    assert_eq!(iter.next(), Some((8, 3)));
    for y in 4..6 {
        for x in 6..9 {
            assert_eq!(iter.next(), Some((x, y)));
        }
    }
    assert_eq!(iter.next(), None);
}

#[test]
fn test_row_iter_1() {
    let mut iter = RowIter::at(0);
    for x in 0..9 {
        assert_eq!(iter.next(), Some((x, 0)));
    }
    assert_eq!(iter.next(), None);
}

#[test]
fn test_row_iter_2() {
    let mut iter = RowIter::at(8);
    for x in 0..9 {
        assert_eq!(iter.next(), Some((x, 8)));
    }
    assert_eq!(iter.next(), None);
}

#[test]
fn test_row_all_iter() {
    let mut been_there = [[0; 9]; 9];
    for ry in 0..9 {
        let mut cells = RowIter::at(ry);
        while let Some((x, y)) = cells.next() {
            been_there[x as usize][y as usize] += 1;
        }
    }
    assert_eq!(been_there, [[1; 9]; 9]);
}

#[test]
fn neighbours_of_corner_yield_twenty_distinct_peers() {
    let mut iter = Neighbours::of(0, 0);
    let mut seen = Vec::new();
    while let Some(p) = iter.next() {
        assert_ne!(p, (0, 0));
        if !seen.contains(&p) {
            seen.push(p);
        }
    }
    assert_eq!(seen.len(), 20);
}
