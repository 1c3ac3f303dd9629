use rand::SeedableRng;
use sudoku_core::{
    count_remaining, get, init, is_possible, reduce, seed_bytes, solve, to_remove,
    SearchFailure, StepResult, Sudoku,
};

const FULL_MASK: u16 = 0b11_1111_1110;

/// A valid solved grid with 7 at (4, 4).
fn solved_value(x: usize, y: usize) -> u8 {
    let v = ((x + 3 * (y % 3) + y / 3) % 9) as u8 + 1;
    match v {
        7 => 9,
        9 => 7,
        other => other,
    }
}

fn is_peer(a: (usize, usize), b: (usize, usize)) -> bool {
    a != b && (a.0 == b.0 || a.1 == b.1 || (a.0 / 3 == b.0 / 3 && a.1 / 3 == b.1 / 3))
}

fn grid_of(s: &Sudoku) -> Vec<u8> {
    let mut g = Vec::new();
    for x in 0..9 {
        for y in 0..9 {
            g.push(get(s, x, y));
        }
    }
    g
}

fn masks_of(s: &Sudoku) -> Vec<u16> {
    let mut m = Vec::new();
    for x in 0..9 {
        for y in 0..9 {
            m.push(s.candidates_of((x, y)));
        }
    }
    m
}

fn assert_valid_solution(s: &Sudoku) {
    for u in 0..27 {
        let mut seen = [0u32; 10];
        for k in 0..9 {
            let (x, y) = if u < 9 {
                (k, u)
            } else if u < 18 {
                (u - 9, k)
            } else {
                let b = u - 18;
                ((b % 3) * 3 + k % 3, (b / 3) * 3 + k / 3)
            };
            let v = get(s, x, y) as usize;
            assert!((1..=9).contains(&v));
            seen[v] += 1;
        }
        for d in 1..=9 {
            assert_eq!(seen[d], 1, "unit {} digit {}", u, d);
        }
    }
}

fn almost_full() -> Sudoku {
    let mut s = Sudoku::new();
    for x in 0..9 {
        for y in 0..9 {
            if (x, y) != (4, 4) {
                sudoku_core::set(&mut s, x, y, solved_value(x, y));
            }
        }
    }
    s
}

#[test]
fn place_on_empty_board_clears_exactly_the_peers() {
    let mut s = Sudoku::new();
    sudoku_core::set(&mut s, 0, 0, 5);
    let mut cleared = 0;
    for x in 0..9 {
        for y in 0..9 {
            let m = s.candidates_of((x, y));
            if is_peer((0, 0), (x, y)) {
                assert_eq!(m, FULL_MASK & !(1 << 5));
                cleared += 1;
            } else {
                assert_eq!(m, FULL_MASK);
            }
        }
    }
    assert_eq!(cleared, 20);
    assert_eq!(get(&s, 0, 0), 5);
    assert_eq!(count_remaining(&s), 80);
}

#[test]
fn set_tracking_lists_the_changed_peers() {
    let mut s = Sudoku::new();
    s.set((4, 0), 5);
    let mut changes = Vec::new();
    s.set_tracking((0, 0), 5, &mut changes);
    // The rest of row 0 had already lost 5 to (4, 0); (4, 0) itself had not.
    assert!(changes.contains(&(4, 0)));
    assert!(!changes.contains(&(1, 0)));
    assert!(changes.contains(&(0, 1)));
    assert!(changes.contains(&(1, 1)));
    assert_eq!(changes.len(), 20 - 7);
}

#[test]
fn place_then_unplace_restores_every_mask() {
    let mut s = Sudoku::new();
    sudoku_core::set(&mut s, 2, 2, 3);
    sudoku_core::set(&mut s, 6, 1, 8);
    sudoku_core::set(&mut s, 1, 7, 3);
    let before = masks_of(&s);
    let grid_before = grid_of(&s);
    sudoku_core::set(&mut s, 2, 5, 3);
    assert_ne!(masks_of(&s), before);
    s.unset((2, 5));
    assert_eq!(masks_of(&s), before);
    assert_eq!(grid_of(&s), grid_before);
}

#[test]
fn unset_keeps_digit_taken_while_another_peer_holds_it() {
    let mut s = Sudoku::new();
    sudoku_core::set(&mut s, 0, 0, 4);
    sudoku_core::set(&mut s, 0, 8, 4);
    s.unset((0, 0));
    // (0, 4) still sees the 4 at (0, 8).
    assert!(!is_possible(&s, 0, 4, 4));
    // (5, 0) sees no 4 any more.
    assert!(is_possible(&s, 5, 0, 4));
}

#[test]
fn last_empty_cell_admits_only_the_missing_digit() {
    let s = almost_full();
    assert_eq!(count_remaining(&s), 1);
    for v in 1..=9u8 {
        assert_eq!(is_possible(&s, 4, 4, v), v == 7, "digit {}", v);
    }
    assert!(!is_possible(&s, 4, 4, 0));
    assert_eq!(s.count_possible((4, 4)), 1);
    assert_eq!(s.candidates_of((4, 4)), 1 << 7);
}

#[test]
fn propagation_fills_the_naked_single() {
    let mut s = almost_full();
    assert!(solve(&mut s));
    assert_eq!(get(&s, 4, 4), 7);
    assert_eq!(count_remaining(&s), 0);
}

#[test]
fn propagation_fills_a_hidden_single() {
    // In row 0 only (4, 0) can take 1: blocks 0 and 2 and columns 3 and 5
    // hold a 1 elsewhere. (4, 0) itself still has nine candidates.
    let mut s = Sudoku::new();
    sudoku_core::set(&mut s, 2, 1, 1);
    sudoku_core::set(&mut s, 3, 5, 1);
    sudoku_core::set(&mut s, 5, 8, 1);
    sudoku_core::set(&mut s, 7, 2, 1);
    assert!(s.count_possible((4, 0)) >= 2);
    let mut t = s;
    let r = sudoku_core::propagate::propagate(&mut t);
    assert!(matches!(r, StepResult::NeedsGuess));
    assert_eq!(get(&t, 4, 0), 1);
}

#[test]
fn propagation_reports_contradiction() {
    // (0,0) sees 1..8 in its row and 9 in its column: no candidate left.
    let mut s = Sudoku::new();
    for x in 1..9 {
        sudoku_core::set(&mut s, x, 0, x as u8);
    }
    sudoku_core::set(&mut s, 0, 5, 9);
    let mut t = s;
    let r = sudoku_core::propagate::propagate(&mut t);
    assert!(matches!(r, StepResult::Impossible));
    assert!(!solve(&mut s));
}

#[test]
fn solve_on_a_full_valid_board_is_true() {
    let mut s = almost_full();
    sudoku_core::set(&mut s, 4, 4, 7);
    assert!(solve(&mut s));
    assert_valid_solution(&s);
}

#[test]
fn solve_stalls_on_an_empty_board() {
    let mut s = Sudoku::new();
    assert!(!solve(&mut s));
    assert_eq!(count_remaining(&s), 81);
}

#[test]
fn generated_board_is_a_valid_solution() {
    for seed in [[1u32, 2, 3, 4, 5, 6, 7, 8], [42, 0, 0, 0, 0, 0, 0, 0], [0; 8]] {
        let s = init(&seed).expect("generation failed");
        assert_eq!(count_remaining(&s), 0);
        assert_valid_solution(&s);
    }
}

#[test]
fn generation_is_deterministic_per_seed() {
    let seed = [7u32, 11, 13, 17, 19, 23, 29, 31];
    let a = init(&seed).unwrap();
    let b = init(&seed).unwrap();
    assert_eq!(grid_of(&a), grid_of(&b));
    assert_eq!(masks_of(&a), masks_of(&b));
}

#[test]
fn different_seeds_give_different_boards() {
    let a = init(&[1, 0, 0, 0, 0, 0, 0, 0]).unwrap();
    let b = init(&[2, 0, 0, 0, 0, 0, 0, 0]).unwrap();
    assert_ne!(grid_of(&a), grid_of(&b));
}

#[test]
fn reduced_board_solves_without_guessing() {
    let seed = [3u32, 1, 4, 1, 5, 9, 2, 6];
    let solved = init(&seed).unwrap();
    for difficulty in 1..=5 {
        let mut puzzle = solved;
        reduce(&mut puzzle, &seed_bytes(&seed), difficulty);
        let removed = count_remaining(&puzzle);
        assert!(removed <= to_remove(difficulty));
        for x in 0..9 {
            for y in 0..9 {
                let v = get(&puzzle, x, y);
                assert!(v == 0 || v == get(&solved, x, y));
            }
        }
        let mut check = puzzle;
        assert!(solve(&mut check));
        assert_eq!(grid_of(&check), grid_of(&solved));
    }
}

#[test]
fn reduce_with_large_target_is_reproducible() {
    let seed = [5u32, 4, 3, 2, 1, 0, 9, 8];
    let solved = init(&seed).unwrap();
    let mut a = solved;
    reduce(&mut a, &seed_bytes(&seed), 5);
    let mut b = solved;
    reduce(&mut b, &seed_bytes(&seed), 5);
    assert_eq!(grid_of(&a), grid_of(&b));
    assert!(count_remaining(&a) >= 40, "removed {}", count_remaining(&a));
    let mut check = a;
    assert!(solve(&mut check));
}

#[test]
fn reduce_order_depends_on_seed() {
    let solved = init(&[9, 9, 9, 9, 9, 9, 9, 9]).unwrap();
    let mut a = solved;
    reduce(&mut a, &seed_bytes(&[1, 0, 0, 0, 0, 0, 0, 0]), 1);
    let mut b = solved;
    reduce(&mut b, &seed_bytes(&[2, 0, 0, 0, 0, 0, 0, 0]), 1);
    assert_ne!(grid_of(&a), grid_of(&b));
}

#[test]
fn difficulty_zero_removes_nothing() {
    let seed = [1u32; 8];
    let solved = init(&seed).unwrap();
    let mut p = solved;
    reduce(&mut p, &seed_bytes(&seed), 0);
    assert_eq!(count_remaining(&p), 0);
}

#[test]
fn removal_targets() {
    assert_eq!(to_remove(0), 0);
    assert_eq!(to_remove(1), 36);
    assert_eq!(to_remove(2), 42);
    assert_eq!(to_remove(4), 54);
    assert_eq!(to_remove(5), 81);
    assert_eq!(to_remove(100), 81);
}

#[test]
fn seed_words_are_packed_little_endian() {
    let b = seed_bytes(&[0x0403_0201, 0x0807_0605]);
    assert_eq!(&b[0..8], &[1, 2, 3, 4, 5, 6, 7, 8]);
    assert!(b[8..].iter().all(|&x| x == 0));
    let full = seed_bytes(&[0xffff_ffff; 10]);
    assert!(full.iter().all(|&x| x == 0xff));
}

#[test]
fn search_failure_variants_compare() {
    assert_ne!(SearchFailure::NoSolution, SearchFailure::Exhausted);
}

fn stalls_without_solution() -> Sudoku {
    // Propagation stalls on these clues, and no grid completes them: only
    // guessing shows it.
    let mut s = Sudoku::new();
    let fill = [
        ((0, 3), 3), ((1, 2), 9), ((1, 3), 8), ((1, 6), 6), ((2, 2), 6), ((2, 4), 7),
        ((3, 0), 8), ((3, 1), 4), ((3, 8), 9), ((4, 5), 7), ((5, 0), 1), ((5, 1), 7),
        ((5, 3), 6), ((6, 1), 2), ((6, 7), 5), ((6, 8), 4), ((8, 2), 3),
    ];
    for ((x, y), v) in fill {
        sudoku_core::set(&mut s, x, y, v);
    }
    s
}

#[test]
fn full_search_solves_an_empty_board() {
    let mut rng = rand::rngs::StdRng::seed_from_u64(17);
    let mut budget = sudoku_core::MAX_FAILURES;
    let s = sudoku_core::solve_recursive(Sudoku::new(), &mut rng, &mut budget).unwrap();
    assert_valid_solution(&s);
}

#[test]
fn full_search_reports_no_solution() {
    let s = stalls_without_solution();
    let mut t = s;
    assert!(matches!(sudoku_core::propagate::propagate(&mut t), StepResult::NeedsGuess));
    let mut rng = rand::rngs::StdRng::seed_from_u64(3);
    let mut budget = sudoku_core::MAX_FAILURES;
    let r = sudoku_core::solve_recursive(s, &mut rng, &mut budget);
    assert_eq!(r.err(), Some(SearchFailure::NoSolution));
    assert!(budget < sudoku_core::MAX_FAILURES);
}

#[test]
fn full_search_stops_when_budget_runs_out() {
    let s = stalls_without_solution();
    let mut rng = rand::rngs::StdRng::seed_from_u64(3);
    let mut budget = 0;
    let r = sudoku_core::solve_recursive(s, &mut rng, &mut budget);
    assert_eq!(r.err(), Some(SearchFailure::Exhausted));
}

#[test]
fn propagation_result_does_not_depend_on_order() {
    let seed = [2u32, 7, 1, 8, 2, 8, 1, 8];
    let solved = init(&seed).unwrap();
    let mut puzzle = solved;
    reduce(&mut puzzle, &seed_bytes(&seed), 5);
    let mut forward = puzzle;
    assert!(solve(&mut forward));
    // Place the naked singles of the puzzle first, last cell first, then
    // propagate the rest.
    let mut backward = puzzle;
    let mut placed = 0;
    for c in (0..81).rev() {
        let (x, y) = (c / 9, c % 9);
        if get(&backward, x, y) == 0 && backward.count_possible((x, y)) == 1 {
            let v = (1..=9u8).find(|&v| is_possible(&backward, x, y, v)).unwrap();
            sudoku_core::set(&mut backward, x, y, v);
            placed += 1;
        }
    }
    assert!(placed > 0);
    assert!(solve(&mut backward));
    assert_eq!(grid_of(&forward), grid_of(&backward));
    assert_eq!(grid_of(&forward), grid_of(&solved));
}

#[test]
fn point_keeps_its_coordinates() {
    let p = sudoku_core::Point::new(8, 3);
    assert_eq!((p.x, p.y), (8, 3));
    assert_eq!(p, sudoku_core::Point { x: 8, y: 3 });
}

#[test]
fn board_from_digits_matches_one_built_by_placing() {
    let mut digits = [0u8; 81];
    for x in 0..9 {
        for y in 0..9 {
            if (x + y) % 3 == 0 {
                digits[x * 9 + y] = solved_value(x, y);
            }
        }
    }
    let loaded = Sudoku::from_digits(digits);
    let mut placed = Sudoku::new();
    for x in 0..9 {
        for y in 0..9 {
            if digits[x * 9 + y] != 0 {
                sudoku_core::set(&mut placed, x, y, digits[x * 9 + y]);
            }
        }
    }
    assert_eq!(grid_of(&loaded), grid_of(&placed));
    assert_eq!(masks_of(&loaded), masks_of(&placed));
}

#[test]
fn reduced_puzzle_keeps_no_removable_clue() {
    let seed = [8u32, 6, 7, 5, 3, 0, 9, 1];
    let solved = init(&seed).unwrap();
    let mut puzzle = solved;
    reduce(&mut puzzle, &seed_bytes(&seed), 5);
    let removed = count_remaining(&puzzle);
    assert!(removed < 81);
    for x in 0..9 {
        for y in 0..9 {
            if get(&puzzle, x, y) != 0 {
                let mut fewer = puzzle;
                fewer.unset((x, y));
                assert!(!solve(&mut fewer), "clue at ({}, {}) could go", x, y);
            }
        }
    }
}

#[test]
fn update_places_the_naked_single_in_one_pass() {
    let mut s = almost_full();
    let r = sudoku_core::propagate::update(&mut s);
    assert_eq!(r, Ok(true));
    assert_eq!(get(&s, 4, 4), 7);
    assert_eq!(count_remaining(&s), 0);
}

#[test]
fn consistency_check_finds_clashing_peers() {
    assert!(sudoku_core::is_consistent(&almost_full()));
    let mut digits = [0u8; 81];
    digits[0] = 5;
    digits[4] = 5;
    assert!(!sudoku_core::is_consistent(&Sudoku::from_digits(digits)));
    digits[4] = 6;
    assert!(sudoku_core::is_consistent(&Sudoku::from_digits(digits)));
}

fn all_cells_reversed() -> Vec<(usize, usize)> {
    let mut order = Vec::new();
    for c in (0..81).rev() {
        order.push((c / 9, c % 9));
    }
    order
}

#[test]
fn reduce_in_order_is_reproducible_and_monotone() {
    let solved = init(&[4, 4, 4, 4, 4, 4, 4, 4]).unwrap();
    let order = all_cells_reversed();
    let mut a = solved;
    sudoku_core::reduce_in_order(&mut a, &order, 42);
    let mut b = solved;
    sudoku_core::reduce_in_order(&mut b, &order, 42);
    assert_eq!(grid_of(&a), grid_of(&b));
    assert_eq!(masks_of(&a), masks_of(&b));
    let mut fewer = solved;
    sudoku_core::reduce_in_order(&mut fewer, &order, 20);
    assert!(count_remaining(&fewer) <= 20);
    for x in 0..9 {
        for y in 0..9 {
            if get(&a, x, y) != 0 {
                assert_eq!(get(&fewer, x, y), get(&a, x, y));
            }
        }
    }
    let mut check = a;
    assert!(solve(&mut check));
}

#[test]
fn full_search_solves_what_propagation_solves() {
    let seed = [6u32, 2, 8, 3, 1, 8, 5, 3];
    let solved = init(&seed).unwrap();
    let mut puzzle = solved;
    reduce(&mut puzzle, &seed_bytes(&seed), 3);
    let mut rng = rand::rngs::StdRng::seed_from_u64(9);
    let mut budget = 0;
    let r = sudoku_core::solve_recursive(puzzle, &mut rng, &mut budget).unwrap();
    assert_eq!(grid_of(&r), grid_of(&solved));
}
