use hexadoku::{solve, HexPuzzle, LoadError, EMPTY};

/// A complete valid grid: digit ((r % 4) * 4 + r / 4 + c) % 16 in cell (r, c).
fn pattern(r: usize, c: usize) -> u8 {
    (((r % 4) * 4 + r / 4 + c) % 16) as u8
}

fn pattern_board_except(holes: &[(usize, usize)]) -> HexPuzzle {
    let mut p = HexPuzzle::new();
    for r in 0..16 {
        for c in 0..16 {
            if !holes.contains(&(r, c)) {
                assert!(p.set(r, c, pattern(r, c) as usize));
            }
        }
    }
    p
}

fn source_of(p: &HexPuzzle) -> String {
    let mut s = String::new();
    for r in 0..16 {
        for c in 0..16 {
            let v = p.get(r, c);
            if v == EMPTY {
                s.push_str("* ");
            } else {
                s.push_str(&format!("{:x} ", v));
            }
        }
        s.push('\n');
    }
    s
}

fn is_full(p: &HexPuzzle) -> bool {
    (0..16).all(|r| (0..16).all(|c| p.get(r, c) != EMPTY))
}

#[test]
fn new_board_is_empty_and_valid() {
    let p = HexPuzzle::new();
    for r in 0..16 {
        for c in 0..16 {
            assert_eq!(p.get(r, c), EMPTY);
        }
    }
    assert!(p.is_valid());
}

#[test]
fn set_records_value() {
    let mut p = HexPuzzle::new();
    assert!(p.set(3, 7, 10));
    assert_eq!(p.get(3, 7), 10);
    assert!(p.is_valid());
}

#[test]
fn set_twice_same_cell_fails() {
    let mut p = HexPuzzle::new();
    assert!(p.set(5, 5, 4));
    assert!(!p.set(5, 5, 4));
    assert_eq!(p.get(5, 5), 4);
    assert_eq!(p.get_possible(5, 6).len(), 15);
}

#[test]
fn set_rejects_row_column_and_box_conflicts() {
    let mut p = HexPuzzle::new();
    assert!(p.set(0, 0, 9));
    assert!(!p.set(0, 15, 9));
    assert!(!p.set(15, 0, 9));
    assert!(!p.set(3, 3, 9));
    assert!(p.set(4, 4, 9));
    assert_eq!(p.get(0, 15), EMPTY);
    assert_eq!(p.get(15, 0), EMPTY);
    assert_eq!(p.get(3, 3), EMPTY);
    assert!(p.is_valid());
}

#[test]
fn set_on_filled_cell_fails() {
    let mut p = HexPuzzle::new();
    assert!(p.set(2, 2, 1));
    assert!(!p.set(2, 2, 2));
    assert_eq!(p.get(2, 2), 1);
}

#[test]
fn failed_set_changes_nothing() {
    let mut p = HexPuzzle::new();
    assert!(p.set(0, 0, 3));
    assert!(p.set(1, 8, 5));
    // 5 is free in row 0 but taken in column 8: row 0 must not record it.
    assert!(!p.set(0, 8, 5));
    assert_eq!(p.get(0, 8), EMPTY);
    assert_eq!(p.get_possible(0, 1), (0..16).filter(|v| *v != 3).collect::<Vec<usize>>());
    assert_eq!(p.get_possible(2, 2), (0..16).filter(|v| *v != 3).collect::<Vec<usize>>());
}

#[test]
fn candidates_of_empty_board_are_all_digits() {
    let p = HexPuzzle::new();
    for r in 0..16 {
        for c in 0..16 {
            assert_eq!(p.get_possible(r, c), (0..16).collect::<Vec<usize>>());
        }
    }
}

#[test]
fn candidates_exclude_row_column_and_box() {
    let mut p = HexPuzzle::new();
    assert!(p.set(0, 9, 1));
    assert!(p.set(12, 4, 2));
    assert!(p.set(1, 6, 3));
    assert!(p.set(8, 8, 4));
    let got = p.get_possible(0, 4);
    assert_eq!(got, vec![0, 4, 5, 6, 7, 8, 9, 10, 11, 12, 13, 14, 15]);
}

#[test]
fn best_on_full_board_is_none() {
    let p = pattern_board_except(&[]);
    assert!(p.get_best().is_none());
    assert!(p.is_valid());
}

#[test]
fn best_on_single_empty_cell_is_that_cell() {
    let p = pattern_board_except(&[(9, 13)]);
    let best = p.get_best().unwrap();
    assert_eq!((best.row, best.col), (9, 13));
    assert_eq!(best.vals, vec![pattern(9, 13) as usize]);
}

#[test]
fn best_prefers_fewest_candidates_then_scan_order() {
    let mut p = HexPuzzle::new();
    assert_eq!(p.get_best().map(|b| (b.row, b.col, b.vals.len())), Some((0, 0, 16)));
    assert!(p.set(5, 0, 1));
    assert!(p.set(5, 1, 2));
    assert!(p.set(4, 3, 3));
    assert!(p.set(7, 15, 4));
    // Every cell of the box of rows 4..8, columns 0..4 lacks 1, 2 and 3;
    // those of row 7 lack 4 too, and (7, 0) is the first of them.
    let best = p.get_best().unwrap();
    assert_eq!((best.row, best.col), (7, 0));
    assert_eq!(best.vals, vec![0, 5, 6, 7, 8, 9, 10, 11, 12, 13, 14, 15]);
}

#[test]
fn is_valid_detects_duplicates_written_directly() {
    let mut p = HexPuzzle::new();
    p.grid[0][0] = 1;
    p.grid[0][9] = 1;
    assert!(!p.is_valid());
    let mut q = HexPuzzle::new();
    q.grid[2][5] = 7;
    q.grid[14][5] = 7;
    assert!(!q.is_valid());
    let mut b = HexPuzzle::new();
    b.grid[4][4] = 12;
    b.grid[7][7] = 12;
    assert!(!b.is_valid());
    let mut ok = HexPuzzle::new();
    ok.grid[4][4] = 12;
    ok.grid[8][8] = 12;
    assert!(ok.is_valid());
}

#[test]
fn load_reads_digits_and_placeholders() {
    let p = pattern_board_except(&[(0, 1), (6, 6), (15, 15)]);
    let text = source_of(&p);
    let q = HexPuzzle::from_source(text.as_bytes()).unwrap();
    for r in 0..16 {
        for c in 0..16 {
            assert_eq!(q.get(r, c), p.get(r, c));
        }
    }
    assert!(q.is_valid());
}

#[test]
fn load_accepts_upper_case_blank_lines_and_trailing_data() {
    let mut text = String::from("\n\n  A\t");
    for _ in 1..256 {
        text.push_str(" *");
    }
    text.push_str("\n\nthis is ignored\n");
    let q = HexPuzzle::from_source(text.as_bytes()).unwrap();
    assert_eq!(q.get(0, 0), 10);
    assert_eq!(q.get(15, 15), EMPTY);
}

#[test]
fn load_rejects_bad_token() {
    let mut text = String::from("* * g");
    for _ in 3..256 {
        text.push_str(" *");
    }
    assert_eq!(HexPuzzle::from_source(text.as_bytes()).unwrap_err(), LoadError::BadToken(2));
    let mut wide = String::from("10");
    for _ in 1..256 {
        wide.push_str(" *");
    }
    assert_eq!(HexPuzzle::from_source(wide.as_bytes()).unwrap_err(), LoadError::BadToken(0));
}

#[test]
fn load_rejects_short_source() {
    let text = "* 1 2 3";
    assert_eq!(HexPuzzle::from_source(text.as_bytes()).unwrap_err(), LoadError::TooFewTokens(4));
    assert_eq!(HexPuzzle::from_source(b"").unwrap_err(), LoadError::TooFewTokens(0));
}

#[test]
fn load_rejects_repeated_digit_in_row() {
    let mut text = String::from("5 * * 5");
    for _ in 4..256 {
        text.push_str(" *");
    }
    assert_eq!(HexPuzzle::from_source(text.as_bytes()).unwrap_err(), LoadError::Conflict(3));
}

#[test]
fn load_reports_first_failure() {
    let mut text = String::from("5 5 x");
    for _ in 3..10 {
        text.push_str(" *");
    }
    assert_eq!(HexPuzzle::from_source(text.as_bytes()).unwrap_err(), LoadError::Conflict(1));
}

#[test]
fn solved_loaded_puzzle_is_full_and_valid() {
    let holes: Vec<(usize, usize)> = (0..16).flat_map(|r| vec![(r, (r * 3) % 16), (r, (r * 3 + 8) % 16)]).collect();
    let text = source_of(&pattern_board_except(&holes));
    let p = HexPuzzle::from_source(text.as_bytes()).unwrap();
    let s = solve(&p).unwrap();
    assert!(is_full(&s));
    assert!(s.is_valid());
    for r in 0..16 {
        for c in 0..16 {
            if p.get(r, c) != EMPTY {
                assert_eq!(s.get(r, c), p.get(r, c));
            }
        }
    }
}

#[test]
fn empty_grid_solves_to_valid_completion() {
    let text = "* ".repeat(256);
    let p = HexPuzzle::from_source(text.as_bytes()).unwrap();
    let s = solve(&p).unwrap();
    assert!(is_full(&s));
    assert!(s.is_valid());
}

#[test]
fn known_puzzle_gives_expected_grid() {
    let holes: Vec<(usize, usize)> = (0..16).map(|r| (r, (r * 5 + 2) % 16)).collect();
    let p = pattern_board_except(&holes);
    let s = solve(&p).unwrap();
    for r in 0..16 {
        for c in 0..16 {
            assert_eq!(s.get(r, c), pattern(r, c));
        }
    }
}

#[test]
fn unsolvable_board_gives_none() {
    // Row 0 holds 0..=13 and still needs 14 and 15, but column 14 already
    // holds both, so cell (0, 14) has no candidate.
    let mut p = HexPuzzle::new();
    for c in 0..14 {
        assert!(p.set(0, c, c));
    }
    assert!(p.set(8, 14, 14));
    assert!(p.set(9, 14, 15));
    assert!(solve(&p).is_none());
}

#[test]
fn duplicate_is_independent() {
    let mut p = HexPuzzle::new();
    assert!(p.set(0, 0, 7));
    let mut q = p.duplicate();
    assert_eq!(q.get(0, 0), 7);
    assert!(!q.set(0, 1, 7));
    assert!(q.set(1, 4, 2));
    assert_eq!(p.get(1, 4), EMPTY);
    assert_eq!(p.get_possible(1, 5).len(), 16);
    assert_eq!(q.get_possible(1, 5).len(), 15);
}

#[test]
fn solving_full_board_returns_it() {
    let p = pattern_board_except(&[]);
    let s = solve(&p).unwrap();
    for r in 0..16 {
        for c in 0..16 {
            assert_eq!(s.get(r, c), pattern(r, c));
        }
    }
}
