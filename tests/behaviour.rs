use sudoku::{count_equal_options, create_puzzle, Sudoku};

/// Digit (one-based) of every cell, 0 where the cell is not decided.
fn digits(s: &Sudoku) -> Vec<Vec<usize>> {
    let mut out = Vec::new();
    for r in 0..9 {
        let mut row = Vec::new();
        for c in 0..9 {
            row.push(match s.unique_option(r, c) {
                Some(v) => v + 1,
                None => 0,
            });
        }
        out.push(row);
    }
    out
}

fn identity_rows() -> Vec<Vec<usize>> {
    vec![
        vec![1, 2, 3, 4, 5, 6, 7, 8, 9],
        vec![4, 5, 6, 7, 8, 9, 1, 2, 3],
        vec![7, 8, 9, 1, 2, 3, 4, 5, 6],
        vec![2, 3, 1, 5, 6, 4, 8, 9, 7],
        vec![5, 6, 4, 8, 9, 7, 2, 3, 1],
        vec![8, 9, 7, 2, 3, 1, 5, 6, 4],
        vec![3, 1, 2, 6, 4, 5, 9, 7, 8],
        vec![6, 4, 5, 9, 7, 8, 3, 1, 2],
        vec![9, 7, 8, 3, 1, 2, 6, 4, 5],
    ]
}

fn flags(s: &Sudoku) -> Vec<bool> {
    let mut out = Vec::new();
    for r in 0..9 {
        for c in 0..9 {
            for v in 0..9 {
                out.push(s.has_option(r, c, v));
            }
        }
    }
    out
}

/// Repeats the elimination pass until it changes nothing.
fn settle(s: &mut Sudoku) {
    loop {
        let before = flags(s);
        let removed = s.reduce_options();
        if removed == 0 && flags(s) == before {
            break;
        }
    }
}

#[test]
fn identity_grid_digits() {
    let s = Sudoku::identity_sudoku();
    assert_eq!(digits(&s), identity_rows());
    assert!(s.unique_sudoku());
    assert_eq!(s.revealed_count(), 81);
}

#[test]
fn new_with_data_matches_identity() {
    let a = Sudoku::new_with_data(identity_rows());
    let b = Sudoku::identity_sudoku();
    assert_eq!(count_equal_options(&a, &b), 81);
    assert!(a.has_option(3, 2, 0));
    assert!(!a.has_option(3, 2, 1));
}

#[test]
fn shaken_grid_stays_valid() {
    for _ in 0..5 {
        let mut s = Sudoku::identity_sudoku();
        s.shake_randomly();
        assert!(s.unique_sudoku());
        assert!(s.has_only_unique_options());
    }
}

#[test]
fn shaking_moves_cells() {
    let identity = Sudoku::identity_sudoku();
    let mut moved = false;
    for _ in 0..5 {
        let mut s = Sudoku::identity_sudoku();
        s.shake_randomly();
        if count_equal_options(&s, &identity) < 81 {
            moved = true;
        }
    }
    assert!(moved);
}

#[test]
fn identity_with_repeated_digit_is_invalid() {
    let mut s = Sudoku::identity_sudoku();
    assert!(s.has_only_unique_options());
    // Row 0 holds 2 at column 1: write it at column 0 too.
    s.set(0, 0, 1);
    assert!(!s.has_only_unique_options());
}

#[test]
fn undecided_cells_ignored_by_validity() {
    let mut s = Sudoku::new(true);
    assert!(s.has_only_unique_options());
    s.set(0, 0, 4);
    s.set(8, 8, 4);
    assert!(s.has_only_unique_options());
    s.set(0, 8, 4);
    assert!(!s.has_only_unique_options());
}

#[test]
fn swap_row_within_band() {
    let mut s = Sudoku::identity_sudoku();
    s.swap_row(0, 1);
    let rows = identity_rows();
    let got = digits(&s);
    assert_eq!(got[0], rows[1]);
    assert_eq!(got[1], rows[0]);
    assert_eq!(got[2], rows[2]);
    let mut t = Sudoku::identity_sudoku();
    t.swap_row(5, 2);
    let got = digits(&t);
    assert_eq!(got[5], rows[4]);
    assert_eq!(got[4], rows[5]);
}

#[test]
fn swap_column_within_stack() {
    let mut s = Sudoku::identity_sudoku();
    s.swap_column(8, 1);
    let rows = identity_rows();
    let got = digits(&s);
    for r in 0..9 {
        assert_eq!(got[r][8], rows[r][6]);
        assert_eq!(got[r][6], rows[r][8]);
        assert_eq!(got[r][7], rows[r][7]);
    }
    assert!(s.has_only_unique_options());
}

#[test]
fn set_reports_already_revealed() {
    let mut s = Sudoku::new(true);
    assert!(!s.set(2, 3, 6));
    assert!(s.set(2, 3, 6));
    assert_eq!(s.unique_option(2, 3), Some(6));
    assert!(!s.set(2, 3, 1));
    assert_eq!(s.unique_option(2, 3), Some(1));
    let mut e = Sudoku::new(false);
    assert!(!e.set(0, 0, 0));
}

#[test]
fn shake_with_applies_rounds_in_order() {
    let mut s = Sudoku::identity_sudoku();
    s.shake_with(&vec![(0, 1, 8, 2), (4, 2, 2, 1)]);
    let mut t = Sudoku::identity_sudoku();
    t.swap_row(0, 1);
    t.swap_column(8, 2);
    t.swap_row(4, 2);
    t.swap_column(2, 1);
    assert_eq!(digits(&s), digits(&t));
    let rows = identity_rows();
    let got = digits(&s);
    // Rows 0 and 1, columns 8 and 7, then rows 4 and 3, columns 2 and 0.
    assert_eq!(got[0][0], rows[1][2]);
    assert_eq!(got[5][8], rows[5][7]);
    assert_eq!(got[3][2], rows[4][0]);
    let mut u = Sudoku::identity_sudoku();
    u.shake_with(&vec![]);
    assert_eq!(digits(&u), rows);
}

#[test]
fn reduce_counts_cleared_cell_candidates() {
    // Digit 5 fits only (0, 0) in row 0: revealing it there clears the
    // cell's eight other candidates, and the digit from eight column peers
    // and four more block peers.
    let mut s = Sudoku::new(true);
    for c in 1..9 {
        s.eliminate(0, c, 5);
    }
    assert_eq!(s.reduce_options(), 8 + 8 + 4);
    assert_eq!(s.unique_option(0, 0), Some(5));
    while s.reduce_options() > 0 {}
    let settled = flags(&s);
    assert_eq!(s.reduce_options(), 0);
    assert_eq!(flags(&s), settled);
}

#[test]
fn unique_and_empty_options() {
    let mut s = Sudoku::new(true);
    assert_eq!(s.unique_option(2, 3), None);
    assert!(!s.empty_option(2, 3));
    s.set(2, 3, 6);
    assert_eq!(s.unique_option(2, 3), Some(6));
    let e = Sudoku::new(false);
    assert!(e.empty_option(4, 4));
    assert_eq!(e.unique_option(4, 4), None);
}

#[test]
fn eliminate_reports_change() {
    let mut s = Sudoku::new(true);
    assert!(s.eliminate(1, 1, 3));
    assert!(!s.has_option(1, 1, 3));
    assert!(!s.eliminate(1, 1, 3));
}

#[test]
fn remove_others_clears_twenty_peers() {
    let mut s = Sudoku::new(true);
    s.set(4, 4, 2);
    assert_eq!(s.remove_others(4, 4, 2), 20);
    assert!(s.has_option(4, 4, 2));
    assert!(!s.has_option(4, 0, 2));
    assert!(!s.has_option(0, 4, 2));
    assert!(!s.has_option(3, 5, 2));
    assert!(s.has_option(0, 0, 2));
    assert_eq!(s.remove_others(4, 4, 2), 0);
}

#[test]
fn undecided_cells_order() {
    let mut s = Sudoku::new(true);
    let all = s.undecided_cells();
    assert_eq!(all.len(), 81);
    assert_eq!(all[0], (0, 0, 9));
    assert_eq!(all[80], (8, 8, 9));
    s.set(0, 0, 0);
    s.eliminate(5, 5, 1);
    s.eliminate(5, 5, 2);
    s.eliminate(2, 7, 1);
    let u = s.undecided_cells();
    assert_eq!(u.len(), 80);
    assert_eq!(u[0], (0, 1, 9));
    assert_eq!(u[77], (8, 8, 9));
    assert_eq!(u[78], (2, 7, 8));
    assert_eq!(u[79], (5, 5, 7));
    for w in u.windows(2) {
        assert!(w[0].2 >= w[1].2);
    }
}

#[test]
fn solved_grid_is_fixed_point() {
    let mut s = Sudoku::identity_sudoku();
    s.shake_randomly();
    let before = digits(&s);
    assert_eq!(s.reduce_options(), 0);
    assert_eq!(digits(&s), before);
    assert_eq!(s.reduce_options(), 0);
}

#[test]
fn revealing_all_cells_reaches_fixed_point() {
    let field = Sudoku::identity_sudoku();
    let mut space = Sudoku::new(true);
    for r in 0..9 {
        for c in 0..9 {
            space.set(r, c, field.unique_option(r, c).unwrap());
        }
    }
    assert_eq!(space.reduce_options(), 0);
    assert_eq!(count_equal_options(&space, &field), 81);
}

#[test]
fn naked_single_propagates() {
    let mut s = Sudoku::new(true);
    s.set(0, 0, 8);
    let removed = s.reduce_options();
    assert_eq!(removed, 20);
    assert!(!s.has_option(0, 5, 8));
    assert!(!s.has_option(7, 0, 8));
    assert!(!s.has_option(2, 2, 8));
    assert!(s.has_option(3, 3, 8));
}

#[test]
fn hidden_single_in_row_is_revealed() {
    let mut s = Sudoku::new(true);
    for c in 1..9 {
        s.eliminate(0, c, 5);
    }
    s.reduce_options();
    assert_eq!(s.unique_option(0, 0), Some(5));
    assert!(!s.has_option(8, 0, 5));
}

#[test]
fn hidden_single_in_block_is_revealed() {
    let mut s = Sudoku::new(true);
    for k in 0..9 {
        let (r, c) = (6 + k / 3, 3 + k % 3);
        if (r, c) != (7, 4) {
            s.eliminate(r, c, 7);
        }
    }
    s.reduce_options();
    assert_eq!(s.unique_option(7, 4), Some(7));
}

#[test]
fn locked_pattern_reveals_cell() {
    // Digit 0 decided in rows 1 and 2 and columns 1 and 2 outside block 0
    // leaves only row 0 and column 0 open for it there.
    let mut s = Sudoku::new(true);
    s.set(1, 3, 0);
    s.set(2, 6, 0);
    s.set(3, 1, 0);
    s.set(6, 2, 0);
    s.reduce_options();
    assert_eq!(s.unique_option(0, 0), Some(0));
}

#[test]
fn generated_puzzle_matches_field() {
    let mut field = Sudoku::identity_sudoku();
    field.shake_randomly();
    let problem = create_puzzle(&field);
    let clues = problem.revealed_count();
    assert!(clues >= 1);
    assert!(clues < 81);
    for r in 0..9 {
        for c in 0..9 {
            if let Some(v) = problem.unique_option(r, c) {
                assert_eq!(field.unique_option(r, c), Some(v));
            } else {
                assert!(problem.empty_option(r, c));
            }
        }
    }
}

#[test]
fn clues_alone_recover_the_field() {
    for _ in 0..3 {
        let mut field = Sudoku::identity_sudoku();
        field.shake_randomly();
        let problem = create_puzzle(&field);
        let mut space = Sudoku::new(true);
        for r in 0..9 {
            for c in 0..9 {
                if let Some(v) = problem.unique_option(r, c) {
                    space.set(r, c, v);
                }
            }
        }
        settle(&mut space);
        assert_eq!(digits(&space), digits(&field));
    }
}

#[test]
fn count_equal_options_counts_shared_candidates() {
    let open = Sudoku::new(true);
    let closed = Sudoku::new(false);
    let id = Sudoku::identity_sudoku();
    assert_eq!(count_equal_options(&open, &open), 729);
    assert_eq!(count_equal_options(&open, &closed), 0);
    assert_eq!(count_equal_options(&open, &id), 81);
}

#[test]
fn revealed_count_counts_decided_cells() {
    let mut s = Sudoku::new(true);
    assert_eq!(s.revealed_count(), 0);
    s.set(0, 0, 1);
    s.set(8, 8, 1);
    assert_eq!(s.revealed_count(), 2);
    assert_eq!(Sudoku::new(false).revealed_count(), 0);
}
