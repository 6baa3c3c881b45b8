use oh_hi::board::Cell::{Blue as B, Empty as E, Red as R};
use oh_hi::board::{Board, Cell};
use oh_hi::solver::masks::BitsRepr;
use oh_hi::solver::smarter::Smarter;
use oh_hi::solver::{BruteForce, Solver};

fn filled(rows: &[&[Cell]]) -> Board {
    let mut board = Board::new(rows.len());
    for (r, row) in rows.iter().enumerate() {
        for (c, cell) in row.iter().enumerate() {
            board.set(r, c, *cell);
        }
    }
    board
}

fn scan_for_run(board: &Board, row: usize, col: usize) -> bool {
    let n = board.size();
    let cell = |r: usize, c: usize| *board.at(r, c).unwrap();
    let in_row = (0..n.saturating_sub(2))
        .any(|c| cell(row, c) != E && cell(row, c) == cell(row, c + 1) && cell(row, c) == cell(row, c + 2));
    let in_col = (0..n.saturating_sub(2))
        .any(|r| cell(r, col) != E && cell(r, col) == cell(r + 1, col) && cell(r, col) == cell(r + 2, col));
    in_row || in_col
}

#[test]
fn masks_are_built_from_the_board() {
    let mut board = filled(&[&[R, E, B, E], &[E, E, E, E], &[B, B, E, R], &[E, E, E, E]]);
    let solver = Smarter::new_solver(&mut board);
    assert_eq!(solver.rows[0], BitsRepr { reds: 0b0001, blues: 0b0100 });
    assert_eq!(solver.rows[1], BitsRepr { reds: 0, blues: 0 });
    assert_eq!(solver.rows[2], BitsRepr { reds: 0b1000, blues: 0b0011 });
    assert_eq!(solver.cols[0], BitsRepr { reds: 0b0001, blues: 0b0100 });
    assert_eq!(solver.cols[1], BitsRepr { reds: 0, blues: 0b0100 });
    assert_eq!(solver.cols[2], BitsRepr { reds: 0, blues: 0b0001 });
    assert_eq!(solver.cols[3], BitsRepr { reds: 0b0100, blues: 0 });
}

#[test]
fn place_updates_masks_and_board() {
    let mut board = Board::new(4);
    let mut solver = Smarter::new_solver(&mut board);
    assert!(solver.set(1, 2, R));
    assert_eq!(solver.rows[1], BitsRepr { reds: 0b0100, blues: 0 });
    assert_eq!(solver.cols[2], BitsRepr { reds: 0b0010, blues: 0 });
    assert_eq!(solver.board.at(1, 2), Some(&R));
    // A second placement on the same cell replaces the first.
    assert!(solver.set(1, 2, B));
    assert_eq!(solver.rows[1], BitsRepr { reds: 0, blues: 0b0100 });
    assert_eq!(solver.cols[2], BitsRepr { reds: 0, blues: 0b0010 });
    assert_eq!(solver.board.at(1, 2), Some(&B));
    solver.unset(1, 2);
    assert_eq!(solver.rows[1], BitsRepr::default());
    assert_eq!(solver.cols[2], BitsRepr::default());
    assert_eq!(solver.board.at(1, 2), Some(&E));
    assert_eq!(board.at(1, 2), Some(&E));
}

#[test]
fn rows_and_columns_stay_two_views_of_one_board() {
    let mut board = Board::new(6);
    let mut solver = Smarter::new_solver(&mut board);
    let moves = [(0, 0, R), (0, 5, B), (3, 2, R), (5, 5, R), (3, 2, B), (2, 2, B), (0, 0, E)];
    for (row, col, cell) in moves {
        if cell == E {
            solver.unset(row, col);
        } else {
            solver.set(row, col, cell);
        }
        for r in 0..6 {
            for c in 0..6 {
                assert_eq!(solver.rows[r].reds >> c & 1, solver.cols[c].reds >> r & 1);
                assert_eq!(solver.rows[r].blues >> c & 1, solver.cols[c].blues >> r & 1);
                let shown = match (solver.rows[r].reds >> c & 1, solver.rows[r].blues >> c & 1) {
                    (1, 0) => R,
                    (0, 1) => B,
                    (0, 0) => E,
                    _ => panic!("a cell cannot hold both colours"),
                };
                assert_eq!(solver.board.at(r, c), Some(&shown));
            }
        }
    }
}

#[test]
fn place_reports_a_run_in_the_row() {
    let mut board = Board::new(6);
    let mut solver = Smarter::new_solver(&mut board);
    assert!(solver.set(0, 0, R));
    assert!(solver.set(0, 1, R));
    assert!(!solver.set(0, 2, R));
    assert!(solver.set(0, 2, B));
    assert!(solver.set(0, 3, B));
    assert!(!solver.set(0, 4, B));
    solver.unset(0, 4);
    assert!(solver.set(0, 5, B));
    // The cell between two pairs closes a run on either side.
    assert!(!solver.set(0, 4, B));
}

#[test]
fn place_reports_a_run_in_the_column() {
    let mut board = Board::new(6);
    let mut solver = Smarter::new_solver(&mut board);
    assert!(solver.set(5, 3, B));
    assert!(solver.set(3, 3, B));
    assert!(!solver.set(4, 3, B));
    assert!(solver.set(4, 3, R));
    assert!(solver.set(2, 3, B));
    assert!(!solver.set(1, 3, B));
}

#[test]
fn place_at_the_edges_of_a_full_width_board() {
    let mut board = Board::new(32);
    let mut solver = Smarter::new_solver(&mut board);
    assert!(solver.set(0, 31, R));
    assert!(solver.set(0, 30, R));
    assert!(!solver.set(0, 29, R));
    assert_eq!(solver.rows[0].reds, 0xE000_0000);
    solver.unset(0, 29);
    assert!(solver.set(31, 0, B));
    assert!(solver.set(30, 0, B));
    assert!(!solver.set(29, 0, B));
    assert_eq!(solver.cols[0].blues, 0xE000_0000);
}

#[test]
fn window_check_agrees_with_a_full_scan() {
    // Every way to fill a row of six cell by cell: as long as no run was
    // there before, the verdict of the placement equals that of a scan of
    // the whole row and column.
    for code in 0u32..(1 << 6) {
        for order in [[0usize, 1, 2, 3, 4, 5], [5, 4, 3, 2, 1, 0], [2, 0, 4, 1, 5, 3]] {
            let mut board = Board::new(6);
            let mut solver = Smarter::new_solver(&mut board);
            for col in order {
                let cell = if code >> col & 1 == 0 { R } else { B };
                let clean = solver.set(1, col, cell);
                assert_eq!(clean, !scan_for_run(&*solver.board, 1, col));
                if !clean {
                    break;
                }
            }
        }
    }
}

#[test]
fn counting_check_rejects_a_colour_over_quota() {
    let mut board = Board::new(4);
    let mut solver = Smarter::new_solver(&mut board);
    assert!(solver.is_valid());
    solver.set(0, 0, R);
    solver.set(0, 1, R);
    assert!(solver.is_valid());
    solver.set(0, 3, R);
    assert!(!solver.is_valid());
    solver.unset(0, 3);
    assert!(solver.is_valid());
    solver.set(2, 0, R);
    assert!(solver.is_valid());
    solver.set(3, 0, R);
    assert!(!solver.is_valid());
    solver.set(3, 0, B);
    assert!(solver.is_valid());
    solver.set(2, 3, B);
    solver.set(1, 3, B);
    assert!(solver.is_valid());
    solver.set(3, 3, B);
    assert!(!solver.is_valid());
}

#[test]
fn counting_check_rejects_a_filled_line_twice() {
    let mut board = filled(&[&[R, B, R, B], &[E, E, E, E], &[R, B, R, E], &[E, E, E, E]]);
    let mut solver = Smarter::new_solver(&mut board);
    assert!(solver.is_valid());
    solver.set(2, 3, B);
    assert!(!solver.is_valid());
    let mut board = filled(&[&[R, E, R, E], &[B, E, B, E], &[B, E, E, E], &[R, E, R, E]]);
    let mut solver = Smarter::new_solver(&mut board);
    assert!(solver.is_valid());
    solver.set(2, 2, B);
    assert!(!solver.is_valid());
}

#[test]
fn counting_check_says_nothing_on_runs() {
    let mut board = filled(&[
        &[R, R, R, E, E, E],
        &[E, E, E, E, E, E],
        &[E, E, E, E, E, E],
        &[E, E, E, E, E, E],
        &[E, E, E, E, E, E],
        &[E, E, E, E, E, E],
    ]);
    let mut solver = Smarter::new_solver(&mut board);
    assert!(solver.is_valid());
    let mut plain = BruteForce::new_solver(&mut board);
    assert!(!plain.is_valid());
}

#[test]
fn whole_board_check_finds_runs() {
    let mut board = filled(&[&[R, R, E, R], &[E, E, E, E], &[E, E, E, E], &[E, E, E, E]]);
    assert!(BruteForce::new_solver(&mut board).is_valid());
    board.set(0, 2, R);
    assert!(!BruteForce::new_solver(&mut board).is_valid());
    let mut board = filled(&[
        &[R, R, E, E, E, E],
        &[E, E, E, E, E, E],
        &[E, E, E, B, B, E],
        &[E, E, E, E, E, E],
        &[E, E, E, E, E, E],
        &[E, E, E, E, E, E],
    ]);
    assert!(BruteForce::new_solver(&mut board).is_valid());
    board.set(2, 5, B);
    assert!(!BruteForce::new_solver(&mut board).is_valid());
    board.set(2, 5, R);
    assert!(BruteForce::new_solver(&mut board).is_valid());
    board.set(2, 2, B);
    assert!(!BruteForce::new_solver(&mut board).is_valid());
    let mut board = filled(&[&[E, B, E, E], &[E, B, E, E], &[E, B, E, E], &[E, E, E, E]]);
    assert!(!BruteForce::new_solver(&mut board).is_valid());
    let mut board = filled(&[&[E, E, E, B], &[E, E, E, E], &[E, E, E, B], &[E, E, E, B]]);
    assert!(BruteForce::new_solver(&mut board).is_valid());
}

#[test]
fn whole_board_check_leaves_unfinished_lines_alone() {
    // Three reds in a row of four break no rule until the row is filled.
    let mut board = filled(&[&[R, R, E, R], &[E, E, E, E], &[E, E, E, E], &[E, E, E, E]]);
    assert!(BruteForce::new_solver(&mut board).is_valid());
    assert!(!Smarter::new_solver(&mut board).is_valid());
    board.set(0, 2, B);
    assert!(!BruteForce::new_solver(&mut board).is_valid());
    // Two unfinished rows that agree so far are no twins.
    let mut board = filled(&[&[R, B, E, E], &[R, B, E, E], &[E, E, E, E], &[E, E, E, E]]);
    assert!(BruteForce::new_solver(&mut board).is_valid());
    assert!(Smarter::new_solver(&mut board).is_valid());
}

#[test]
fn whole_board_check_finds_twins_and_imbalance() {
    let mut board = filled(&[&[R, B, R, B], &[E, E, E, E], &[E, E, E, E], &[R, B, R, B]]);
    assert!(!BruteForce::new_solver(&mut board).is_valid());
    let mut board = filled(&[&[R, E, E, R], &[B, E, E, B], &[R, E, E, R], &[B, E, E, B]]);
    assert!(!BruteForce::new_solver(&mut board).is_valid());
    let mut board = filled(&[&[R, B, R, R], &[E, E, E, E], &[E, E, E, E], &[E, E, E, E]]);
    assert!(!BruteForce::new_solver(&mut board).is_valid());
    let mut board = filled(&[&[R, B, B, R], &[E, E, E, E], &[E, E, E, E], &[E, E, E, E]]);
    assert!(BruteForce::new_solver(&mut board).is_valid());
}

#[test]
fn checks_agree_on_every_full_four_by_four() {
    let mut legal = 0;
    for code in 0u32..(1 << 16) {
        let mut board = Board::new(4);
        for r in 0..4 {
            for c in 0..4 {
                board.set(r, c, if code >> (r * 4 + c) & 1 == 0 { R } else { B });
            }
        }
        let by_scan = BruteForce::new_solver(&mut board).is_valid();
        let mut any_run = false;
        for r in 0..4 {
            for c in 0..4 {
                any_run = any_run || scan_for_run(&board, r, c);
            }
        }
        let by_masks = Smarter::new_solver(&mut board).is_valid() && !any_run;
        assert_eq!(by_scan, by_masks);
        if by_scan {
            legal += 1;
        }
    }
    assert_eq!(legal, 72);
}
