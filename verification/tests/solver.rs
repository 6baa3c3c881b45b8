use oh_hi::board::{Board, Cell};
use oh_hi::solver::smarter::Smarter;
use oh_hi::solver::{BruteForce, Solver};

use oh_hi::board::Cell::{Blue as B, Empty as E, Red as R};

fn board_of(rows: &[&[Cell]]) -> Board {
    let mut board = Board::new(rows.len());
    for (r, row) in rows.iter().enumerate() {
        assert_eq!(row.len(), rows.len());
        for (c, cell) in row.iter().enumerate() {
            board.set(r, c, *cell);
        }
    }
    board
}

fn cells_of(board: &Board) -> Vec<Vec<Cell>> {
    let n = board.size();
    (0..n).map(|r| (0..n).map(|c| *board.at(r, c).unwrap()).collect()).collect()
}

fn columns_of(rows: &[Vec<Cell>]) -> Vec<Vec<Cell>> {
    let n = rows.len();
    (0..n).map(|c| (0..n).map(|r| rows[r][c]).collect()).collect()
}

fn line_has_run(line: &[Cell]) -> bool {
    line.windows(3).any(|w| w[0] != E && w[0] == w[1] && w[1] == w[2])
}

fn lines_are_solved(lines: &[Vec<Cell>]) -> bool {
    let n = lines.len();
    for (i, line) in lines.iter().enumerate() {
        if line.iter().any(|c| *c == E) || line_has_run(line) {
            return false;
        }
        if line.iter().filter(|c| **c == R).count() * 2 != n {
            return false;
        }
        if line.iter().filter(|c| **c == B).count() * 2 != n {
            return false;
        }
        if lines[i + 1..].iter().any(|other| other == line) {
            return false;
        }
    }
    true
}

fn is_solved(board: &Board) -> bool {
    let rows = cells_of(board);
    lines_are_solved(&rows) && lines_are_solved(&columns_of(&rows))
}

fn keeps(after: &[Vec<Cell>], before: &[Vec<Cell>]) -> bool {
    before.iter().zip(after).all(|(b, a)| b.iter().zip(a).all(|(x, y)| *x == E || x == y))
}

fn smarter(board: &mut Board) -> bool {
    let mut solver = Smarter::new_solver(board);
    solver.solve()
}

fn brute(board: &mut Board) -> bool {
    let mut solver = BruteForce::new_solver(board);
    solver.solve()
}

#[test]
fn empty_two_by_two_gets_the_first_layout() {
    let mut board = Board::new(2);
    assert!(smarter(&mut board));
    assert_eq!(cells_of(&board), vec![vec![R, B], vec![B, R]]);
}

#[test]
fn empty_two_by_two_by_brute_force() {
    let mut board = Board::new(2);
    assert!(brute(&mut board));
    assert_eq!(cells_of(&board), vec![vec![R, B], vec![B, R]]);
}

#[test]
fn two_by_two_with_blue_corner_gets_the_other_layout() {
    let mut board = board_of(&[&[B, E], &[E, E]]);
    assert!(smarter(&mut board));
    assert_eq!(cells_of(&board), vec![vec![B, R], vec![R, B]]);
    let mut board = board_of(&[&[B, E], &[E, E]]);
    assert!(brute(&mut board));
    assert_eq!(cells_of(&board), vec![vec![B, R], vec![R, B]]);
}

#[test]
fn run_in_the_input_is_refused() {
    let start = [&[R, R, R, E][..], &[E, E, E, E], &[E, E, E, E], &[E, E, E, E]];
    let mut board = board_of(&start);
    let before = cells_of(&board);
    assert!(!smarter(&mut board));
    assert_eq!(cells_of(&board), before);
    for row in 1..4 {
        for col in 0..4 {
            assert_eq!(board.at(row, col), Some(&E));
        }
    }
    assert_eq!(board.at(0, 3), Some(&E));
}

#[test]
fn run_in_the_input_is_refused_by_brute_force() {
    let start = [&[R, R, R, E][..], &[E, E, E, E], &[E, E, E, E], &[E, E, E, E]];
    let mut board = board_of(&start);
    let before = cells_of(&board);
    assert!(!brute(&mut board));
    assert_eq!(cells_of(&board), before);
}

#[test]
fn run_far_from_any_empty_cell_is_refused() {
    let mut board = Board::new(8);
    board.set(0, 0, R);
    board.set(0, 1, R);
    board.set(0, 2, R);
    let before = cells_of(&board);
    assert!(!smarter(&mut board));
    assert_eq!(cells_of(&board), before);
    let mut board = Board::new(8);
    board.set(5, 7, B);
    board.set(6, 7, B);
    board.set(7, 7, B);
    let before = cells_of(&board);
    assert!(!smarter(&mut board));
    assert_eq!(cells_of(&board), before);
}

#[test]
fn empty_four_by_four_is_solved() {
    let mut board = Board::new(4);
    assert!(smarter(&mut board));
    assert!(is_solved(&board));
    assert_eq!(
        cells_of(&board),
        vec![vec![R, R, B, B], vec![R, B, R, B], vec![B, R, B, R], vec![B, B, R, R]]
    );
}

#[test]
fn empty_four_by_four_by_brute_force() {
    let mut board = Board::new(4);
    assert!(brute(&mut board));
    assert!(is_solved(&board));
    assert_eq!(
        cells_of(&board),
        vec![vec![R, R, B, B], vec![R, B, R, B], vec![B, R, B, R], vec![B, B, R, R]]
    );
}

#[test]
fn solved_boards_obey_every_rule() {
    for size in [2usize, 4, 6, 8, 10] {
        let mut board = Board::new(size);
        assert!(smarter(&mut board));
        assert!(is_solved(&board));
    }
}

#[test]
fn prefilled_cells_are_kept() {
    let start = [
        &[E, E, B, E, E, E][..],
        &[E, R, E, E, E, B],
        &[E, E, E, E, E, E],
        &[B, E, E, R, E, E],
        &[E, E, E, E, E, E],
        &[E, E, R, E, B, E],
    ];
    let mut board = board_of(&start);
    let before = cells_of(&board);
    assert!(smarter(&mut board));
    assert!(is_solved(&board));
    assert!(keeps(&cells_of(&board), &before));
}

#[test]
fn solving_a_solved_board_changes_nothing() {
    let solved = [&[R, R, B, B][..], &[R, B, R, B], &[B, B, R, R], &[B, R, B, R]];
    let mut board = board_of(&solved);
    let before = cells_of(&board);
    assert!(smarter(&mut board));
    assert_eq!(cells_of(&board), before);
    assert!(brute(&mut board));
    assert_eq!(cells_of(&board), before);
}

#[test]
fn full_board_that_breaks_a_rule_is_refused() {
    let twins = [&[R, B, R, B][..], &[R, B, R, B], &[B, R, B, R], &[B, R, B, R]];
    let mut board = board_of(&twins);
    let before = cells_of(&board);
    assert!(!smarter(&mut board));
    assert_eq!(cells_of(&board), before);
    assert!(!brute(&mut board));
    assert_eq!(cells_of(&board), before);
}

#[test]
fn failed_search_empties_what_it_filled() {
    let start = [&[R, R, E, E][..], &[R, R, E, E], &[E, E, E, E], &[E, E, E, E]];
    let mut board = board_of(&start);
    let before = cells_of(&board);
    assert!(!smarter(&mut board));
    assert_eq!(cells_of(&board), before);
    let mut board = board_of(&start);
    assert!(!brute(&mut board));
    assert_eq!(cells_of(&board), before);
}

#[test]
fn failure_found_late_is_rolled_back() {
    let start = [
        &[R, B, R, B, R, B][..],
        &[B, R, B, R, B, R],
        &[E, E, E, E, E, E],
        &[E, E, E, E, E, E],
        &[B, R, B, R, B, R],
        &[R, B, R, B, R, B],
    ];
    let mut board = board_of(&start);
    let before = cells_of(&board);
    let solved = smarter(&mut board);
    let mut oracle = board_of(&start);
    assert_eq!(solved, brute(&mut oracle));
    assert!(!solved);
    assert_eq!(cells_of(&board), before);
    assert_eq!(cells_of(&oracle), before);
}

#[test]
fn both_solvers_find_the_same_board() {
    let starts: [&[&[Cell]]; 5] = [
        &[&[E, E], &[E, E]],
        &[&[E, B], &[E, E]],
        &[&[E, E, E, E], &[E, B, E, E], &[E, E, E, R], &[E, E, E, E]],
        &[&[B, E, E, E], &[E, E, B, E], &[E, E, E, E], &[R, E, E, B]],
        &[&[R, R, E, E], &[E, E, E, E], &[E, E, B, B], &[E, E, E, E]],
    ];
    for start in starts {
        let mut fast = board_of(start);
        let mut plain = board_of(start);
        let before = cells_of(&fast);
        let solved = smarter(&mut fast);
        assert_eq!(solved, brute(&mut plain));
        assert_eq!(cells_of(&fast), cells_of(&plain));
        if solved {
            assert!(is_solved(&fast));
            assert!(keeps(&cells_of(&fast), &before));
        } else {
            assert_eq!(cells_of(&fast), before);
        }
    }
}

#[test]
fn six_by_six_by_both_solvers() {
    let mut fast = Board::new(6);
    let mut plain = Board::new(6);
    assert!(smarter(&mut fast));
    assert!(brute(&mut plain));
    assert!(is_solved(&fast));
    assert_eq!(cells_of(&fast), cells_of(&plain));
}

#[test]
fn first_solution_is_red_where_solutions_part() {
    let mut board = Board::new(4);
    assert!(smarter(&mut board));
    let first = cells_of(&board);
    // Every other solution of the empty board comes later in reading order.
    let mut others = 0;
    for code in 0u32..(1 << 16) {
        let grid: Vec<Vec<Cell>> = (0..4)
            .map(|r| (0..4).map(|c| if code >> (r * 4 + c) & 1 == 0 { R } else { B }).collect())
            .collect();
        if lines_are_solved(&grid) && lines_are_solved(&columns_of(&grid)) && grid != first {
            others += 1;
            let flat_first: Vec<Cell> = first.iter().flatten().copied().collect();
            let flat_other: Vec<Cell> = grid.iter().flatten().copied().collect();
            let parting = (0..16).find(|i| flat_first[*i] != flat_other[*i]).unwrap();
            assert_eq!(flat_first[parting], R);
            assert_eq!(flat_other[parting], B);
        }
    }
    assert_eq!(others, 71);
}
