use oh_hi::board::{Board, BoardBuilder, Cell};

#[test]
fn new_board_is_empty() {
    let board = Board::new(4);
    assert_eq!(board.size(), 4);
    for row in 0..4 {
        for col in 0..4 {
            assert_eq!(board.at(row, col), Some(&Cell::Empty));
        }
    }
}

#[test]
fn smallest_board_has_four_cells() {
    let board = Board::new(2);
    assert_eq!(board.size(), 2);
    assert_eq!(board.at(1, 1), Some(&Cell::Empty));
    assert_eq!(board.at(2, 0), None);
}

#[test]
fn default_cell_is_empty() {
    assert_eq!(Cell::default(), Cell::Empty);
}

#[test]
fn at_rejects_positions_off_the_board() {
    let mut board = Board::new(4);
    board.set(1, 0, Cell::Red);
    assert_eq!(board.at(4, 0), None);
    assert_eq!(board.at(0, 4), None);
    assert_eq!(board.at(4, 4), None);
    assert_eq!(board.at(usize::MAX, usize::MAX), None);
    assert_eq!(board.at(usize::MAX, 0), None);
    assert_eq!(board.at(0, usize::MAX), None);
    assert_eq!(board.at(1, 0), Some(&Cell::Red));
}

#[test]
fn set_writes_one_cell() {
    let mut board = Board::new(4);
    board.set(2, 3, Cell::Blue);
    for row in 0..4 {
        for col in 0..4 {
            let expected = if row == 2 && col == 3 { Cell::Blue } else { Cell::Empty };
            assert_eq!(board.at(row, col), Some(&expected));
        }
    }
    board.set(2, 3, Cell::Red);
    assert_eq!(board.at(2, 3), Some(&Cell::Red));
}

#[test]
fn set_off_the_board_changes_nothing() {
    let mut board = Board::new(4);
    board.set(0, 4, Cell::Red);
    board.set(4, 0, Cell::Blue);
    board.set(7, 9, Cell::Blue);
    for row in 0..4 {
        for col in 0..4 {
            assert_eq!(board.at(row, col), Some(&Cell::Empty));
        }
    }
}

#[test]
fn unset_empties_the_cell() {
    let mut board = Board::new(2);
    board.set(0, 1, Cell::Red);
    board.set(1, 1, Cell::Blue);
    board.unset(0, 1);
    assert_eq!(board.at(0, 1), Some(&Cell::Empty));
    assert_eq!(board.at(1, 1), Some(&Cell::Blue));
    board.unset(5, 5);
    assert_eq!(board.at(1, 1), Some(&Cell::Blue));
}

#[test]
fn at_mut_hands_out_the_cell() {
    let mut board = Board::new(4);
    match board.at_mut(3, 1) {
        Some(cell) => {
            assert_eq!(*cell, Cell::Empty);
            *cell = Cell::Red;
        }
        None => panic!("the position lies on the board"),
    }
    assert_eq!(board.at(3, 1), Some(&Cell::Red));
    assert_eq!(board.at(1, 3), Some(&Cell::Empty));
    assert!(board.at_mut(0, 4).is_none());
    assert!(board.at_mut(4, 0).is_none());
}

#[test]
fn clone_is_independent() {
    let mut board = Board::new(2);
    board.set(0, 0, Cell::Red);
    let mut copy = board.clone();
    copy.set(1, 1, Cell::Blue);
    assert_eq!(board.at(1, 1), Some(&Cell::Empty));
    assert_eq!(copy.at(0, 0), Some(&Cell::Red));
    assert_eq!(copy.at(1, 1), Some(&Cell::Blue));
    assert_eq!(copy.size(), 2);
}

#[test]
fn builder_inserts_fluently() {
    let board = Board::builder(4)
        .insert(0, 0, Cell::Red)
        .insert(1, 2, Cell::Blue)
        .insert(3, 3, Cell::Red)
        .build();
    assert_eq!(board.size(), 4);
    assert_eq!(board.at(0, 0), Some(&Cell::Red));
    assert_eq!(board.at(1, 2), Some(&Cell::Blue));
    assert_eq!(board.at(3, 3), Some(&Cell::Red));
    assert_eq!(board.at(2, 1), Some(&Cell::Empty));
}

#[test]
fn builder_ignores_positions_off_the_board() {
    let board = BoardBuilder::new(2)
        .insert(0, 2, Cell::Red)
        .insert(2, 0, Cell::Blue)
        .insert(1, 0, Cell::Blue)
        .build();
    assert_eq!(board.at(0, 0), Some(&Cell::Empty));
    assert_eq!(board.at(0, 1), Some(&Cell::Empty));
    assert_eq!(board.at(1, 0), Some(&Cell::Blue));
    assert_eq!(board.at(1, 1), Some(&Cell::Empty));
}

#[test]
fn built_board_is_a_snapshot() {
    let mut builder = Board::builder(2);
    builder.insert(0, 0, Cell::Red);
    let first = builder.build();
    builder.insert(0, 0, Cell::Blue).insert(1, 1, Cell::Red);
    let second = builder.build();
    assert_eq!(first.at(0, 0), Some(&Cell::Red));
    assert_eq!(first.at(1, 1), Some(&Cell::Empty));
    assert_eq!(second.at(0, 0), Some(&Cell::Blue));
    assert_eq!(second.at(1, 1), Some(&Cell::Red));
}
