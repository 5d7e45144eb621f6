use sudoku::board::array_to_board;
use sudoku::grid::SolvingBoard;
use sudoku::cell::SolvingCell;
use sudoku::nav::{inc_carry_over, modulo_add};

#[test]
fn full_cell_holds_every_digit() {
    let c = SolvingCell::full();
    assert_eq!(c.count(), 9);
    assert!(!c.is_definitive());
    assert!(!c.is_invalid());
    assert_eq!(c.definitive_value(), None);
}

#[test]
fn single_cell_gives_its_digit() {
    for d in 1..10u8 {
        let c = SolvingCell::single(d);
        assert_eq!(c.count(), 1);
        assert!(c.is_definitive());
        assert!(c.contains(d));
        assert_eq!(c.definitive_value(), Some(d));
    }
}

#[test]
fn eliminate_down_to_nothing() {
    let mut c = SolvingCell::full();
    c.eliminate(3);
    assert!(!c.contains(3));
    assert_eq!(c.count(), 8);
    c.eliminate(3);
    assert_eq!(c.count(), 8);
    for d in 1..10u8 {
        if d != 7 {
            c.eliminate(d);
        }
    }
    assert_eq!(c.definitive_value(), Some(7));
    c.eliminate(7);
    assert!(c.is_invalid());
    assert_eq!(c.count(), 0);
}

#[test]
fn leave_only_keeps_one() {
    let mut c = SolvingCell::full();
    c.leave_only(4);
    assert_eq!(c.count(), 1);
    assert_eq!(c.definitive_value(), Some(4));
}

#[test]
fn views_list_definitive_values() {
    let mut grid = [[0u8; 9]; 9];
    grid[1][0] = 5;
    grid[1][4] = 6;
    grid[7][4] = 2;
    grid[2][2] = 9;
    let b = SolvingBoard::from_board(array_to_board(grid));
    assert_eq!(b.col(1), vec![5, 6]);
    assert_eq!(b.row(4), vec![6, 2]);
    assert_eq!(b.square(0, 0), vec![5, 9]);
    assert_eq!(b.col(0), Vec::<u8>::new());
}

#[test]
fn group_snapshots_carry_coordinates() {
    let b = SolvingBoard::from_board(array_to_board([[0u8; 9]; 9]));
    let cols = b.all_cols();
    let rows = b.all_rows();
    let squares = b.all_squares();
    assert_eq!(cols.len(), 9);
    assert_eq!((cols[3][5].0, cols[3][5].1), (3, 5));
    assert_eq!((rows[3][5].0, rows[3][5].1), (5, 3));
    assert_eq!((squares[5][0].0, squares[5][0].1), (6, 3));
    assert_eq!((squares[5][4].0, squares[5][4].1), (7, 4));
    assert_eq!(squares[5][4].2.count(), 9);
}

#[test]
fn cursor_wraps() {
    assert_eq!(modulo_add(0, -1, 9), 8);
    assert_eq!(modulo_add(8, 1, 9), 0);
    assert_eq!(modulo_add(4, 1, 9), 5);
    assert_eq!(inc_carry_over((3, 4), 9), (4, 4));
    assert_eq!(inc_carry_over((8, 4), 9), (0, 5));
    assert_eq!(inc_carry_over((8, 8), 9), (0, 0));
}

#[test]
fn default_cell_is_full() {
    let c = SolvingCell::default();
    assert_eq!(c.count(), 9);
    assert!((1..10u8).all(|d| c.contains(d)));
}
