use tictactoe::board::{Cell, TicTacToe};

#[test]
fn test_make_board() {
    let ttt = TicTacToe::new();
    assert_eq!(9, ttt.0.len());
}

#[test]
fn test_win() {
    let mut ttt = TicTacToe::new();
    ttt.make_move(0, Some(Cell::O));
    ttt.make_move(4, Some(Cell::O));
    ttt.make_move(8, Some(Cell::O));
    assert_eq!(Some(Cell::O), ttt.check_win());
}

#[test]
fn test_range() {
    let in_range = match 9 {
        0..=8 => true,
        _ => false,
    };
    assert_eq!(false, in_range);
}

fn board_of(xs: &[usize], os: &[usize]) -> TicTacToe {
    let mut b = TicTacToe::new();
    for &i in xs {
        b.make_move(i, Some(Cell::X));
    }
    for &i in os {
        b.make_move(i, Some(Cell::O));
    }
    b
}

#[test]
fn new_board_is_empty_and_has_no_winner() {
    let b = TicTacToe::new();
    assert!(b.0.iter().all(|c| c.is_none()));
    assert_eq!(None, b.check_win());
}

#[test]
fn make_move_overwrites_and_clears() {
    let mut b = TicTacToe::new();
    b.make_move(3, Some(Cell::X));
    assert_eq!(Some(Cell::X), b.0[3]);
    b.make_move(3, Some(Cell::O));
    assert_eq!(Some(Cell::O), b.0[3]);
    b.make_move(3, None);
    assert_eq!(None, b.0[3]);
}

#[test]
fn every_line_is_detected() {
    let lines = [
        [0, 1, 2],
        [3, 4, 5],
        [6, 7, 8],
        [0, 3, 6],
        [1, 4, 7],
        [2, 5, 8],
        [0, 4, 8],
        [2, 4, 6],
    ];
    for line in lines.iter() {
        assert_eq!(Some(Cell::X), board_of(line, &[]).check_win());
        assert_eq!(Some(Cell::O), board_of(&[], line).check_win());
    }
}

#[test]
fn win_below_an_empty_top_row_is_detected() {
    let b = board_of(&[6, 7, 8], &[3, 4]);
    assert_eq!(Some(Cell::X), b.check_win());
}

#[test]
fn no_winner_on_a_full_drawn_board() {
    let b = board_of(&[0, 2, 3, 7, 8], &[1, 4, 5, 6]);
    assert_eq!(None, b.check_win());
}

#[test]
fn two_marks_of_a_line_are_no_win() {
    let b = board_of(&[0, 1], &[4, 8]);
    assert_eq!(None, b.check_win());
}

#[test]
fn first_line_in_table_order_decides() {
    let b = board_of(&[3, 4, 5], &[0, 1, 2]);
    assert_eq!(Some(Cell::O), b.check_win());
}
