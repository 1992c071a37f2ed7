use tictactoe::board::{Cell, TicTacToe};

fn board_of(xs: &[usize], os: &[usize]) -> TicTacToe {
    let mut b = TicTacToe::new();
    for &i in xs {
        b.make_move(i, Some(Cell::X));
    }
    for &i in os {
        b.make_move(i, Some(Cell::O));
    }
    b
}

#[test]
fn empty_board_is_a_draw_under_optimal_play() {
    let b = TicTacToe::new();
    let (m, s) = b.minimax(0, true, i8::MIN, i8::MAX);
    assert_eq!(-1, s);
    assert!((0..9).contains(&m));
}

#[test]
fn engine_against_engine_ends_in_a_draw() {
    let mut b = TicTacToe::new();
    let mut depth: i8 = 0;
    while depth < 9 && b.check_win().is_none() {
        let maximizing = depth % 2 == 0;
        let (m, s) = b.minimax(depth, maximizing, i8::MIN, i8::MAX);
        assert_eq!(-1, s);
        assert!(m >= 0 && m < 9);
        assert!(b.0[m as usize].is_none());
        let mark = if maximizing { Cell::X } else { Cell::O };
        b.make_move(m as usize, Some(mark));
        depth += 1;
    }
    assert_eq!(9, depth);
    assert_eq!(None, b.check_win());
}

#[test]
fn immediate_win_is_taken_with_depth_adjusted_score() {
    // X at 0 and 1, O at 3 and 4: X completes the top row at depth 5.
    let b = board_of(&[0, 1], &[3, 4]);
    assert_eq!((2, 5), b.minimax(4, true, i8::MIN, i8::MAX));
}

#[test]
fn immediate_win_for_o_is_taken() {
    // X at 0, 1, 8; O at 3, 4: O completes the middle row at depth 6.
    let b = board_of(&[0, 1, 8], &[3, 4]);
    assert_eq!((5, -4), b.minimax(5, false, i8::MIN, i8::MAX));
}

#[test]
fn o_blocks_the_threatened_line() {
    // X threatens the top row at 2; O has no win of its own.
    let b = board_of(&[0, 1], &[4]);
    let (m, _) = b.minimax(3, false, i8::MIN, i8::MAX);
    assert_eq!(2, m);
}

#[test]
fn x_blocks_the_threatened_line() {
    // O threatens the diagonal 2-4-6 at 6; X has no win of its own.
    let b = board_of(&[0, 7], &[2, 4]);
    let (m, _) = b.minimax(4, true, i8::MIN, i8::MAX);
    assert_eq!(6, m);
}

#[test]
fn o_answers_center_with_a_corner() {
    let mut b = TicTacToe::new();
    b.make_move(4, Some(Cell::X));
    let (m, s) = b.minimax(1, false, i8::MIN, i8::MAX);
    assert_eq!(0, m);
    assert_eq!(-1, s);
}

#[test]
fn completed_line_is_reported_at_once() {
    let mut b = board_of(&[0, 8], &[4]);
    assert_eq!(None, b.check_win());
    b.make_move(2, Some(Cell::X));
    b.make_move(6, Some(Cell::O));
    b.make_move(5, Some(Cell::X));
    assert_eq!(Some(Cell::X), b.check_win());
}

#[test]
fn terminal_positions_score_without_a_move() {
    let won_x = board_of(&[0, 1, 2], &[3, 4]);
    assert_eq!((-1, 5), won_x.minimax(5, false, i8::MIN, i8::MAX));
    let won_o = board_of(&[0, 1, 8], &[3, 4, 5]);
    assert_eq!((-1, -4), won_o.minimax(6, true, i8::MIN, i8::MAX));
    let drawn = board_of(&[0, 2, 3, 7, 8], &[1, 4, 5, 6]);
    assert_eq!((-1, -1), drawn.minimax(9, true, i8::MIN, i8::MAX));
}

#[test]
fn ties_keep_the_lowest_index() {
    // On the empty board every first move of X draws; slot 0 comes first.
    let b = TicTacToe::new();
    assert_eq!((0, -1), b.minimax(0, true, i8::MIN, i8::MAX));
}

fn plain_minimax(b: &TicTacToe, depth: i8, maximizing: bool) -> (i8, i8) {
    match b.check_win() {
        Some(Cell::X) => return (-1, 10 - depth),
        Some(Cell::O) => return (-1, depth - 10),
        None => {
            if depth == 9 {
                return (-1, -1);
            }
        }
    }
    let mut best: (i8, i8) = (-1, if maximizing { i8::MIN } else { i8::MAX });
    for i in 0..9 {
        if b.0[i].is_some() {
            continue;
        }
        let mut child = *b;
        child.make_move(i, Some(if maximizing { Cell::X } else { Cell::O }));
        let s = plain_minimax(&child, depth + 1, !maximizing).1;
        if (maximizing && s > best.1) || (!maximizing && s < best.1) {
            best = (i as i8, s);
        }
    }
    best
}

#[test]
fn pruning_agrees_with_plain_minimax() {
    let samples: [(&[usize], &[usize]); 6] = [
        (&[4], &[]),
        (&[0], &[]),
        (&[0, 8], &[4]),
        (&[1, 3], &[0]),
        (&[0, 5], &[4, 2]),
        (&[4, 0, 7], &[8, 1]),
    ];
    for (xs, os) in samples.iter() {
        let b = board_of(xs, os);
        let depth = (xs.len() + os.len()) as i8;
        let maximizing = xs.len() == os.len();
        assert_eq!(
            plain_minimax(&b, depth, maximizing),
            b.minimax(depth, maximizing, i8::MIN, i8::MAX)
        );
    }
}
