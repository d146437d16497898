use connect_four::board::{Board, Token, HEIGHT, WIDTH};

#[test]
fn test_winner() {
    let mut board = Board::new();
    for i in 1..=WIDTH {
        assert!(board.have_winner_at_column(i) == false);
    }
    board.add_token(4, &Token::YELLOW).expect("could not add token");
    assert!(board.have_winner_at_column(4) == false);
    board.add_token(4, &Token::YELLOW).expect("could not add token");
    assert!(board.have_winner_at_column(4) == false);
    board.add_token(4, &Token::YELLOW).expect("could not add token");
    assert!(board.have_winner_at_column(4) == false);
    board.add_token(4, &Token::RED).expect("could not add token");
    assert!(board.have_winner_at_column(4) == false);
    board.add_token(2, &Token::YELLOW).expect("could not add token");
    assert!(board.have_winner_at_column(2) == false);
    board.add_token(2, &Token::YELLOW).expect("could not add token");
    assert!(board.have_winner_at_column(2) == false);
    board.add_token(2, &Token::YELLOW).expect("could not add token");
    assert!(board.have_winner_at_column(2) == false);
    board.add_token(2, &Token::YELLOW).expect("could not add token");
    assert!(board.have_winner_at_column(2) == true);
}

#[test]
fn test_is_full() {
    let mut board = Board::new();
    assert!(!board.is_full());
    for column in 1..=WIDTH {
        for _ in 1..=HEIGHT {
            assert!(!board.is_full());
            board.add_token(column, &Token::YELLOW).expect("could not add token");
        }
    }
    assert!(board.is_full());
}

#[test]
fn test_serializing() {
    let mut board = Board::new();
    let serialized = board.to_number();
    assert!(serialized == 0);
    assert!(Board::from_number(serialized).to_number() == serialized);
    for column in 1..=WIDTH {
        for row in 1..=HEIGHT {
            if (row + column) % 2 == 0 {
                board.add_token(column, &Token::YELLOW).expect("could not add token");
            } else {
                board.add_token(column, &Token::RED).expect("could not add token");
            }
        }
    }
    let board_full = Board::from_number(board.to_number());
    assert!(board_full.is_full());
    assert!(board_full.to_number() == board.to_number());
    assert!(board_full.to_number() > 1);
}

#[test]
fn test_to_string() {
    let mut board = Board::new();
    assert!(board.to_string() == String::from("__________________________________________"));
    board.add_token(1, &Token::YELLOW).expect("Could not add token");
    assert!(board.to_string() == String::from("Y_________________________________________"));
    board.add_token(1, &Token::RED).expect("Could not add token");
    assert!(board.to_string() == String::from("YR________________________________________"));
    board.add_token(2, &Token::RED).expect("Could not add token");
    assert!(board.to_string() == String::from("YR____R___________________________________"));
}

fn drop_all(board: &mut Board, moves: &[(u8, Token)]) {
    for (column, color) in moves {
        assert_eq!(board.add_token(*column, color), Ok(true));
    }
}

#[test]
fn out_of_range_columns_are_errors() {
    let mut board = Board::new();
    assert!(board.add_token(0, &Token::YELLOW).is_err());
    assert!(board.add_token(WIDTH + 1, &Token::RED).is_err());
    assert!(board.add_token(255, &Token::RED).is_err());
    assert_eq!(board.to_number(), 0);
}

#[test]
fn full_column_is_not_an_error() {
    let mut board = Board::new();
    for _ in 1..=HEIGHT {
        assert_eq!(board.add_token(5, &Token::RED), Ok(true));
    }
    let before = board.to_number();
    assert_eq!(board.add_token(5, &Token::YELLOW), Ok(false));
    assert_eq!(board.to_number(), before);
}

#[test]
fn tokens_fall_to_the_lowest_empty_row() {
    let mut board = Board::new();
    drop_all(&mut board, &[(3, Token::YELLOW), (3, Token::RED), (6, Token::RED)]);
    assert_eq!(board.get_color_at_cell(3, 1), Some(&Token::YELLOW));
    assert_eq!(board.get_color_at_cell(3, 2), Some(&Token::RED));
    assert_eq!(board.get_color_at_cell(3, 3), None);
    assert_eq!(board.get_color_at_cell(6, 1), Some(&Token::RED));
    assert_eq!(board.get_color_at_cell(6, 2), None);
    assert_eq!(board.get_color_at_cell(0, 1), None);
    assert_eq!(board.get_color_at_cell(8, 1), None);
    assert_eq!(board.get_color_at_cell(3, 7), None);
}

#[test]
fn encoding_puts_each_cell_at_its_digit() {
    let mut board = Board::new();
    board.add_token(1, &Token::YELLOW).unwrap();
    assert_eq!(board.to_number(), 1);
    board.add_token(2, &Token::RED).unwrap();
    assert_eq!(board.to_number(), 1 + 2 * 3);
    board.add_token(1, &Token::RED).unwrap();
    // cell (1, 2) is digit 7
    assert_eq!(board.to_number(), 1 + 2 * 3 + 2 * 3u128.pow(7));
}

#[test]
fn decoding_round_trips() {
    let mut board = Board::new();
    drop_all(
        &mut board,
        &[(4, Token::YELLOW), (4, Token::RED), (1, Token::RED), (7, Token::YELLOW), (4, Token::YELLOW)],
    );
    let decoded = Board::from_number(board.to_number());
    assert_eq!(decoded.to_string(), board.to_string());
    assert_eq!(decoded.to_number(), board.to_number());
}

#[test]
fn decoding_treats_other_digits_as_empty() {
    // Only the lowest 42 trits are read; the rest is ignored.
    let high = 3u128.pow(42);
    let board = Board::from_number(high + 2);
    assert_eq!(board.get_color_at_cell(1, 1), Some(&Token::RED));
    assert_eq!(board.to_number(), 2);
    let board = Board::from_number(u128::MAX);
    assert!(board.to_number() < high);
    assert_eq!(Board::from_number(board.to_number()).to_number(), board.to_number());
}

#[test]
fn reset_empties_the_board() {
    let mut board = Board::new();
    drop_all(&mut board, &[(2, Token::YELLOW), (2, Token::RED)]);
    board.reset();
    assert_eq!(board.to_number(), 0);
    assert!(!board.is_full());
}

#[test]
fn horizontal_four_wins() {
    let mut board = Board::new();
    drop_all(&mut board, &[(2, Token::RED), (3, Token::RED), (5, Token::RED)]);
    assert!(!board.have_winner_at_column(5));
    drop_all(&mut board, &[(4, Token::RED)]);
    assert!(board.have_winner_at_column(4));
    assert!(board.have_winner_at_column(2));
}

#[test]
fn three_in_a_row_does_not_win() {
    let mut board = Board::new();
    drop_all(&mut board, &[(1, Token::RED), (2, Token::RED), (3, Token::RED), (4, Token::YELLOW)]);
    for column in 1..=WIDTH {
        assert!(!board.have_winner_at_column(column));
    }
}

fn staircase(rising: bool) -> Board {
    // Four yellow tokens on a diagonal, propped up by red ones.
    let mut board = Board::new();
    for step in 0..4u8 {
        let column = if rising { 1 + step } else { 4 - step };
        for _ in 0..step {
            board.add_token(column, &Token::RED).unwrap();
        }
    }
    for step in 0..3u8 {
        let column = if rising { 1 + step } else { 4 - step };
        board.add_token(column, &Token::YELLOW).unwrap();
    }
    board
}

#[test]
fn rising_diagonal_four_wins() {
    let mut board = staircase(true);
    assert!(!board.have_winner_at_column(3));
    board.add_token(4, &Token::YELLOW).unwrap();
    assert!(board.have_winner_at_column(4));
}

#[test]
fn falling_diagonal_four_wins() {
    let mut board = staircase(false);
    assert!(!board.have_winner_at_column(2));
    board.add_token(1, &Token::YELLOW).unwrap();
    assert!(board.have_winner_at_column(1));
    assert!(board.have_winner_at_column(4));
}

#[test]
fn vertical_four_of_mixed_colors_does_not_win() {
    let mut board = Board::new();
    drop_all(&mut board, &[(6, Token::RED), (6, Token::YELLOW), (6, Token::YELLOW), (6, Token::YELLOW)]);
    assert!(!board.have_winner_at_column(6));
    drop_all(&mut board, &[(6, Token::YELLOW)]);
    assert!(board.have_winner_at_column(6));
}

#[test]
fn fullness_needs_every_cell() {
    let mut board = Board::new();
    for column in 1..=WIDTH {
        for row in 1..=HEIGHT {
            if column == WIDTH && row == HEIGHT {
                assert!(!board.is_full());
            }
            let color = if (row / 2 + column) % 2 == 0 { Token::YELLOW } else { Token::RED };
            board.add_token(column, &color).unwrap();
        }
    }
    assert!(board.is_full());
}
