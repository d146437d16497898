use connect_four::board::{Board, Token, HEIGHT, WIDTH};
use connect_four::interface::Move;
use connect_four::minimax_bot::{MinimaxBot, MAX_DEPTH};

#[test]
fn test_max() {
    let mut board = Board::new();
    board.add_token(1, &Token::YELLOW).expect("Could not add token");
    board.add_token(2, &Token::YELLOW).expect("Could not add token");
    board.add_token(4, &Token::YELLOW).expect("Could not add token");

    let bot_move = MinimaxBot::max(board.to_number(), Token::YELLOW, Token::RED, 0);
    assert!(bot_move.confidence == 100);
    assert!(bot_move.position == 3);
}

#[test]
fn test_min() {
    let mut board = Board::new();
    board.add_token(1, &Token::YELLOW).expect("Could not add token");
    board.add_token(2, &Token::YELLOW).expect("Could not add token");
    board.add_token(4, &Token::YELLOW).expect("Could not add token");

    let bot_move = MinimaxBot::min(board.to_number(), Token::YELLOW, Token::RED, 0);
    assert!(bot_move.confidence == 0);
    assert!(bot_move.position == 3);
}

#[test]
fn test_minimax() {
    let mut board = Board::new();
    board.add_token(4, &Token::YELLOW).expect("Could not add token");
    board.add_token(4, &Token::YELLOW).expect("Could not add token");
    board.add_token(4, &Token::YELLOW).expect("Could not add token");
    board.add_token(3, &Token::RED).expect("Could not add token");
    board.add_token(7, &Token::RED).expect("Could not add token");
    let bot_move = MinimaxBot::max(board.to_number(), Token::RED, Token::YELLOW, 0);
    assert!(bot_move.position == 4);
}

#[test]
fn immediate_win_at_the_horizon() {
    let mut board = Board::new();
    for column in [1u8, 2, 4] {
        board.add_token(column, &Token::RED).unwrap();
    }
    let bot_move = MinimaxBot::max(board.to_number(), Token::RED, Token::YELLOW, MAX_DEPTH);
    assert_eq!(bot_move.confidence, 100);
    assert_eq!(bot_move.position, 3);
}

#[test]
fn leaves_score_in_the_middle_band() {
    let mut board = Board::new();
    board.add_token(4, &Token::YELLOW).unwrap();
    for _ in 0..20 {
        let bot_move = MinimaxBot::max(board.to_number(), Token::RED, Token::YELLOW, MAX_DEPTH);
        assert!(bot_move.confidence >= 21 && bot_move.confidence <= 39);
        assert!(bot_move.position >= 1 && bot_move.position <= WIDTH);
        let bot_move = MinimaxBot::min(board.to_number(), Token::RED, Token::YELLOW, MAX_DEPTH);
        assert!(bot_move.confidence >= 21 && bot_move.confidence <= 39);
    }
}

fn full_board_but_top_right() -> Board {
    // Columns alternate in pairs so no line of four forms.
    let mut board = Board::new();
    for column in 1..=WIDTH {
        for row in 1..=HEIGHT {
            if column == WIDTH && row == HEIGHT {
                break;
            }
            let color = if ((column - 1) / 2 + row) % 2 == 0 { Token::YELLOW } else { Token::RED };
            board.add_token(column, &color).unwrap();
        }
    }
    board
}

#[test]
fn no_open_column_gives_column_zero() {
    let mut board = full_board_but_top_right();
    board.add_token(WIDTH, &Token::RED).unwrap();
    assert!(board.is_full());
    for depth in [0, MAX_DEPTH] {
        let bot_move = MinimaxBot::max(board.to_number(), Token::RED, Token::YELLOW, depth);
        assert_eq!((bot_move.position, bot_move.confidence), (0, 0));
        let bot_move = MinimaxBot::min(board.to_number(), Token::RED, Token::YELLOW, depth);
        assert_eq!((bot_move.position, bot_move.confidence), (0, 0));
    }
}

#[test]
fn last_cell_that_fills_the_board_is_a_draw() {
    let board = full_board_but_top_right();
    let mut last = Board::from_number(board.to_number());
    last.add_token(WIDTH, &Token::YELLOW).unwrap();
    assert!(!last.have_winner_at_column(WIDTH));
    let bot_move = MinimaxBot::max(board.to_number(), Token::YELLOW, Token::RED, 0);
    assert_eq!((bot_move.position, bot_move.confidence), (WIDTH, 50));
    let bot_move = MinimaxBot::min(board.to_number(), Token::YELLOW, Token::RED, 0);
    assert_eq!((bot_move.position, bot_move.confidence), (WIDTH, 50));
}

#[test]
fn bot_moves_to_the_winning_column_and_drops() {
    let mut board = Board::new();
    for column in [1u8, 2, 4] {
        board.add_token(column, &Token::YELLOW).unwrap();
    }
    let bot = MinimaxBot {};
    assert_eq!(bot.name(), "Bot");
    let moves: Vec<Move> = bot.play(&board, 6, Token::YELLOW).into_iter().collect();
    assert_eq!(moves, vec![Move::LEFT, Move::LEFT, Move::LEFT, Move::DROP]);
    let moves: Vec<Move> = bot.play(&board, 1, Token::YELLOW).into_iter().collect();
    assert_eq!(moves, vec![Move::RIGHT, Move::RIGHT, Move::DROP]);
}
