use connect_four::board::{Token, HEIGHT, WIDTH};
use connect_four::game::{DropOutcome, Game};

#[test]
fn cursor_stays_on_the_board() {
    let mut game = Game::new();
    game.move_left();
    assert_eq!(game.cursor_position, 1);
    for _ in 0..10 {
        game.move_right();
    }
    assert_eq!(game.cursor_position, WIDTH);
    game.move_left();
    assert_eq!(game.cursor_position, WIDTH - 1);
}

#[test]
fn turns_alternate_and_a_win_scores() {
    let mut game = Game::new();
    for _ in 0..3 {
        game.cursor_position = 1;
        let outcome = game.drop_token();
        assert_eq!(outcome, DropOutcome::Placed);
        game.finish_turn(outcome);
        assert_eq!(game.current_player, Token::RED);
        game.cursor_position = 2;
        let outcome = game.drop_token();
        assert_eq!(outcome, DropOutcome::Placed);
        game.finish_turn(outcome);
        assert_eq!(game.current_player, Token::YELLOW);
    }
    game.cursor_position = 1;
    let outcome = game.drop_token();
    assert_eq!(outcome, DropOutcome::Win(Token::YELLOW));
    assert_eq!((game.score_yellow, game.score_red), (1, 0));
    assert!(game.board.have_winner_at_column(1));
    game.finish_turn(outcome);
    assert_eq!(game.board.to_number(), 0);
    assert_eq!(game.current_player, Token::RED);
}

#[test]
fn a_full_column_does_not_pass_the_turn() {
    let mut game = Game::new();
    game.cursor_position = 3;
    for _ in 0..HEIGHT {
        let outcome = game.drop_token();
        assert_eq!(outcome, DropOutcome::Placed);
        game.finish_turn(outcome);
    }
    let player = game.current_player;
    let outcome = game.drop_token();
    assert_eq!(outcome, DropOutcome::Blocked);
    game.finish_turn(outcome);
    assert_eq!(game.current_player, player);
}
