use connect_four::board::{Board, Token, WIDTH};
use connect_four::human_controller::{HumanController, Key, KeyResponse};
use connect_four::interface::{moves_to_target, Move};
use connect_four::random_bot::RandomBot;

#[test]
fn moves_to_target_steps_then_drops() {
    let moves: Vec<Move> = moves_to_target(2, 5).into_iter().collect();
    assert_eq!(moves, vec![Move::RIGHT, Move::RIGHT, Move::RIGHT, Move::DROP]);
    let moves: Vec<Move> = moves_to_target(7, 1).into_iter().collect();
    assert_eq!(moves.len(), 7);
    assert!(moves[..6].iter().all(|m| *m == Move::LEFT));
    let moves: Vec<Move> = moves_to_target(4, 4).into_iter().collect();
    assert_eq!(moves, vec![Move::DROP]);
}

#[test]
fn random_bot_targets_a_column_on_the_board() {
    let bot = RandomBot {};
    assert_eq!(bot.name(), "Random Bot");
    let board = Board::new();
    let mut seen = [false; 8];
    for _ in 0..500 {
        let moves: Vec<Move> = bot.play(&board, 1, Token::RED).into_iter().collect();
        assert_eq!(moves.last(), Some(&Move::DROP));
        assert!(moves[..moves.len() - 1].iter().all(|m| *m == Move::RIGHT));
        let target = moves.len() as u8;
        assert!(target >= 1 && target <= WIDTH);
        seen[target as usize] = true;
    }
    assert!(seen[1..].iter().filter(|s| **s).count() > 1);
}

#[test]
fn human_keys_map_to_actions() {
    let human = HumanController {};
    assert_eq!(human.name(), "Human");
    assert_eq!(HumanController::respond(Key::Left), KeyResponse::Queue(Move::LEFT));
    assert_eq!(HumanController::respond(Key::Right), KeyResponse::Queue(Move::RIGHT));
    assert_eq!(HumanController::respond(Key::Char(' ')), KeyResponse::Queue(Move::DROP));
    assert_eq!(HumanController::respond(Key::Char('q')), KeyResponse::Stop);
    assert_eq!(HumanController::respond(Key::Char('\x1B')), KeyResponse::Stop);
    assert_eq!(HumanController::respond(Key::Char('x')), KeyResponse::Wait);
    assert_eq!(HumanController::respond(Key::Other), KeyResponse::Wait);
}
