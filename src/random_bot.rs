//! A player that drops its token in a column picked at random.

use rand::Rng;
use vstd::prelude::*;

use crate::board::{Board, Token, WIDTH};
use crate::interface::{moves_to_target, steps_to, Move};
use std::collections::VecDeque;

verus! {

/// Relies on `rand::Rng::gen_range` with the thread-local generator: a value
/// in `low..high`; it panics unless `low < high`.
#[verifier::external_body]
pub(crate) fn random_between(low: u8, high: u8) -> (r: u8)
    requires
        low < high,
    ensures
        low <= r < high,
{
    rand::thread_rng().gen_range(low, high)
}

/// Plays a uniformly random column, whatever the board holds.
pub struct RandomBot {}

impl RandomBot {
    /// The name shown for this player.
    pub fn name(&self) -> (r: String)
        ensures
            r@ == "Random Bot"@,
    {
        "Random Bot".to_owned()
    }

    /// The moves that bring the cursor from `cursor_position` to a column
    /// drawn at random from `1..=WIDTH`, then drop.
    pub fn play(&self, _board: &Board, cursor_position: u8, _color: Token) -> (r: VecDeque<Move>)
        ensures
            exists|target: int| 1 <= target <= WIDTH && r@ == steps_to(cursor_position as int, target),
    {
        let target_position = random_between(1, WIDTH + 1);
        moves_to_target(cursor_position, target_position)
    }
}

} // verus!
