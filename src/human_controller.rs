//! A player at the keyboard: each key press becomes at most one action.

use vstd::prelude::*;

use crate::interface::Move;

verus! {

/// Plays what the person at the keyboard types.
pub struct HumanController {}

/// A key press, as far as the game tells keys apart.
#[derive(Clone, Copy, Debug, PartialEq, Eq, Structural)]
pub enum Key {
    Left,
    Right,
    Char(char),
    Other,
}

/// What a key press asks of the player.
#[derive(Clone, Copy, Debug, PartialEq, Eq, Structural)]
pub enum KeyResponse {
    /// Queue this action and end the turn's input.
    Queue(Move),
    /// A request to quit: hand the key back to the game and queue nothing.
    Stop,
    /// Not a game key: wait for the next one.
    Wait,
}

/// The escape character.
pub const ESCAPE: char = '\x1B';

impl HumanController {
    /// The name shown for this player.
    pub fn name(&self) -> (r: String)
        ensures
            r@ == "Human"@,
    {
        "Human".to_owned()
    }

    /// The arrow keys move the cursor, space drops, `q` and escape quit;
    /// any other key is ignored.
    pub fn respond(key: Key) -> (r: KeyResponse)
        ensures
            r == (match key {
                Key::Left => KeyResponse::Queue(Move::LEFT),
                Key::Right => KeyResponse::Queue(Move::RIGHT),
                Key::Char(c) => if c == ' ' {
                    KeyResponse::Queue(Move::DROP)
                } else if c == 'q' || c == ESCAPE {
                    KeyResponse::Stop
                } else {
                    KeyResponse::Wait
                },
                Key::Other => KeyResponse::Wait,
            }),
    {
        match key {
            Key::Left => KeyResponse::Queue(Move::LEFT),
            Key::Right => KeyResponse::Queue(Move::RIGHT),
            Key::Char(c) => {
                if c == ' ' {
                    KeyResponse::Queue(Move::DROP)
                } else if c == 'q' || c == ESCAPE {
                    KeyResponse::Stop
                } else {
                    KeyResponse::Wait
                }
            },
            Key::Other => KeyResponse::Wait,
        }
    }
}

} // verus!
