//! What a player hands to the game: cursor moves and a drop.

use vstd::prelude::*;

use std::collections::VecDeque;

verus! {

/// One action of a player: move the cursor one column, or drop a token
/// under it.
#[allow(non_camel_case_types)]
#[derive(Clone, Copy, Debug, PartialEq, Eq, Structural)]
pub enum Move {
    LEFT,
    RIGHT,
    DROP,
}

/// The actions that bring the cursor from column `cursor` to column
/// `target` one step at a time, then drop.
pub open spec fn steps_to(cursor: int, target: int) -> Seq<Move> {
    if target > cursor {
        Seq::new((target - cursor) as nat, |_i: int| Move::RIGHT).push(Move::DROP)
    } else {
        Seq::new((cursor - target) as nat, |_i: int| Move::LEFT).push(Move::DROP)
    }
}

/// The moves from column `cursor_position` to column `target_position`,
/// ending with a drop.
pub fn moves_to_target(cursor_position: u8, target_position: u8) -> (r: VecDeque<Move>)
    ensures
        r@ == steps_to(cursor_position as int, target_position as int),
{
    let mut moves: VecDeque<Move> = VecDeque::new();
    let (step, from, to) = if target_position > cursor_position {
        (Move::RIGHT, cursor_position, target_position)
    } else {
        (Move::LEFT, target_position, cursor_position)
    };
    let mut i: u8 = from;
    while i < to
        invariant
            from <= i <= to,
            moves@ == Seq::new((i - from) as nat, |_j: int| step),
        decreases to - i,
    {
        moves.push_back(step);
        i = i + 1;
        assert(moves@ =~= Seq::new((i - from) as nat, |_j: int| step));
    }
    moves.push_back(Move::DROP);
    proof {
        if target_position > cursor_position {
            assert(moves@ =~= steps_to(cursor_position as int, target_position as int));
        } else {
            assert(moves@ =~= steps_to(cursor_position as int, target_position as int));
        }
    }
    moves
}

} // verus!
