//! A player that searches every sequence of drops a few plies deep and
//! picks the column with the best outcome.
//!
//! Confidence runs from 0 to 100: 100 is a win for the side that searches
//! that cannot be avoided within the horizon, 0 a loss that cannot be
//! avoided, 50 a full board, and at the horizon a random value in `21..=39`
//! stands in for an evaluation.

use vstd::prelude::*;

use crate::board::{
    can_place, column_wins, decode, full, lemma_round_trip, place, Board, Token, CELLS, WIDTH,
};
use crate::interface::{moves_to_target, steps_to, Move};
use crate::random_bot::random_between;
use std::collections::VecDeque;

verus! {

/// Plays the column that a minimax search of `MAX_DEPTH` plies prefers.
pub struct MinimaxBot {}

/// A column and how sure the search is of it.
#[derive(Clone, Copy, Debug, PartialEq, Eq, Structural)]
pub struct BotMove {
    pub confidence: u8,
    pub position: u8,
}

/// How many plies the search looks ahead after the first.
pub const MAX_DEPTH: u8 = 4;

/// No column is open.
pub open spec fn no_column(s: Seq<Option<Token>>) -> bool {
    forall|x: int| 1 <= x <= WIDTH ==> !#[trigger] can_place(s, x)
}

/// How many plies the search still looks ahead from depth `d`.
pub open spec fn plies_left(d: int) -> nat {
    if d < MAX_DEPTH {
        (MAX_DEPTH - d) as nat
    } else {
        0
    }
}

/// Dropping in column `x` wins for the maximizing mover `p`: at once, or
/// because the minimizing reply cannot avoid it.
pub open spec fn max_cand_wins(s: Seq<Option<Token>>, p: Token, o: Token, d: int, x: int) -> bool
    decreases plies_left(d), 0int,
{
    let t = place(s, x, p);
    column_wins(t, x) || (!full(t) && d < MAX_DEPTH && min_wins(t, o, p, d + 1))
}

/// The maximizing mover `p` has a column that wins.
pub open spec fn max_wins(s: Seq<Option<Token>>, p: Token, o: Token, d: int) -> bool
    decreases plies_left(d), 1int,
{
    ||| can_place(s, 1) && max_cand_wins(s, p, o, d, 1)
    ||| can_place(s, 2) && max_cand_wins(s, p, o, d, 2)
    ||| can_place(s, 3) && max_cand_wins(s, p, o, d, 3)
    ||| can_place(s, 4) && max_cand_wins(s, p, o, d, 4)
    ||| can_place(s, 5) && max_cand_wins(s, p, o, d, 5)
    ||| can_place(s, 6) && max_cand_wins(s, p, o, d, 6)
    ||| can_place(s, 7) && max_cand_wins(s, p, o, d, 7)
}

/// Dropping in column `x` by the minimizing mover `p` leaves the maximizer
/// a win that cannot be avoided.
pub open spec fn min_cand_wins(s: Seq<Option<Token>>, p: Token, o: Token, d: int, x: int) -> bool
    decreases plies_left(d), 0int,
{
    let t = place(s, x, p);
    !column_wins(t, x) && !full(t) && d < MAX_DEPTH && max_wins(t, o, p, d + 1)
}

/// Whatever column the minimizing mover `p` plays, the maximizer wins.
pub open spec fn min_wins(s: Seq<Option<Token>>, p: Token, o: Token, d: int) -> bool
    decreases plies_left(d), 1int,
{
    &&& !no_column(s)
    &&& (can_place(s, 1) ==> min_cand_wins(s, p, o, d, 1))
    &&& (can_place(s, 2) ==> min_cand_wins(s, p, o, d, 2))
    &&& (can_place(s, 3) ==> min_cand_wins(s, p, o, d, 3))
    &&& (can_place(s, 4) ==> min_cand_wins(s, p, o, d, 4))
    &&& (can_place(s, 5) ==> min_cand_wins(s, p, o, d, 5))
    &&& (can_place(s, 6) ==> min_cand_wins(s, p, o, d, 6))
    &&& (can_place(s, 7) ==> min_cand_wins(s, p, o, d, 7))
}

/// Dropping in column `x` by the maximizing mover `p` leads to a loss that
/// cannot be avoided.
pub open spec fn max_cand_loses(s: Seq<Option<Token>>, p: Token, o: Token, d: int, x: int) -> bool
    decreases plies_left(d), 0int,
{
    let t = place(s, x, p);
    !column_wins(t, x) && !full(t) && d < MAX_DEPTH && min_loses(t, o, p, d + 1)
}

/// Whatever column the maximizing mover `p` plays, it loses; also where
/// no column is open.
pub open spec fn max_loses(s: Seq<Option<Token>>, p: Token, o: Token, d: int) -> bool
    decreases plies_left(d), 1int,
{
    &&& (can_place(s, 1) ==> max_cand_loses(s, p, o, d, 1))
    &&& (can_place(s, 2) ==> max_cand_loses(s, p, o, d, 2))
    &&& (can_place(s, 3) ==> max_cand_loses(s, p, o, d, 3))
    &&& (can_place(s, 4) ==> max_cand_loses(s, p, o, d, 4))
    &&& (can_place(s, 5) ==> max_cand_loses(s, p, o, d, 5))
    &&& (can_place(s, 6) ==> max_cand_loses(s, p, o, d, 6))
    &&& (can_place(s, 7) ==> max_cand_loses(s, p, o, d, 7))
}

/// Dropping in column `x` by the minimizing mover `p` wins for it: at once,
/// or because the maximizer cannot avoid the loss afterwards.
pub open spec fn min_cand_loses(s: Seq<Option<Token>>, p: Token, o: Token, d: int, x: int) -> bool
    decreases plies_left(d), 0int,
{
    let t = place(s, x, p);
    column_wins(t, x) || (!full(t) && d < MAX_DEPTH && max_loses(t, o, p, d + 1))
}

/// The minimizing mover `p` has a column that wins for it, or no column is
/// open.
pub open spec fn min_loses(s: Seq<Option<Token>>, p: Token, o: Token, d: int) -> bool
    decreases plies_left(d), 1int,
{
    ||| no_column(s)
    ||| can_place(s, 1) && min_cand_loses(s, p, o, d, 1)
    ||| can_place(s, 2) && min_cand_loses(s, p, o, d, 2)
    ||| can_place(s, 3) && min_cand_loses(s, p, o, d, 3)
    ||| can_place(s, 4) && min_cand_loses(s, p, o, d, 4)
    ||| can_place(s, 5) && min_cand_loses(s, p, o, d, 5)
    ||| can_place(s, 6) && min_cand_loses(s, p, o, d, 6)
    ||| can_place(s, 7) && min_cand_loses(s, p, o, d, 7)
}

/// The maximizer's win spelled out over the columns.
proof fn lemma_max_wins(s: Seq<Option<Token>>, p: Token, o: Token, d: int)
    ensures
        max_wins(s, p, o, d) == exists|x: int|
            1 <= x <= WIDTH && can_place(s, x) && #[trigger] max_cand_wins(s, p, o, d, x),
{
    if max_wins(s, p, o, d) {
        if can_place(s, 1) && max_cand_wins(s, p, o, d, 1) {
        } else if can_place(s, 2) && max_cand_wins(s, p, o, d, 2) {
        } else if can_place(s, 3) && max_cand_wins(s, p, o, d, 3) {
        } else if can_place(s, 4) && max_cand_wins(s, p, o, d, 4) {
        } else if can_place(s, 5) && max_cand_wins(s, p, o, d, 5) {
        } else if can_place(s, 6) && max_cand_wins(s, p, o, d, 6) {
        } else {
            assert(can_place(s, 7) && max_cand_wins(s, p, o, d, 7));
        }
    }
    assert forall|x: int| 1 <= x <= WIDTH && can_place(s, x) && #[trigger] max_cand_wins(s, p, o, d, x)
        implies max_wins(s, p, o, d) by {
        assert(x == 1 || x == 2 || x == 3 || x == 4 || x == 5 || x == 6 || x == 7);
    }
}

/// The maximizer's loss spelled out over the columns.
proof fn lemma_max_loses(s: Seq<Option<Token>>, p: Token, o: Token, d: int)
    ensures
        max_loses(s, p, o, d) == forall|x: int|
            1 <= x <= WIDTH && can_place(s, x) ==> #[trigger] max_cand_loses(s, p, o, d, x),
{
    if forall|x: int| 1 <= x <= WIDTH && can_place(s, x) ==> #[trigger] max_cand_loses(s, p, o, d, x) {
        assert(can_place(s, 1) ==> max_cand_loses(s, p, o, d, 1));
        assert(can_place(s, 2) ==> max_cand_loses(s, p, o, d, 2));
        assert(can_place(s, 3) ==> max_cand_loses(s, p, o, d, 3));
        assert(can_place(s, 4) ==> max_cand_loses(s, p, o, d, 4));
        assert(can_place(s, 5) ==> max_cand_loses(s, p, o, d, 5));
        assert(can_place(s, 6) ==> max_cand_loses(s, p, o, d, 6));
        assert(can_place(s, 7) ==> max_cand_loses(s, p, o, d, 7));
    }
    assert forall|x: int| max_loses(s, p, o, d) && 1 <= x <= WIDTH && can_place(s, x)
        implies #[trigger] max_cand_loses(s, p, o, d, x) by {
        assert(x == 1 || x == 2 || x == 3 || x == 4 || x == 5 || x == 6 || x == 7);
    }
}

/// The maximizer's forced win against the minimizer spelled out over the
/// columns.
proof fn lemma_min_wins(s: Seq<Option<Token>>, p: Token, o: Token, d: int)
    ensures
        min_wins(s, p, o, d) == (!no_column(s) && forall|x: int|
            1 <= x <= WIDTH && can_place(s, x) ==> #[trigger] min_cand_wins(s, p, o, d, x)),
{
    if !no_column(s) && forall|x: int| 1 <= x <= WIDTH && can_place(s, x) ==> #[trigger] min_cand_wins(s, p, o, d, x) {
        assert(can_place(s, 1) ==> min_cand_wins(s, p, o, d, 1));
        assert(can_place(s, 2) ==> min_cand_wins(s, p, o, d, 2));
        assert(can_place(s, 3) ==> min_cand_wins(s, p, o, d, 3));
        assert(can_place(s, 4) ==> min_cand_wins(s, p, o, d, 4));
        assert(can_place(s, 5) ==> min_cand_wins(s, p, o, d, 5));
        assert(can_place(s, 6) ==> min_cand_wins(s, p, o, d, 6));
        assert(can_place(s, 7) ==> min_cand_wins(s, p, o, d, 7));
    }
    assert forall|x: int| min_wins(s, p, o, d) && 1 <= x <= WIDTH && can_place(s, x)
        implies #[trigger] min_cand_wins(s, p, o, d, x) by {
        assert(x == 1 || x == 2 || x == 3 || x == 4 || x == 5 || x == 6 || x == 7);
    }
}

/// The minimizer's win spelled out over the columns.
proof fn lemma_min_loses(s: Seq<Option<Token>>, p: Token, o: Token, d: int)
    ensures
        min_loses(s, p, o, d) == (no_column(s) || exists|x: int|
            1 <= x <= WIDTH && can_place(s, x) && #[trigger] min_cand_loses(s, p, o, d, x)),
{
    if min_loses(s, p, o, d) && !no_column(s) {
        if can_place(s, 1) && min_cand_loses(s, p, o, d, 1) {
        } else if can_place(s, 2) && min_cand_loses(s, p, o, d, 2) {
        } else if can_place(s, 3) && min_cand_loses(s, p, o, d, 3) {
        } else if can_place(s, 4) && min_cand_loses(s, p, o, d, 4) {
        } else if can_place(s, 5) && min_cand_loses(s, p, o, d, 5) {
        } else if can_place(s, 6) && min_cand_loses(s, p, o, d, 6) {
        } else {
            assert(can_place(s, 7) && min_cand_loses(s, p, o, d, 7));
        }
    }
    assert forall|x: int| 1 <= x <= WIDTH && can_place(s, x) && #[trigger] min_cand_loses(s, p, o, d, x)
        implies min_loses(s, p, o, d) by {
        assert(x == 1 || x == 2 || x == 3 || x == 4 || x == 5 || x == 6 || x == 7);
    }
}

/// A confidence that is neither a sure win nor a sure loss.
pub open spec fn undecided(c: u8) -> bool {
    c == 50 || 21 <= c <= 39
}

/// The other color.
pub open spec fn opponent(c: Token) -> Token {
    match c {
        Token::YELLOW => Token::RED,
        Token::RED => Token::YELLOW,
    }
}

impl MinimaxBot {
    /// The name shown for this player.
    pub fn name(&self) -> (r: String)
        ensures
            r@ == "Bot"@,
    {
        "Bot".to_owned()
    }

    /// The moves that bring the cursor from `cursor_position` to the column
    /// that the search prefers for `color` on `board`, then drop. The
    /// column is open where any is; where `color` can force a win within
    /// the horizon it is the leftmost column that does; with no open
    /// column the target is column 0.
    pub fn play(&self, board: &Board, cursor_position: u8, color: Token) -> (r: VecDeque<Move>)
        requires
            board.wf(),
        ensures
            exists|target: int|
                {
                    &&& r@ == steps_to(cursor_position as int, target)
                    &&& (target == 0) == no_column(board@)
                    &&& target != 0 ==> can_place(board@, target)
                    &&& max_wins(board@, color, opponent(color), 0) ==> max_cand_wins(
                        board@,
                        color,
                        opponent(color),
                        0,
                        target,
                    ) && forall|x: int|
                        1 <= x < target && can_place(board@, x) ==> !#[trigger] max_cand_wins(
                            board@,
                            color,
                            opponent(color),
                            0,
                            x,
                        )
                },
    {
        let opponent_color = match color {
            Token::YELLOW => Token::RED,
            Token::RED => Token::YELLOW,
        };
        proof {
            lemma_round_trip(board@);
        }
        let target_position = MinimaxBot::max(board.to_number(), color, opponent_color, 0).position;
        moves_to_target(cursor_position, target_position)
    }

    /// The column that the mover `player_color` prefers on the board that
    /// `serialized_board` encodes, `depth` plies into the search. Columns
    /// are tried from the left; a win returns at once, and otherwise the
    /// highest confidence is taken, the rightmost column among equals. With
    /// no open column the result is column 0 with confidence 0.
    pub fn max(serialized_board: u128, player_color: Token, opponent_color: Token, depth: u8) -> (r: BotMove)
        ensures
            ({
                let s = decode(serialized_board as nat, CELLS as nat);
                let (p, o, d) = (player_color, opponent_color, depth as int);
                &&& (r.confidence == 100) == max_wins(s, p, o, d)
                &&& (r.confidence == 0) == max_loses(s, p, o, d)
                &&& (r.position == 0) == no_column(s)
                &&& r.position != 0 ==> can_place(s, r.position as int)
                &&& r.confidence == 100 ==> max_cand_wins(s, p, o, d, r.position as int) && forall|x: int|
                    1 <= x < r.position && can_place(s, x) ==> !#[trigger] max_cand_wins(s, p, o, d, x)
                &&& r.confidence == 0 ==> forall|x: int| r.position < x <= WIDTH ==> !#[trigger] can_place(s, x)
                &&& r.confidence != 0 && r.confidence != 100 ==> undecided(r.confidence) && !max_cand_loses(
                    s,
                    p,
                    o,
                    d,
                    r.position as int,
                )
            }),
        decreases MAX_DEPTH - depth, 1int,
    {
        let ghost s = decode(serialized_board as nat, CELLS as nat);
        let ghost (p, o, d) = (player_color, opponent_color, depth as int);
        proof {
            lemma_max_wins(s, p, o, d);
            lemma_max_loses(s, p, o, d);
            lemma_min_wins(s, p, o, d);
            lemma_min_loses(s, p, o, d);
        }
        let mut best: Option<BotMove> = None;
        let mut x: u8 = 1;
        while x <= WIDTH
            invariant
                1 <= x <= WIDTH + 1,
                s == decode(serialized_board as nat, CELLS as nat),
                p == player_color && o == opponent_color && d == depth,
                forall|y: int| 1 <= y < x && can_place(s, y) ==> !#[trigger] max_cand_wins(s, p, o, d, y),
                (best is None) == (forall|y: int| 1 <= y < x ==> !#[trigger] can_place(s, y)),
                best matches Some(m) ==> {
                    &&& 1 <= m.position < x
                    &&& can_place(s, m.position as int)
                    &&& m.confidence == 0 || undecided(m.confidence)
                    &&& (m.confidence == 0) == (forall|y: int|
                        1 <= y < x && can_place(s, y) ==> #[trigger] max_cand_loses(s, p, o, d, y))
                    &&& m.confidence == 0 ==> forall|y: int| m.position < y < x ==> !#[trigger] can_place(s, y)
                    &&& m.confidence != 0 ==> !max_cand_loses(s, p, o, d, m.position as int)
                },
            decreases WIDTH + 1 - x,
        {
            match MinimaxBot::max_column(serialized_board, player_color, opponent_color, depth, x) {
                Some(confidence) => {
                    if confidence == 100 {
                        proof {
                            assert(exists|y: int|
                                1 <= y <= WIDTH && can_place(s, y) && #[trigger] max_cand_wins(s, p, o, d, y));
                            assert(max_wins(s, p, o, d));
                            assert(!max_cand_loses(s, p, o, d, x as int));
                            assert(!forall|y: int|
                                1 <= y <= WIDTH && can_place(s, y) ==> #[trigger] max_cand_loses(s, p, o, d, y));
                            assert(!max_loses(s, p, o, d));
                            assert(!no_column(s));
                        }
                        return BotMove { position: x, confidence: 100 };
                    }
                    let replace = match best {
                        Some(m) => confidence >= m.confidence,
                        None => true,
                    };
                    if replace {
                        best = Some(BotMove { position: x, confidence });
                    }
                },
                None => {},
            }
            x = x + 1;
        }
        proof {
            assert(!exists|y: int|
                1 <= y <= WIDTH && can_place(s, y) && #[trigger] max_cand_wins(s, p, o, d, y));
            assert(!max_wins(s, p, o, d));
            assert(max_loses(s, p, o, d) == forall|y: int|
                1 <= y <= WIDTH && can_place(s, y) ==> #[trigger] max_cand_loses(s, p, o, d, y));
            if best is None {
                assert(no_column(s));
            } else {
                assert(!no_column(s));
            }
        }
        match best {
            Some(m) => m,
            None => BotMove { position: 0, confidence: 0 },
        }
    }

    /// The column that the mover `player_color` picks against the
    /// maximizer, `depth` plies into the search: a win for the mover
    /// returns at once with confidence 0, and otherwise the lowest
    /// confidence is taken, the leftmost column among equals. With no open
    /// column the result is column 0 with confidence 0.
    pub fn min(serialized_board: u128, player_color: Token, opponent_color: Token, depth: u8) -> (r: BotMove)
        ensures
            ({
                let s = decode(serialized_board as nat, CELLS as nat);
                let (p, o, d) = (player_color, opponent_color, depth as int);
                &&& (r.confidence == 0) == min_loses(s, p, o, d)
                &&& (r.confidence == 100) == min_wins(s, p, o, d)
                &&& (r.position == 0) == no_column(s)
                &&& r.position != 0 ==> can_place(s, r.position as int)
                &&& r.confidence == 0 && r.position != 0 ==> min_cand_loses(s, p, o, d, r.position as int)
                    && forall|x: int|
                    1 <= x < r.position && can_place(s, x) ==> !#[trigger] min_cand_loses(s, p, o, d, x)
                &&& r.confidence == 100 ==> forall|x: int| 1 <= x < r.position ==> !#[trigger] can_place(s, x)
                &&& r.confidence != 0 && r.confidence != 100 ==> undecided(r.confidence) && !min_cand_wins(
                    s,
                    p,
                    o,
                    d,
                    r.position as int,
                )
            }),
        decreases MAX_DEPTH - depth, 1int,
    {
        let ghost s = decode(serialized_board as nat, CELLS as nat);
        let ghost (p, o, d) = (player_color, opponent_color, depth as int);
        proof {
            lemma_max_wins(s, p, o, d);
            lemma_max_loses(s, p, o, d);
            lemma_min_wins(s, p, o, d);
            lemma_min_loses(s, p, o, d);
        }
        let mut best: Option<BotMove> = None;
        let mut x: u8 = 1;
        while x <= WIDTH
            invariant
                1 <= x <= WIDTH + 1,
                s == decode(serialized_board as nat, CELLS as nat),
                p == player_color && o == opponent_color && d == depth,
                forall|y: int| 1 <= y < x && can_place(s, y) ==> !#[trigger] min_cand_loses(s, p, o, d, y),
                (best is None) == (forall|y: int| 1 <= y < x ==> !#[trigger] can_place(s, y)),
                best matches Some(m) ==> {
                    &&& 1 <= m.position < x
                    &&& can_place(s, m.position as int)
                    &&& m.confidence == 100 || undecided(m.confidence)
                    &&& (m.confidence == 100) == (forall|y: int|
                        1 <= y < x && can_place(s, y) ==> #[trigger] min_cand_wins(s, p, o, d, y))
                    &&& m.confidence == 100 ==> forall|y: int| 1 <= y < m.position ==> !#[trigger] can_place(s, y)
                    &&& m.confidence != 100 ==> !min_cand_wins(s, p, o, d, m.position as int)
                },
            decreases WIDTH + 1 - x,
        {
            match MinimaxBot::min_column(serialized_board, player_color, opponent_color, depth, x) {
                Some(confidence) => {
                    if confidence == 0 {
                        proof {
                            assert(exists|y: int|
                                1 <= y <= WIDTH && can_place(s, y) && #[trigger] min_cand_loses(s, p, o, d, y));
                            assert(min_loses(s, p, o, d));
                            assert(!min_cand_wins(s, p, o, d, x as int));
                            assert(!forall|y: int|
                                1 <= y <= WIDTH && can_place(s, y) ==> #[trigger] min_cand_wins(s, p, o, d, y));
                            assert(!min_wins(s, p, o, d));
                            assert(!no_column(s));
                        }
                        return BotMove { position: x, confidence: 0 };
                    }
                    let replace = match best {
                        Some(m) => confidence < m.confidence,
                        None => true,
                    };
                    if replace {
                        best = Some(BotMove { position: x, confidence });
                    }
                },
                None => {},
            }
            x = x + 1;
        }
        proof {
            assert(!exists|y: int|
                1 <= y <= WIDTH && can_place(s, y) && #[trigger] min_cand_loses(s, p, o, d, y));
            assert(min_wins(s, p, o, d) == ((exists|y: int| 1 <= y <= WIDTH && #[trigger] can_place(s, y))
                && forall|y: int| 1 <= y <= WIDTH && can_place(s, y) ==> #[trigger] min_cand_wins(s, p, o, d, y)));
            if best is None {
                assert(no_column(s));
                assert(forall|y: int| 1 <= y <= WIDTH ==> !#[trigger] can_place(s, y));
                assert(min_loses(s, p, o, d));
            } else {
                assert(!no_column(s));
                assert(!min_loses(s, p, o, d));
            }
        }
        match best {
            Some(m) => m,
            None => BotMove { position: 0, confidence: 0 },
        }
    }

    /// What dropping in column `x` is worth to the maximizing mover:
    /// `None` where the column is full; 100 for a win, right away or
    /// forced; 0 for a forced loss; otherwise 50 where the board fills up,
    /// the minimizer's answer below the horizon, or a random value at it.
    fn max_column(serialized_board: u128, player_color: Token, opponent_color: Token, depth: u8, x: u8) -> (r:
        Option<u8>)
        requires
            1 <= x <= WIDTH,
        ensures
            ({
                let s = decode(serialized_board as nat, CELLS as nat);
                let (p, o, d) = (player_color, opponent_color, depth as int);
                &&& (r is None) == !can_place(s, x as int)
                &&& r matches Some(c) ==> {
                    &&& (c == 100) == max_cand_wins(s, p, o, d, x as int)
                    &&& (c == 0) == max_cand_loses(s, p, o, d, x as int)
                    &&& c == 100 || c == 0 || undecided(c)
                }
            }),
        decreases MAX_DEPTH - depth, 0int,
    {
        let ghost s = decode(serialized_board as nat, CELLS as nat);
        let mut board = Board::from_number(serialized_board);
        let placed = board.add_token(x, &player_color);
        if let Ok(true) = placed {
            let ghost t = board@;
            if board.have_winner_at_column(x) {
                // A win right away
                return Some(100);
            }
            if board.is_full() {
                // A draw
                return Some(50);
            }
            if depth < MAX_DEPTH {
                proof {
                    lemma_round_trip(t);
                }
                let recursive_move = MinimaxBot::min(board.to_number(), opponent_color, player_color, depth + 1);
                Some(recursive_move.confidence)
            } else {
                Some(20 + random_between(1, 20))
            }
        } else {
            None
        }
    }

    /// What dropping in column `x` is worth to the maximizer when the
    /// minimizing mover plays it: `None` where the column is full; 0 for a
    /// win of the mover, right away or forced; 100 for a forced win of the
    /// maximizer; otherwise 50 where the board fills up, the maximizer's
    /// answer below the horizon, or a random value at it.
    fn min_column(serialized_board: u128, player_color: Token, opponent_color: Token, depth: u8, x: u8) -> (r:
        Option<u8>)
        requires
            1 <= x <= WIDTH,
        ensures
            ({
                let s = decode(serialized_board as nat, CELLS as nat);
                let (p, o, d) = (player_color, opponent_color, depth as int);
                &&& (r is None) == !can_place(s, x as int)
                &&& r matches Some(c) ==> {
                    &&& (c == 0) == min_cand_loses(s, p, o, d, x as int)
                    &&& (c == 100) == min_cand_wins(s, p, o, d, x as int)
                    &&& c == 100 || c == 0 || undecided(c)
                }
            }),
        decreases MAX_DEPTH - depth, 0int,
    {
        let ghost s = decode(serialized_board as nat, CELLS as nat);
        let mut board = Board::from_number(serialized_board);
        let placed = board.add_token(x, &player_color);
        if let Ok(true) = placed {
            let ghost t = board@;
            if board.have_winner_at_column(x) {
                // The maximizer loses right away
                return Some(0);
            }
            if board.is_full() {
                // A draw
                return Some(50);
            }
            if depth < MAX_DEPTH {
                proof {
                    lemma_round_trip(t);
                }
                let recursive_move = MinimaxBot::max(board.to_number(), opponent_color, player_color, depth + 1);
                Some(recursive_move.confidence)
            } else {
                Some(20 + random_between(1, 20))
            }
        } else {
            None
        }
    }
}

/// A column whose drop wins right away is a win for the maximizer at any
/// depth: by the contract of `MinimaxBot::max` the search then returns
/// confidence 100, at that column unless one to its left wins too.
pub proof fn lemma_immediate_win(s: Seq<Option<Token>>, p: Token, o: Token, d: int, x: int)
    requires
        can_place(s, x),
        column_wins(place(s, x, p), x),
    ensures
        max_cand_wins(s, p, o, d, x),
        max_wins(s, p, o, d),
{
    lemma_max_wins(s, p, o, d);
}

} // verus!
