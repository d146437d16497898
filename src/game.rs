//! The state of a match between two players and the rules of a turn: the
//! cursor, whose turn it is, the scores, and what a drop leads to. Drawing
//! and reading keys are left to the caller.

use vstd::prelude::*;

use crate::board::{can_place, column_wins, empty_cells, full, place, Board, Token, WIDTH};
use crate::minimax_bot::opponent;

verus! {

/// What a drop led to.
#[derive(Clone, Copy, Debug, PartialEq, Eq, Structural)]
pub enum DropOutcome {
    /// The column under the cursor is full: nothing changed.
    Blocked,
    /// The token was placed and the game goes on.
    Placed,
    /// The token completed a line of four for this color.
    Win(Token),
    /// The token filled the board without a win.
    Draw,
}

/// A match in progress.
pub struct Game {
    pub board: Board,
    pub score_yellow: u8,
    pub score_red: u8,
    pub cursor_position: u8,
    pub current_player: Token,
}

/// One more point, staying at the largest score.
pub open spec fn bumped(score: u8) -> u8 {
    if score < u8::MAX {
        (score + 1) as u8
    } else {
        score
    }
}

impl Game {
    /// A valid board and the cursor over a column.
    pub open spec fn wf(&self) -> bool {
        self.board.wf() && 1 <= self.cursor_position <= WIDTH
    }

    /// An empty board, no points, the cursor over the first column and
    /// yellow to play.
    pub fn new() -> (r: Game)
        ensures
            r.wf(),
            r.board@ == empty_cells(),
            r.score_yellow == 0 && r.score_red == 0,
            r.cursor_position == 1,
            r.current_player == Token::YELLOW,
    {
        Game {
            board: Board::new(),
            score_yellow: 0,
            score_red: 0,
            cursor_position: 1,
            current_player: Token::YELLOW,
        }
    }

    /// Moves the cursor one column left, if it is not at the first.
    pub fn move_left(&mut self)
        requires
            old(self).wf(),
        ensures
            final(self).wf(),
            final(self).cursor_position == if old(self).cursor_position > 1 {
                (old(self).cursor_position - 1) as u8
            } else {
                old(self).cursor_position
            },
            final(self).board@ == old(self).board@,
            final(self).score_yellow == old(self).score_yellow,
            final(self).score_red == old(self).score_red,
            final(self).current_player == old(self).current_player,
    {
        if self.cursor_position > 1 {
            self.cursor_position = self.cursor_position - 1;
        }
    }

    /// Moves the cursor one column right, if it is not at the last.
    pub fn move_right(&mut self)
        requires
            old(self).wf(),
        ensures
            final(self).wf(),
            final(self).cursor_position == if old(self).cursor_position < WIDTH {
                (old(self).cursor_position + 1) as u8
            } else {
                old(self).cursor_position
            },
            final(self).board@ == old(self).board@,
            final(self).score_yellow == old(self).score_yellow,
            final(self).score_red == old(self).score_red,
            final(self).current_player == old(self).current_player,
    {
        if self.cursor_position < WIDTH {
            self.cursor_position = self.cursor_position + 1;
        }
    }

    /// Drops the current player's token under the cursor. A win scores a
    /// point for that player. The board keeps the final position and the
    /// turn does not pass yet: see `finish_turn`.
    pub fn drop_token(&mut self) -> (r: DropOutcome)
        requires
            old(self).wf(),
        ensures
            ({
                let (s, col, c) = (old(self).board@, old(self).cursor_position as int, old(self).current_player);
                &&& final(self).wf()
                &&& final(self).board@ == place(s, col, c)
                &&& r == (if !can_place(s, col) {
                    DropOutcome::Blocked
                } else if column_wins(place(s, col, c), col) {
                    DropOutcome::Win(c)
                } else if full(place(s, col, c)) {
                    DropOutcome::Draw
                } else {
                    DropOutcome::Placed
                })
                &&& final(self).score_yellow == if r == DropOutcome::Win(Token::YELLOW) {
                    bumped(old(self).score_yellow)
                } else {
                    old(self).score_yellow
                }
                &&& final(self).score_red == if r == DropOutcome::Win(Token::RED) {
                    bumped(old(self).score_red)
                } else {
                    old(self).score_red
                }
                &&& final(self).cursor_position == old(self).cursor_position
                &&& final(self).current_player == c
            }),
    {
        match self.board.add_token(self.cursor_position, &self.current_player) {
            Ok(true) => {
                if self.board.have_winner_at_column(self.cursor_position) {
                    match self.current_player {
                        Token::YELLOW => {
                            if self.score_yellow < u8::MAX {
                                self.score_yellow = self.score_yellow + 1;
                            }
                        },
                        Token::RED => {
                            if self.score_red < u8::MAX {
                                self.score_red = self.score_red + 1;
                            }
                        },
                    }
                    DropOutcome::Win(self.current_player)
                } else if self.board.is_full() {
                    DropOutcome::Draw
                } else {
                    DropOutcome::Placed
                }
            },
            _ => DropOutcome::Blocked,
        }
    }

    /// Ends the turn that `outcome` describes: after a win or a draw the
    /// board is cleared, and whenever a token was placed the other player
    /// moves next.
    pub fn finish_turn(&mut self, outcome: DropOutcome)
        requires
            old(self).wf(),
        ensures
            final(self).wf(),
            final(self).board@ == (match outcome {
                DropOutcome::Win(_) | DropOutcome::Draw => empty_cells(),
                _ => old(self).board@,
            }),
            final(self).current_player == (match outcome {
                DropOutcome::Blocked => old(self).current_player,
                _ => opponent(old(self).current_player),
            }),
            final(self).score_yellow == old(self).score_yellow,
            final(self).score_red == old(self).score_red,
            final(self).cursor_position == old(self).cursor_position,
    {
        match outcome {
            DropOutcome::Win(_) | DropOutcome::Draw => self.board.reset(),
            _ => {},
        }
        match outcome {
            DropOutcome::Blocked => {},
            _ => {
                self.current_player = match self.current_player {
                    Token::YELLOW => Token::RED,
                    Token::RED => Token::YELLOW,
                };
            },
        }
    }
}

} // verus!
