//! The human player: an agent whose moves come from an outside prompt.
//! The decisions live here; reading the input lines is the caller's
//! business.

use crate::board::{Board, BoardView, Player};
use vstd::prelude::*;

verus! {

/// The input that resigns instead of naming a cell.
pub const RESIGN_INPUT: usize = 900;

/// A human-driven player and its view of the game.
pub struct HumanPlayer {
    pub board: Board,
}

impl HumanPlayer {
    /// The board stays well-formed between calls.
    pub open spec fn wf(&self) -> bool {
        self.board@.wf()
    }

    /// A new player on a fresh board. The engine is specialised to the
    /// two-level game.
    pub fn new(max_level_: usize) -> (r: HumanPlayer)
        requires
            max_level_ == 2,
        ensures
            r.wf(),
            r.board@ == BoardView::init(max_level_),
    {
        HumanPlayer { board: Board::new(max_level_) }
    }

    /// Record the opponent's last move on the player's own board, or
    /// nothing when this is the first move of the game.
    pub fn note_opponent(&mut self, last_move: i64) -> (ok: bool)
        requires
            old(self).wf(),
        ensures
            final(self).wf(),
            (last_move == -1) ==> (ok && final(self).board@ == old(self).board@),
            (last_move != -1 && 0 <= last_move <= 80 && old(self).board@.move_ok(
                last_move as usize,
            )) ==> (ok && final(self).board@ == old(self).board@.spec_make(last_move as usize)),
            (last_move != -1 && !(0 <= last_move <= 80 && old(self).board@.move_ok(
                last_move as usize,
            ))) ==> (!ok && final(self).board@ == old(self).board@),
    {
        if last_move == -1 {
            return true;
        }
        if last_move < 0 || last_move > 80 {
            return false;
        }
        self.board.make_move(last_move as usize)
    }

    /// Judge one line of input: the resign input yields the resign
    /// sentinel, a legal cell is played on the board and echoed back,
    /// and anything else asks the caller to prompt again.
    pub fn try_move(&mut self, input: usize) -> (r: Option<i64>)
        requires
            old(self).wf(),
        ensures
            final(self).wf(),
            (input == RESIGN_INPUT) ==> (r == Some(-1i64) && final(self).board@ == old(
                self,
            ).board@),
            (input != RESIGN_INPUT && input <= 80 && old(self).board@.move_ok(input)) ==> (r
                == Some(input as i64) && final(self).board@ == old(self).board@.spec_make(input)),
            (input != RESIGN_INPUT && !(input <= 80 && old(self).board@.move_ok(input))) ==> (r
                is None && final(self).board@ == old(self).board@),
    {
        if input == RESIGN_INPUT {
            return Some(-1);
        }
        if input > 80 {
            return None;
        }
        if self.board.make_move(input) {
            Some(input as i64)
        } else {
            None
        }
    }

    /// The player to move on this player's board.
    pub fn to_move(&self) -> (r: Player)
        ensures
            r == self.board@.to_move,
    {
        self.board.get_to_move()
    }
}

} // verus!
