//! The match referee: the decision core of playing one game between two
//! agents. It classifies warm-up failures, validates each reported move,
//! and resolves sentinels and illegal moves as a loss for the side that
//! sent them.

use crate::board::{Board, BoardView, Player, other_player};
use vstd::prelude::*;

verus! {

/// Exec twin of `other_player`.
pub fn next_player_of(p: Player) -> (r: Player)
    ensures
        r == other_player(p),
{
    if p == Player::X {
        Player::O
    } else {
        Player::X
    }
}

/// The outcome of the warm-up phase: a draw when neither agent got
/// ready, a win for the survivor when exactly one failed, and NEITHER
/// (play begins) when both are ready.
pub fn ready_outcome(x_ready: bool, o_ready: bool) -> (r: Player)
    ensures
        r == (if !x_ready && !o_ready {
            Player::DEAD
        } else if !x_ready {
            Player::O
        } else if !o_ready {
            Player::X
        } else {
            Player::NEITHER
        }),
{
    if !x_ready && !o_ready {
        Player::DEAD
    } else if !x_ready {
        Player::O
    } else if !o_ready {
        Player::X
    } else {
        Player::NEITHER
    }
}

/// A referee for one match, owning the shared board.
pub struct MatchReferee {
    pub board: Board,
}

impl MatchReferee {
    /// The board stays well-formed between calls.
    pub open spec fn wf(&self) -> bool {
        self.board@.wf()
    }

    /// A referee over a fresh two-level board.
    pub fn new() -> (r: MatchReferee)
        ensures
            r.wf(),
            r.board@ == BoardView::init(2),
    {
        MatchReferee { board: Board::new(2) }
    }

    /// Submit the move reported by the side to move. A sentinel or an
    /// illegal move forfeits the game to the other side; a legal move is
    /// applied. Returns the winner afterwards: NEITHER while play goes
    /// on, X, O, or DEAD once the match is decided.
    pub fn submit(&mut self, mv: i64) -> (r: Player)
        requires
            old(self).wf(),
            old(self).board@.winner == Player::NEITHER,
        ensures
            final(self).wf(),
            r == final(self).board@.winner,
            (0 <= mv <= 80 && old(self).board@.move_ok(mv as usize)) ==> final(self).board@ == old(
                self,
            ).board@.spec_make(mv as usize),
            !(0 <= mv <= 80 && old(self).board@.move_ok(mv as usize)) ==> final(self).board@ == (
            BoardView { winner: other_player(old(self).board@.to_move), ..old(self).board@ }),
    {
        if mv < 0 || mv > 80 {
            let loser = self.board.get_to_move();
            let w = next_player_of(loser);
            self.board.winner = w;
            return w;
        }
        let ok = self.board.make_move(mv as usize);
        if !ok {
            let loser = self.board.get_to_move();
            let w = next_player_of(loser);
            self.board.winner = w;
            return w;
        }
        self.board.winner
    }

    /// The winner so far: NEITHER while play goes on.
    pub fn outcome(&self) -> (r: Player)
        ensures
            r == self.board@.winner,
    {
        self.board.winner
    }
}

} // verus!
