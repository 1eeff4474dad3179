//! The common interface of the in-process playing agents.

use vstd::prelude::*;

verus! {

/// A playing agent. Negative returns from `get_move` are sentinels:
/// `-1` means resign (or timeout), `-2` a protocol fault or an illegal
/// move.
pub trait AI: Sized {
    /// Validity the agent maintains between calls.
    spec fn wf(&self) -> bool;

    /// What one call of `get_move` does: how the returned move and the
    /// agent's new state relate to its old state and the opponent's
    /// move. Each agent defines this relation; `get_move` promises it.
    spec fn move_spec(pre: Self, post: Self, last_move: i64, r: i64) -> bool;

    /// The move the agent wants to make, given that the opponent's last
    /// move was `last_move`, or `-1` when this is the first move of the
    /// game.
    fn get_move(&mut self, last_move: i64) -> (r: i64)
        requires
            old(self).wf(),
            -1 <= last_move <= 80,
        ensures
            final(self).wf(),
            -2 <= r <= 80,
            Self::move_spec(*old(self), *final(self), last_move, r),
    ;

    /// Release resources; must be safe to call after a forfeit.
    fn cleanup(&mut self)
        requires
            old(self).wf(),
        ensures
            final(self).wf(),
    ;
}

} // verus!
