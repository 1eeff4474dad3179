//! The Monte-Carlo agent: a game tree of playout statistics grown from
//! uniformly random games. Each node records how many playouts passed
//! through it and how many of them the player entering it went on to
//! win.

use crate::board::{lemma_init_playable, lemma_ongoing_game_has_moves, Board, BoardView, Player};
use std::collections::HashMap;
use vstd::prelude::*;

verus! {

broadcast use vstd::std_specs::hash::group_hash_axioms;

/// One node of the playout tree. `children` maps a move to the index of
/// the node it leads to, in the agent's node arena.
pub struct TreeNode {
    /// Playouts through this node won by the player who moved into it.
    pub numerator: u64,
    /// All playouts through this node.
    pub denominator: u64,
    /// Where each move from this node leads.
    pub children: HashMap<usize, usize>,
}

impl TreeNode {
    /// Children point into an arena of `n` nodes, and a node never
    /// counts more wins than playouts.
    pub open spec fn wf(self, n: int) -> bool {
        &&& self.numerator <= self.denominator
        &&& forall|k: usize|
            self.children@.dom().contains(k) ==> #[trigger] self.children@[k] < n
    }
}

/// The Monte-Carlo agent: the root of the playout tree and the arena
/// holding every other node.
pub struct MonteCarloAI {
    /// The node of the initial position.
    pub start: TreeNode,
    /// Every other node; `children` values index into this vector.
    pub tree: Vec<TreeNode>,
}

/// The number of unoccupied cells among the first `n`.
pub open spec fn empty_cells_below(s: Seq<Player>, n: int) -> int
    decreases n,
{
    if n <= 0 {
        0
    } else {
        empty_cells_below(s, n - 1) + (if s[n - 1] == Player::NEITHER {
            1int
        } else {
            0int
        })
    }
}

/// The number of unoccupied cells of a board.
pub open spec fn spec_empties(b: BoardView) -> int {
    empty_cells_below(b.spaces, 81)
}

proof fn lemma_empty_cells_nonneg(s: Seq<Player>, n: int)
    ensures
        0 <= empty_cells_below(s, n),
    decreases n,
{
    if n > 0 {
        lemma_empty_cells_nonneg(s, n - 1);
    }
}

proof fn lemma_empty_cells_update_low(s: Seq<Player>, i: int, v: Player, n: int)
    requires
        0 <= i < n,
        n <= s.len(),
        s[i] == Player::NEITHER,
        v != Player::NEITHER,
    ensures
        empty_cells_below(s.update(i, v), n) == empty_cells_below(s, n) - 1,
    decreases n,
{
    if i == n - 1 {
        lemma_empty_cells_same(s.update(i, v), s, n - 1);
    } else {
        lemma_empty_cells_update_low(s, i, v, n - 1);
    }
}

proof fn lemma_empty_cells_update_high(s: Seq<Player>, i: int, v: Player, n: int)
    requires
        n <= i < s.len(),
    ensures
        empty_cells_below(s.update(i, v), n) == empty_cells_below(s, n),
    decreases n,
{
    if n > 0 {
        lemma_empty_cells_update_high(s, i, v, n - 1);
    }
}

proof fn lemma_empty_cells_same(a: Seq<Player>, b: Seq<Player>, n: int)
    requires
        n <= a.len(),
        n <= b.len(),
        forall|j: int| 0 <= j < n ==> a[j] == b[j],
    ensures
        empty_cells_below(a, n) == empty_cells_below(b, n),
    decreases n,
{
    if n > 0 {
        lemma_empty_cells_same(a, b, n - 1);
    }
}

/// A successful move fills exactly one cell.
pub proof fn lemma_make_reduces_empties(b: BoardView, space: usize)
    requires
        b.wf(),
        b.move_ok(space),
    ensures
        spec_empties(b.spec_make(space)) == spec_empties(b) - 1,
{
    let who = b.to_move;
    let s1 = b.spaces.update(space as int, who);
    lemma_empty_cells_update_low(b.spaces, space as int, who, 81);
    let a = b.spec_make(space);
    lemma_empty_cells_same(a.spaces, s1, 81);
}

/// Relies on rand::thread_rng and rand::Rng::gen_range on the nonempty
/// range `0..n`: the draw lies within the range.
#[verifier::external_body]
fn random_below(n: usize) -> (r: usize)
    requires
        n > 0,
    ensures
        r < n,
{
    rand::Rng::gen_range(&mut rand::thread_rng(), 0..n)
}

/// The bookkeeping of training from `pre` to `post`: the arena only
/// grows, every pre-existing node's counters only grow with never more
/// new wins than new playouts, and the start node's counters stay
/// untouched (only entered nodes are credited).
pub open spec fn credits_only(pre: MonteCarloAI, post: MonteCarloAI) -> bool {
    &&& post.tree@.len() >= pre.tree@.len()
    &&& (forall|i: int|
        0 <= i < pre.tree@.len() ==> {
            let a = pre.tree@[i];
            let b = #[trigger] post.tree@[i];
            &&& b.denominator >= a.denominator
            &&& b.numerator >= a.numerator
            &&& b.numerator - a.numerator <= b.denominator - a.denominator
        })
    &&& post.start.numerator == pre.start.numerator
    &&& post.start.denominator == pre.start.denominator
}

/// Crediting composes.
proof fn lemma_credits_only_trans(a: MonteCarloAI, b: MonteCarloAI, c: MonteCarloAI)
    requires
        credits_only(a, b),
        credits_only(b, c),
    ensures
        credits_only(a, c),
{
    assert forall|i: int| 0 <= i < a.tree@.len() implies {
        let x = a.tree@[i];
        let z = #[trigger] c.tree@[i];
        &&& z.denominator >= x.denominator
        &&& z.numerator >= x.numerator
        &&& z.numerator - x.numerator <= z.denominator - x.denominator
    } by {
        assert(b.tree@[i].denominator >= a.tree@[i].denominator);
        assert(c.tree@[i].denominator >= b.tree@[i].denominator);
    }
}

impl MonteCarloAI {
    /// Every node of the agent is valid for its arena.
    pub open spec fn wf(&self) -> bool {
        &&& self.start.wf(self.tree@.len() as int)
        &&& forall|i: int|
            0 <= i < self.tree@.len() ==> (#[trigger] self.tree@[i]).wf(self.tree@.len() as int)
    }

    /// A fresh agent with an empty tree.
    pub fn new() -> (r: MonteCarloAI)
        ensures
            r.wf(),
            r.tree@.len() == 0,
            r.start.numerator == 0,
            r.start.denominator == 0,
            r.start.children@ == Map::<usize, usize>::empty(),
    {
        MonteCarloAI {
            start: TreeNode { numerator: 0, denominator: 0, children: HashMap::new() },
            tree: Vec::new(),
        }
    }

    /// Play `games` uniformly random games from the initial position,
    /// growing the tree along each path played and crediting every
    /// entered node with the playout and, for the player who entered
    /// it, with the win: counters only grow, never more new wins than
    /// new playouts, and uncredited nodes keep their statistics.
    pub fn train(&mut self, games: usize)
        requires
            old(self).wf(),
        ensures
            final(self).wf(),
            credits_only(*old(self), *final(self)),
            (games > 0 && old(self).start.children@.dom() =~= Set::<usize>::empty())
                ==> final(self).tree@.len() > old(self).tree@.len(),
    {
        let mut g: usize = 0;
        while g < games
            invariant
                self.wf(),
                credits_only(*old(self), *self),
                g == 0 ==> *self == *old(self),
                (g > 0 && old(self).start.children@.dom() =~= Set::<usize>::empty())
                    ==> self.tree@.len() > old(self).tree@.len(),
            decreases games - g,
        {
            let ghost mid = *self;
            self.play_one();
            proof {
                lemma_credits_only_trans(*old(self), mid, *self);
            }
            g += 1;
        }
    }

    /// Fill in the children of the node the playout stands at, one new
    /// arena node per legal move, if it has none yet. Returns the arena
    /// index for the chosen move, if the node knows it; after an
    /// expansion every offered move is known.
    fn expand_and_lookup(&mut self, at_start: bool, cur: usize, moves: &Vec<usize>, m: usize) -> (r:
        Option<usize>)
        requires
            old(self).wf(),
            !at_start ==> cur < old(self).tree@.len(),
        ensures
            final(self).wf(),
            credits_only(*old(self), *final(self)),
            r matches Some(idx) ==> idx < final(self).tree@.len(),
            ({
                let dom = if at_start {
                    old(self).start.children@.dom()
                } else {
                    old(self).tree@[cur as int].children@.dom()
                };
                dom =~= Set::<usize>::empty() && moves@.contains(m)
            }) ==> r is Some,
            ({
                let dom = if at_start {
                    old(self).start.children@.dom()
                } else {
                    old(self).tree@[cur as int].children@.dom()
                };
                dom =~= Set::<usize>::empty() && moves@.len() > 0
            }) ==> final(self).tree@.len() > old(self).tree@.len(),
    {
        let node_has_children = if at_start {
            self.start.children.len() > 0
        } else {
            self.tree[cur].children.len() > 0
        };
        if !node_has_children {
            let mut k: usize = 0;
            while k < moves.len()
                invariant
                    self.wf(),
                    !at_start ==> cur < self.tree@.len(),
                    credits_only(*old(self), *self),
                    k <= moves@.len(),
                    k > 0 ==> self.tree@.len() > old(self).tree@.len(),
                    forall|j: int|
                        0 <= j < k ==> (if at_start {
                            self.start.children@.dom()
                        } else {
                            self.tree@[cur as int].children@.dom()
                        }).contains(#[trigger] moves@[j]),
                decreases moves@.len() - k,
            {
                let ghost before = self.tree@;
                self.tree.push(
                    TreeNode { numerator: 0, denominator: 0, children: HashMap::new() },
                );
                let child_idx = self.tree.len() - 1;
                if at_start {
                    self.start.children.insert(moves[k], child_idx);
                } else {
                    self.tree[cur].children.insert(moves[k], child_idx);
                }
                proof {
                    assert forall|i: int|
                        0 <= i < self.tree@.len() implies (#[trigger] self.tree@[i]).wf(
                        self.tree@.len() as int,
                    ) by {
                        if i < before.len() && i != cur {
                            assert(self.tree@[i] == before[i]);
                        }
                    }
                }
                k += 1;
            }
        }
        let found = if at_start {
            self.start.children.get(&m)
        } else {
            self.tree[cur].children.get(&m)
        };
        match found {
            Some(idx) => Some(*idx),
            None => None,
        }
    }

    /// One playout: descend by uniformly random legal moves until the
    /// game is decided, then credit every entered node with the playout
    /// and, when the player who entered it won the game, with the win.
    /// An agent whose start node has no children yet grows its arena:
    /// the fresh board has legal moves, so the first step expands.
    fn play_one(&mut self)
        requires
            old(self).wf(),
        ensures
            final(self).wf(),
            credits_only(*old(self), *final(self)),
            old(self).start.children@.dom() =~= Set::<usize>::empty()
                ==> final(self).tree@.len() > old(self).tree@.len(),
    {
        let mut board = Board::new(2);
        let mut path: Vec<usize> = Vec::new();
        let mut at_start: bool = true;
        let mut cur: usize = 0;
        while board.winner == Player::NEITHER
            invariant_except_break
                at_start ==> *self == *old(self) && board@ == BoardView::init(2),
                (!at_start && old(self).start.children@.dom() =~= Set::<usize>::empty())
                    ==> self.tree@.len() > old(self).tree@.len(),
            invariant
                self.wf(),
                board@.wf(),
                credits_only(*old(self), *self),
                forall|i: int| 0 <= i < path@.len() ==> #[trigger] path@[i] < self.tree@.len(),
                !at_start ==> cur < self.tree@.len(),
            ensures
                self.wf(),
                credits_only(*old(self), *self),
                forall|i: int| 0 <= i < path@.len() ==> #[trigger] path@[i] < self.tree@.len(),
                old(self).start.children@.dom() =~= Set::<usize>::empty() ==> self.tree@.len()
                    > old(self).tree@.len(),
            decreases spec_empties(board@),
        {
            proof {
                lemma_empty_cells_nonneg(board@.spaces, 81);
            }
            let moves = board.get_moves();
            if moves.len() == 0 {
                proof {
                    // The fresh board has legal moves, so this exit is
                    // taken only after at least one expansion.
                    if at_start {
                        lemma_init_playable(2);
                        lemma_ongoing_game_has_moves(board@);
                        assert(false);
                    }
                }
                break ;
            }
            let j = random_below(moves.len());
            let m = moves[j];
            proof {
                assert(board@.legal_moves()[j as int] == m);
                board@.lemma_legal_moves_contains(m);
            }
            let ghost mid = *self;
            let next = self.expand_and_lookup(at_start, cur, &moves, m);
            proof {
                lemma_credits_only_trans(*old(self), mid, *self);
            }
            let idx = match next {
                Some(idx) => idx,
                None => {
                    proof {
                        if old(self).start.children@.dom() =~= Set::<usize>::empty() {
                            if at_start {
                                assert(mid == *old(self));
                            }
                            assert(self.tree@.len() > old(self).tree@.len());
                        }
                    }
                    break ;
                },
            };
            let ghost b_pre = board@;
            let ok = board.make_move(m);
            proof {
                assert(ok);
                lemma_make_reduces_empties(b_pre, m);
                lemma_empty_cells_nonneg(board@.spaces, 81);
            }
            path.push(idx);
            at_start = false;
            cur = idx;
        }
        // Credit the path: one playout for every entered node, one win
        // where the player who entered it won the game.
        let winner = board.winner;
        let mut k: usize = 0;
        while k < path.len()
            invariant
                self.wf(),
                credits_only(*old(self), *self),
                forall|i: int| 0 <= i < path@.len() ==> #[trigger] path@[i] < self.tree@.len(),
                k <= path@.len(),
                old(self).start.children@.dom() =~= Set::<usize>::empty() ==> self.tree@.len()
                    > old(self).tree@.len(),
            decreases path@.len() - k,
        {
            let idx = path[k];
            let mover_won = (winner == Player::X && k % 2 == 0) || (winner == Player::O && k % 2
                == 1);
            let ghost before = self.tree@;
            let d = self.tree[idx].denominator;
            if d < u64::MAX {
                self.tree[idx].denominator = d + 1;
                if mover_won {
                    let n = self.tree[idx].numerator;
                    self.tree[idx].numerator = n + 1;
                }
            }
            proof {
                assert forall|i: int|
                    0 <= i < self.tree@.len() implies (#[trigger] self.tree@[i]).wf(
                    self.tree@.len() as int,
                ) by {
                    if i != idx {
                        assert(self.tree@[i] == before[i]);
                    }
                }
            }
            k += 1;
        }
    }
}

} // verus!
