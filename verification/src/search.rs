//! The search engine: negamax with alpha-beta pruning to a fixed depth,
//! over a pluggable positional evaluator. The search works on a single
//! board with make/undo rather than cloning per node, and returns the
//! same best score as a plain negamax without pruning.

use crate::ai::AI;
use crate::board::{Board, BoardView, Player, Square, lemma_make_then_undo, other_player};
use vstd::prelude::*;

verus! {

/// Every evaluator's score lies within this bound, well inside `i32`,
/// so negation through the recursion never overflows.
pub const EVAL_BOUND: i32 = 50000;

/// A positional evaluator: maps a board to an integer score from a
/// side's perspective, positive meaning that side is winning. Terminal
/// states map to the saturating values `EVAL_BOUND`, `-EVAL_BOUND`, and
/// 0 for a draw.
pub trait Evaluator: Sized {
    /// The score, as a mathematical function of the board.
    spec fn spec_eval(&self, b: BoardView, side: Player) -> int;

    /// Scores are bounded, so the search arithmetic cannot overflow.
    proof fn lemma_eval_bounded(&self, b: BoardView, side: Player)
        ensures
            -(EVAL_BOUND as int) <= self.spec_eval(b, side) <= EVAL_BOUND as int,
    ;

    /// Compute the score.
    fn eval(&self, b: &Board, side: Player) -> (r: i32)
        requires
            b@.wf(),
            side == Player::X || side == Player::O,
        ensures
            r as int == self.spec_eval(b@, side),
    ;
}

/// Plain negamax without pruning, from the side to move: at a decided
/// position, at depth zero, or with no legal move, the evaluator's score;
/// otherwise the maximum over all legal moves of the negated value of the
/// position after the move.
pub open spec fn spec_negamax<E: Evaluator>(ev: &E, b: BoardView, depth: nat) -> int
    decreases depth, b.legal_moves().len() + 1,
{
    if b.winner != Player::NEITHER || depth == 0 || b.legal_moves().len() == 0 {
        ev.spec_eval(b, b.to_move)
    } else {
        spec_best(ev, b, depth, b.legal_moves().len() as int)
    }
}

/// The maximum of the negated child values over the first `n` legal
/// moves.
pub open spec fn spec_best<E: Evaluator>(ev: &E, b: BoardView, depth: nat, n: int) -> int
    recommends
        depth > 0,
        0 < n <= b.legal_moves().len(),
    decreases depth, n,
{
    if depth == 0 || n <= 0 {
        0
    } else {
        let v = -spec_negamax(ev, b.spec_make(b.legal_moves()[n - 1]), (depth - 1) as nat);
        if n == 1 {
            v
        } else {
            let w = spec_best(ev, b, depth, n - 1);
            if v > w {
                v
            } else {
                w
            }
        }
    }
}

/// The negated value of the position after the `i`-th legal move.
pub open spec fn child_value<E: Evaluator>(ev: &E, b: BoardView, depth: nat, i: int) -> int
    recommends
        depth > 0,
        0 <= i < b.legal_moves().len(),
{
    -spec_negamax(ev, b.spec_make(b.legal_moves()[i]), (depth - 1) as nat)
}

/// `m` is the first legal move, in `get_moves()` order, whose child
/// value attains the negamax value of the position: what `search`
/// returns when moves tie on score.
pub open spec fn is_first_best<E: Evaluator>(ev: &E, b: BoardView, depth: nat, m: usize) -> bool {
    exists|i: int|
        {
            &&& 0 <= i < b.legal_moves().len()
            &&& b.legal_moves()[i] == m
            &&& #[trigger] child_value(ev, b, depth, i) == spec_negamax(ev, b, depth)
            &&& forall|j: int|
                0 <= j < i ==> #[trigger] child_value(ev, b, depth, j) < spec_negamax(ev, b, depth)
        }
}

/// The negamax value is bounded by the evaluator's bound.
pub proof fn lemma_negamax_bounded<E: Evaluator>(ev: &E, b: BoardView, depth: nat)
    ensures
        -(EVAL_BOUND as int) <= spec_negamax(ev, b, depth) <= EVAL_BOUND as int,
    decreases depth, b.legal_moves().len() + 1,
{
    if b.winner != Player::NEITHER || depth == 0 || b.legal_moves().len() == 0 {
        ev.lemma_eval_bounded(b, b.to_move);
    } else {
        lemma_best_bounded(ev, b, depth, b.legal_moves().len() as int);
    }
}

proof fn lemma_best_bounded<E: Evaluator>(ev: &E, b: BoardView, depth: nat, n: int)
    requires
        depth > 0,
        0 < n,
    ensures
        -(EVAL_BOUND as int) <= spec_best(ev, b, depth, n) <= EVAL_BOUND as int,
    decreases depth, n,
{
    lemma_negamax_bounded(ev, b.spec_make(b.legal_moves()[n - 1]), (depth - 1) as nat);
    if n > 1 {
        lemma_best_bounded(ev, b, depth, n - 1);
    }
}

/// `spec_best` is the maximum of the first `n` child values: no child
/// exceeds it and some child attains it.
pub proof fn lemma_best_is_max<E: Evaluator>(ev: &E, b: BoardView, depth: nat, n: int)
    requires
        depth > 0,
        0 < n <= b.legal_moves().len(),
    ensures
        forall|k: int|
            0 <= k < n ==> #[trigger] child_value(ev, b, depth, k) <= spec_best(ev, b, depth, n),
        exists|k: int| 0 <= k < n && #[trigger] child_value(ev, b, depth, k) == spec_best(ev, b, depth, n),
    decreases n,
{
    assert(child_value(ev, b, depth, n - 1) == -spec_negamax(
        ev,
        b.spec_make(b.legal_moves()[n - 1]),
        (depth - 1) as nat,
    ));
    if n > 1 {
        lemma_best_is_max(ev, b, depth, n - 1);
    }
}

/// Negamax with alpha-beta pruning (fail-soft). The result `r` relates
/// to the plain negamax value `n` of the position by the standard window
/// contract: inside the window `r` is exact; failing low it is an upper
/// bound on `n`; failing high a lower bound.
fn negamax_ab<E: Evaluator>(ev: &E, b: &mut Board, depth: usize, alpha: i32, beta: i32) -> (r: i32)
    requires
        old(b)@.wf(),
        alpha < beta,
        -1_000_000_000 <= alpha,
        beta <= 1_000_000_000,
    ensures
        final(b)@ == old(b)@,
        -2_000_000_000 <= r <= 2_000_000_000,
        alpha < r < beta ==> r as int == spec_negamax(ev, old(b)@, depth as nat),
        r <= alpha ==> spec_negamax(ev, old(b)@, depth as nat) <= r as int,
        r >= beta ==> spec_negamax(ev, old(b)@, depth as nat) >= r as int,
    decreases depth,
{
    let to = b.get_to_move();
    if depth == 0 || b.winner != Player::NEITHER {
        let e = ev.eval(b, to);
        proof {
            ev.lemma_eval_bounded(b@, to);
        }
        return e;
    }
    let moves = b.get_moves();
    if moves.len() == 0 {
        let e = ev.eval(b, to);
        proof {
            ev.lemma_eval_bounded(b@, to);
        }
        return e;
    }
    let ghost b0 = b@;
    let ghost d = depth as nat;
    let ghost nn = spec_negamax(ev, b0, d);
    proof {
        lemma_best_is_max(ev, b0, d, moves@.len() as int);
    }
    let mut best: i32 = -2_000_000_000;
    let mut a = alpha;
    let mut i: usize = 0;
    let ghost mut cut = false;
    while i < moves.len()
        invariant_except_break
            b@ == b0,
            b0.wf(),
            b0.winner == Player::NEITHER,
            depth >= 1,
            d == depth as nat,
            nn == spec_negamax(ev, b0, d),
            moves@ == b0.legal_moves(),
            0 < moves@.len(),
            i <= moves@.len(),
            alpha < beta,
            -1_000_000_000 <= alpha,
            beta <= 1_000_000_000,
            -2_000_000_000 <= best <= 2_000_000_000,
            a == (if best > alpha {
                best
            } else {
                alpha
            }),
            a < beta,
            !cut,
            forall|k: int| 0 <= k < i ==> #[trigger] child_value(ev, b0, d, k) <= best as int,
            best > alpha ==> exists|k: int|
                0 <= k < i && #[trigger] child_value(ev, b0, d, k) == best as int,
        ensures
            b@ == b0,
            -2_000_000_000 <= best <= 2_000_000_000,
            cut ==> best >= beta && nn >= best as int,
            !cut ==> {
                &&& i as int == moves@.len()
                &&& best < beta
                &&& (forall|k: int|
                    0 <= k < moves@.len() ==> #[trigger] child_value(ev, b0, d, k) <= best as int)
                &&& (best > alpha ==> exists|k: int|
                    0 <= k < moves@.len() && #[trigger] child_value(ev, b0, d, k) == best as int)
            },
        decreases moves@.len() - i,
    {
        let m = moves[i];
        proof {
            assert(b0.legal_moves()[i as int] == m);
            b0.lemma_legal_moves_contains(m);
        }
        let ok = b.make_move(m);
        proof {
            assert(ok);
            assert(b@ == b0.spec_make(m));
        }
        let rc = negamax_ab(ev, b, depth - 1, -beta, -a);
        let v = -rc;
        let ok2 = b.undo_move();
        proof {
            assert(ok2);
            lemma_make_then_undo(b0, m);
            assert(b@ == b0);
            let cv = child_value(ev, b0, d, i as int);
            let ncv = spec_negamax(ev, b0.spec_make(m), (depth - 1) as nat);
            assert(cv == -ncv);
            // The three outcomes of the child call, seen from this side.
            if -beta < rc && rc < -a {
                assert(rc as int == ncv);
                assert(cv == v as int);
            } else if rc >= -a {
                assert(ncv >= rc as int);
                assert(cv <= v as int);
                assert(v <= a);
            } else {
                assert(rc <= -beta);
                assert(ncv <= rc as int);
                assert(cv >= v as int);
                assert(v >= beta);
            }
        }
        let ghost old_best = best;
        if v > best {
            best = v;
        }
        if best > a {
            a = best;
        }
        i += 1;
        if a >= beta {
            proof {
                cut = true;
                assert(best >= beta);
                assert(old_best < beta);
                assert(best == v);
                lemma_best_is_max(ev, b0, d, moves@.len() as int);
                assert(nn == spec_best(ev, b0, d, moves@.len() as int));
                let cv = child_value(ev, b0, d, i as int - 1);
                assert(cv >= v as int);
                assert(nn >= cv);
            }
            break ;
        }
    }
    proof {
        if cut {
            assert(best >= beta);
        } else {
            assert(nn == spec_best(ev, b0, d, moves@.len() as int));
            if alpha < best && best < beta {
                let kw = choose|k: int|
                    0 <= k < moves@.len() && #[trigger] child_value(ev, b0, d, k) == best as int;
                assert(child_value(ev, b0, d, kw) <= nn);
                let km = choose|k: int|
                    0 <= k < moves@.len() && #[trigger] child_value(ev, b0, d, k) == spec_best(
                        ev,
                        b0,
                        d,
                        moves@.len() as int,
                    );
                assert(child_value(ev, b0, d, km) <= best as int);
            } else if best <= alpha {
                let km = choose|k: int|
                    0 <= k < moves@.len() && #[trigger] child_value(ev, b0, d, k) == spec_best(
                        ev,
                        b0,
                        d,
                        moves@.len() as int,
                    );
                assert(child_value(ev, b0, d, km) <= best as int);
            }
        }
    }
    best
}

/// A depth-bounded alpha-beta player over its own board.
pub struct SimpleSearchAI<E: Evaluator> {
    /// The agent's view of the game, advanced by both sides' moves.
    pub board: Board,
    /// The positional evaluator the search uses at its leaves.
    pub eval: E,
    /// The search depth, in plies.
    pub depth: usize,
}

impl<E: Evaluator> SimpleSearchAI<E> {
    /// The evaluator this agent searches with.
    pub open spec fn evaluator(&self) -> E {
        self.eval
    }

    /// The agent's current board.
    pub open spec fn spec_board(&self) -> BoardView {
        self.board@
    }

    /// A new agent on a fresh board, searching `_depth` plies with the
    /// evaluator `_eval`.
    pub fn new(_eval: E, _depth: usize) -> (r: SimpleSearchAI<E>)
        ensures
            r.wf(),
            r.spec_board() == BoardView::init(2),
            r.evaluator() == _eval,
    {
        SimpleSearchAI { board: Board::new(2), eval: _eval, depth: _depth }
    }

    /// Alpha-beta search from the root. Returns the chosen move and its
    /// score: the score equals the plain negamax value of the position at
    /// this depth, and the move is the first, in `get_moves()` order,
    /// that attains it. At a decided position, at depth zero, or with no
    /// legal move the move is the resign sentinel `-1` and the score the
    /// evaluator's.
    pub fn search(&self, board: &mut Board, depth: usize, alpha: i32, beta: i32) -> (r: (i64, i32))
        requires
            old(board)@.wf(),
            -1_000_000_000 <= alpha,
            beta <= 1_000_000_000,
            (alpha as int) < -(EVAL_BOUND as int),
            (beta as int) > EVAL_BOUND as int,
        ensures
            final(board)@ == old(board)@,
            r.1 as int == spec_negamax(&self.evaluator(), old(board)@, depth as nat),
            (old(board)@.winner == Player::NEITHER && depth > 0 && old(board)@.legal_moves().len()
                > 0) ==> (0 <= r.0 <= 80 && is_first_best(
                &self.evaluator(),
                old(board)@,
                depth as nat,
                r.0 as usize,
            )),
            !(old(board)@.winner == Player::NEITHER && depth > 0
                && old(board)@.legal_moves().len() > 0) ==> r.0 == -1,
    {
        let to = board.get_to_move();
        if depth == 0 || board.winner != Player::NEITHER {
            return (-1, self.eval.eval(board, to));
        }
        let moves = board.get_moves();
        if moves.len() == 0 {
            return (-1, self.eval.eval(board, to));
        }
        let ghost b0 = board@;
        let ghost d = depth as nat;
        let ghost nn = spec_negamax(&self.eval, b0, d);
        proof {
            lemma_best_is_max(&self.eval, b0, d, moves@.len() as int);
            lemma_negamax_bounded(&self.eval, b0, d);
        }
        let mut best: i32 = -2_000_000_000;
        let mut a = alpha;
        let mut result_move: i64 = -1;
        let ghost mut bi: int = 0;
        let mut i: usize = 0;
        while i < moves.len()
            invariant
                board@ == b0,
                b0.wf(),
                b0.winner == Player::NEITHER,
                depth >= 1,
                d == depth as nat,
                nn == spec_negamax(&self.eval, b0, d),
                -(EVAL_BOUND as int) <= nn <= EVAL_BOUND as int,
                moves@ == b0.legal_moves(),
                0 < moves@.len(),
                i <= moves@.len(),
                -1_000_000_000 <= alpha,
                beta <= 1_000_000_000,
                (alpha as int) < -(EVAL_BOUND as int),
                (beta as int) > EVAL_BOUND as int,
                a == (if best > alpha {
                    best
                } else {
                    alpha
                }),
                i == 0 ==> best == -2_000_000_000 && result_move == -1,
                i > 0 ==> {
                    &&& -(EVAL_BOUND as int) <= best as int <= EVAL_BOUND as int
                    &&& 0 <= bi < i
                    &&& child_value(&self.eval, b0, d, bi) == best as int
                    &&& (forall|k: int|
                        0 <= k < i ==> #[trigger] child_value(&self.eval, b0, d, k) <= best as int)
                    &&& (forall|k: int|
                        0 <= k < bi ==> #[trigger] child_value(&self.eval, b0, d, k) < best as int)
                    &&& result_move as int == b0.legal_moves()[bi] as int
                    &&& 0 <= result_move <= 80
                },
            decreases moves@.len() - i,
        {
            let m = moves[i];
            proof {
                assert(b0.legal_moves()[i as int] == m);
                b0.lemma_legal_moves_contains(m);
            }
            let ok = board.make_move(m);
            proof {
                assert(ok);
            }
            let rc = negamax_ab(&self.eval, board, depth - 1, -beta, -a);
            let v = -rc;
            let ok2 = board.undo_move();
            proof {
                assert(ok2);
                lemma_make_then_undo(b0, m);
                assert(board@ == b0);
                let cv = child_value(&self.eval, b0, d, i as int);
                let ncv = spec_negamax(&self.eval, b0.spec_make(m), (depth - 1) as nat);
                lemma_negamax_bounded(&self.eval, b0.spec_make(m), (depth - 1) as nat);
                assert(cv == -ncv);
                if -beta < rc && rc < -a {
                    assert(cv == v as int);
                } else if rc >= -a {
                    assert(ncv >= rc as int);
                    assert(cv <= v as int);
                    assert(v <= a);
                    // The window never fails high at the root while the
                    // running best is still below alpha.
                    assert(best > alpha) by {
                        if best <= alpha {
                            assert(a == alpha);
                            assert(ncv >= -(alpha as int));
                        }
                    }
                } else {
                    // A fail-low reply would mean a child value beyond
                    // the evaluator's bound.
                    assert(rc <= -beta);
                    assert(ncv <= rc as int);
                    assert(false);
                }
            }
            if v > best {
                best = v;
                result_move = m as i64;
                proof {
                    bi = i as int;
                }
            }
            if best > a {
                a = best;
            }
            i += 1;
        }
        proof {
            assert(nn == spec_best(&self.eval, b0, d, moves@.len() as int));
            let km = choose|k: int|
                0 <= k < moves@.len() && #[trigger] child_value(&self.eval, b0, d, k) == spec_best(
                    &self.eval,
                    b0,
                    d,
                    moves@.len() as int,
                );
            assert(child_value(&self.eval, b0, d, km) <= best as int);
            assert(child_value(&self.eval, b0, d, bi) <= nn);
            assert(best as int == nn);
            assert(is_first_best(&self.eval, b0, d, result_move as usize));
        }
        (result_move, best)
    }
}

impl<E: Evaluator> AI for SimpleSearchAI<E> {
    open spec fn wf(&self) -> bool {
        self.board@.wf()
    }

    /// What one call does: a rejected opponent move is the fault
    /// sentinel and changes nothing; with nothing to play (the game
    /// decided, depth zero, or no legal move) the agent resigns after
    /// recording the opponent's move; otherwise it plays and returns
    /// the first legal move, in `get_moves()` order, attaining the
    /// negamax value at its depth.
    open spec fn move_spec(pre: Self, post: Self, last_move: i64, r: i64) -> bool {
        let b0 = pre.board@;
        if last_move != -1 && !b0.move_ok(last_move as usize) {
            &&& r == -2
            &&& post.board@ == b0
            &&& post.eval == pre.eval
            &&& post.depth == pre.depth
        } else {
            let b1 = if last_move == -1 {
                b0
            } else {
                b0.spec_make(last_move as usize)
            };
            if b1.winner != Player::NEITHER || pre.depth == 0 || b1.legal_moves().len() == 0 {
                &&& r == -1
                &&& post.board@ == b1
                &&& post.eval == pre.eval
                &&& post.depth == pre.depth
            } else {
                &&& 0 <= r <= 80
                &&& is_first_best(&pre.eval, b1, pre.depth as nat, r as usize)
                &&& post.board@ == b1.spec_make(r as usize)
                &&& post.eval == pre.eval
                &&& post.depth == pre.depth
            }
        }
    }

    fn get_move(&mut self, last_move: i64) -> (r: i64) {
        if last_move != -1 {
            let ok = self.board.make_move(last_move as usize);
            if !ok {
                return -2;
            }
        }
        if self.board.winner != Player::NEITHER {
            return -1;
        }
        let mut scratch = self.board.clone();
        let (mv, _score) = self.search(&mut scratch, self.depth, -100000000, 100000000);
        if mv < 0 {
            return -1;
        }
        proof {
            let ghost b = self.board@;
            assert(is_first_best(&self.evaluator(), b, self.depth as nat, mv as usize));
            let i = choose|i: int|
                {
                    &&& 0 <= i < b.legal_moves().len()
                    &&& b.legal_moves()[i] == mv as usize
                    &&& #[trigger] child_value(&self.evaluator(), b, self.depth as nat, i)
                        == spec_negamax(&self.evaluator(), b, self.depth as nat)
                    &&& forall|j: int|
                        0 <= j < i ==> #[trigger] child_value(&self.evaluator(), b, self.depth as nat, j)
                            < spec_negamax(&self.evaluator(), b, self.depth as nat)
                };
            assert(b.legal_moves().contains(mv as usize));
            b.lemma_legal_moves_contains(mv as usize);
        }
        let ok2 = self.board.make_move(mv as usize);
        proof {
            assert(ok2);
        }
        mv
    }

    fn cleanup(&mut self) {
    }
}

// ---------------------------------------------------------------------
// The material evaluator
// ---------------------------------------------------------------------
/// +1 for a square owned by `side`, -1 for one owned by the opponent.
pub open spec fn side_sign(o: Player, side: Player) -> int {
    if o == side {
        1
    } else if o == other_player(side) {
        -1
    } else {
        0
    }
}

/// 1000 points per owned level-1 sub-board, over the first `n`.
pub open spec fn sub_board_score(b: BoardView, side: Player, n: int) -> int
    decreases n,
{
    if n <= 0 {
        0
    } else {
        sub_board_score(b, side, n - 1) + 1000 * side_sign(b.spaces[81 + (n - 1)], side)
    }
}

/// 100 points per owned centre cell, over the first `n` sub-boards.
pub open spec fn center_cell_score(b: BoardView, side: Player, n: int) -> int
    decreases n,
{
    if n <= 0 {
        0
    } else {
        center_cell_score(b, side, n - 1) + 100 * side_sign(b.spaces[9 * (n - 1) + 4], side)
    }
}

/// The material score of an undecided board: owned sub-boards, a bonus
/// for the centre sub-board, and owned centre cells.
pub open spec fn material_score(b: BoardView, side: Player) -> int {
    sub_board_score(b, side, 9) + 1000 * side_sign(b.spaces[85], side) + center_cell_score(
        b,
        side,
        9,
    )
}

/// The material evaluator: win and loss saturate to the score bound, a
/// draw is even, and otherwise captured sub-boards (with a bonus for the
/// centre one) and centre cells are counted.
pub struct MaterialEval;

proof fn lemma_sub_board_score_bounded(b: BoardView, side: Player, n: int)
    requires
        0 <= n,
    ensures
        -1000 * n <= sub_board_score(b, side, n) <= 1000 * n,
    decreases n,
{
    if n > 0 {
        lemma_sub_board_score_bounded(b, side, n - 1);
    }
}

proof fn lemma_center_cell_score_bounded(b: BoardView, side: Player, n: int)
    requires
        0 <= n,
    ensures
        -100 * n <= center_cell_score(b, side, n) <= 100 * n,
    decreases n,
{
    if n > 0 {
        lemma_center_cell_score_bounded(b, side, n - 1);
    }
}

impl Evaluator for MaterialEval {
    open spec fn spec_eval(&self, b: BoardView, side: Player) -> int {
        if b.winner == side {
            EVAL_BOUND as int
        } else if b.winner == other_player(side) {
            -(EVAL_BOUND as int)
        } else if b.winner == Player::DEAD {
            0
        } else {
            material_score(b, side)
        }
    }

    proof fn lemma_eval_bounded(&self, b: BoardView, side: Player) {
        lemma_sub_board_score_bounded(b, side, 9);
        lemma_center_cell_score_bounded(b, side, 9);
    }

    fn eval(&self, b: &Board, side: Player) -> (r: i32) {
        if b.winner == side {
            return EVAL_BOUND;
        }
        if b.winner != Player::NEITHER {
            if b.winner == Player::DEAD {
                return 0;
            }
            return -EVAL_BOUND;
        }
        let mut result: i32 = 0;
        let mut s: usize = 0;
        while s < 9
            invariant
                b@.wf(),
                side == Player::X || side == Player::O,
                s <= 9,
                result as int == sub_board_score(b@, side, s as int),
                -1000 * (s as int) <= result as int <= 1000 * (s as int),
            decreases 9 - s,
        {
            let owner = b.get(Square { top_left: s * 9, level: 1 });
            proof {
                assert((s * 9) as int / 9 == s as int) by (nonlinear_arith)
                    requires
                        s < 9,
                ;
                lemma_sub_board_score_bounded(b@, side, s as int);
            }
            if owner == side {
                result += 1000;
            } else if owner == Player::X || owner == Player::O {
                result -= 1000;
            }
            s += 1;
        }
        // The centre sub-board counts twice.
        let center = b.get(Square { top_left: 36, level: 1 });
        if center == side {
            result += 1000;
        } else if center == Player::X || center == Player::O {
            result -= 1000;
        }
        let ghost mid = result as int;
        proof {
            lemma_sub_board_score_bounded(b@, side, 9);
        }
        let mut c: usize = 0;
        while c < 9
            invariant
                b@.wf(),
                side == Player::X || side == Player::O,
                c <= 9,
                mid == sub_board_score(b@, side, 9) + 1000 * side_sign(b@.spaces[85], side),
                -10000 <= mid <= 10000,
                result as int == mid + center_cell_score(b@, side, c as int),
                -100 * (c as int) <= result as int - mid <= 100 * (c as int),
            decreases 9 - c,
        {
            let owner = b.get(Square { top_left: c * 9 + 4, level: 0 });
            proof {
                lemma_center_cell_score_bounded(b@, side, c as int);
            }
            if owner == side {
                result += 100;
            } else if owner == Player::X || owner == Player::O {
                result -= 100;
            }
            c += 1;
        }
        result
    }
}

impl SimpleSearchAI<MaterialEval> {
    /// The reference material evaluator.
    pub fn abriand_eval_1() -> (r: MaterialEval)
        ensures
            r == MaterialEval,
    {
        MaterialEval
    }
}

} // verus!
