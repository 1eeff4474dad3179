//! The Elo rating pool: tournament entrants, rating updates with a
//! games-played-adjusted K-factor, and the pairing primitives of the
//! scheduler (the least-played focus bot, and opponents ordered by
//! rating distance).
//!
//! Scores are carried in thousandths of a point, so the update
//! `delta = K * (actual - expected)` with `K = 800 / (games + 20)` is
//! computed exactly in integers, truncated toward zero as the ratings
//! are whole numbers.

use crate::board::Player;
use vstd::multiset::Multiset;
use vstd::prelude::*;
use vstd::string::*;

verus! {

/// One tournament entrant: its display name, the command that starts
/// it, its rating, and how many games it has played.
#[derive(Clone)]
pub struct Bot {
    pub name: String,
    pub rating: i32,
    pub n_games: u32,
    pub exe_path: String,
    pub args: Vec<String>,
}

impl Bot {
    /// A new bot at the initial rating of 1500 with no games played.
    pub fn new(name: &str, exe_path: &str, args: Vec<String>) -> (b: Bot)
        ensures
            b.name@ == name@,
            b.rating == 1500,
            b.n_games == 0,
            b.exe_path@ == exe_path@,
            b.args == args,
    {
        Bot {
            name: String::from_str(name),
            rating: 1500,
            n_games: 0,
            exe_path: String::from_str(exe_path),
            args,
        }
    }
}

// ---------------------------------------------------------------------
// Rating updates
// ---------------------------------------------------------------------
/// The rating change for a player with `n_games` games played, actual
/// score `a_milli` and expected score `e_milli` (both in thousandths):
/// `K * (A - E)` with `K = 800 / (n_games + 20)`, truncated toward zero.
pub open spec fn spec_elo_delta(n_games: u32, a_milli: i32, e_milli: i32) -> int {
    let d = a_milli - e_milli;
    if d >= 0 {
        (800 * d) / ((n_games + 20) * 1000)
    } else {
        -((800 * (-d)) / ((n_games + 20) * 1000))
    }
}

/// The actual score of the X player, in thousandths: 1 for a win, 0 for
/// a loss, one half for a draw.
pub open spec fn spec_actual_milli(winner: Player) -> int {
    if winner == Player::X {
        1000
    } else if winner == Player::O {
        0
    } else {
        500
    }
}

/// Compute one rating delta.
pub fn elo_delta(n_games: u32, a_milli: i32, e_milli: i32) -> (r: i32)
    requires
        0 <= a_milli <= 1000,
        0 <= e_milli <= 1000,
    ensures
        r as int == spec_elo_delta(n_games, a_milli, e_milli),
        -40 <= r <= 40,
{
    let neg = a_milli < e_milli;
    let mag: u64 = if neg {
        (e_milli - a_milli) as u64
    } else {
        (a_milli - e_milli) as u64
    };
    let den: u64 = (n_games as u64 + 20) * 1000;
    let q: u64 = (800 * mag) / den;
    proof {
        assert(den as int >= 20000) by (nonlinear_arith)
            requires
                den as int == (n_games as int + 20) * 1000,
        ;
        assert(q as int <= 40) by (nonlinear_arith)
            requires
                q as int == (800 * (mag as int)) / (den as int),
                mag as int <= 1000,
                den as int >= 20000,
        ;
    }
    if neg {
        -(q as i32)
    } else {
        q as i32
    }
}

/// The Elo update is anti-symmetric: when the two players carry the same
/// K-factor (equal games played), the loser loses exactly what the
/// winner gains, actual and expected scores summing to one.
pub proof fn lemma_elo_antisymmetric(n_games: u32, a_x: i32, e_x: i32)
    requires
        0 <= a_x <= 1000,
        0 <= e_x <= 1000,
    ensures
        spec_elo_delta(n_games, a_x, e_x) == -spec_elo_delta(
            n_games,
            (1000 - a_x) as i32,
            (1000 - e_x) as i32,
        ),
{
}

/// Apply one match result to the two bots' ratings: X's delta from its
/// own game count and the given expected score, O's from the
/// complementary scores, each bot's game count advancing by one.
/// Returns the two deltas.
pub fn update_ratings(
    bots: &mut Vec<Bot>,
    x_idx: usize,
    o_idx: usize,
    winner: Player,
    e_x_milli: i32,
) -> (r: (i32, i32))
    requires
        x_idx < old(bots)@.len(),
        o_idx < old(bots)@.len(),
        x_idx != o_idx,
        winner == Player::X || winner == Player::O || winner == Player::DEAD,
        0 <= e_x_milli <= 1000,
        -2_000_000_000 <= old(bots)@[x_idx as int].rating <= 2_000_000_000,
        -2_000_000_000 <= old(bots)@[o_idx as int].rating <= 2_000_000_000,
        old(bots)@[x_idx as int].n_games < u32::MAX,
        old(bots)@[o_idx as int].n_games < u32::MAX,
    ensures
        r.0 as int == spec_elo_delta(
            old(bots)@[x_idx as int].n_games,
            spec_actual_milli(winner) as i32,
            e_x_milli,
        ),
        r.1 as int == spec_elo_delta(
            old(bots)@[o_idx as int].n_games,
            (1000 - spec_actual_milli(winner)) as i32,
            (1000 - e_x_milli) as i32,
        ),
        final(bots)@ == old(bots)@.update(
            x_idx as int,
            (Bot {
                rating: (old(bots)@[x_idx as int].rating + r.0) as i32,
                n_games: (old(bots)@[x_idx as int].n_games + 1) as u32,
                ..old(bots)@[x_idx as int]
            }),
        ).update(
            o_idx as int,
            (Bot {
                rating: (old(bots)@[o_idx as int].rating + r.1) as i32,
                n_games: (old(bots)@[o_idx as int].n_games + 1) as u32,
                ..old(bots)@[o_idx as int]
            }),
        ),
{
    let a_x: i32 = if winner == Player::X {
        1000
    } else if winner == Player::O {
        0
    } else {
        500
    };
    let x_diff = elo_delta(bots[x_idx].n_games, a_x, e_x_milli);
    let o_diff = elo_delta(bots[o_idx].n_games, 1000 - a_x, 1000 - e_x_milli);
    let x_rating = bots[x_idx].rating;
    bots[x_idx].rating = x_rating + x_diff;
    let x_games = bots[x_idx].n_games;
    bots[x_idx].n_games = x_games + 1;
    let o_rating = bots[o_idx].rating;
    bots[o_idx].rating = o_rating + o_diff;
    let o_games = bots[o_idx].n_games;
    bots[o_idx].n_games = o_games + 1;
    proof {
        assert(final(bots)@ =~= old(bots)@.update(
            x_idx as int,
            (Bot {
                rating: (old(bots)@[x_idx as int].rating + x_diff) as i32,
                n_games: (old(bots)@[x_idx as int].n_games + 1) as u32,
                ..old(bots)@[x_idx as int]
            }),
        ).update(
            o_idx as int,
            (Bot {
                rating: (old(bots)@[o_idx as int].rating + o_diff) as i32,
                n_games: (old(bots)@[o_idx as int].n_games + 1) as u32,
                ..old(bots)@[o_idx as int]
            }),
        ));
    }
    (x_diff, o_diff)
}

// ---------------------------------------------------------------------
// Pairing
// ---------------------------------------------------------------------
/// The bot with the fewest games played; the first such on a tie.
pub fn pick_focus(bots: &Vec<Bot>) -> (r: usize)
    requires
        bots@.len() > 0,
    ensures
        r < bots@.len(),
        forall|i: int| 0 <= i < bots@.len() ==> bots@[r as int].n_games <= #[trigger] bots@[i].n_games,
        forall|i: int| 0 <= i < r ==> bots@[r as int].n_games < #[trigger] bots@[i].n_games,
{
    let mut min_i: usize = 0;
    let mut i: usize = 1;
    while i < bots.len()
        invariant
            min_i < i <= bots@.len(),
            forall|j: int| 0 <= j < i ==> bots@[min_i as int].n_games <= #[trigger] bots@[j].n_games,
            forall|j: int| 0 <= j < min_i ==> bots@[min_i as int].n_games < #[trigger] bots@[j].n_games,
        decreases bots@.len() - i,
    {
        if bots[i].n_games < bots[min_i].n_games {
            min_i = i;
        }
        i += 1;
    }
    min_i
}

/// The absolute rating distance of bot `v` from a reference rating.
pub open spec fn spec_distance(bots: Seq<Bot>, rating: int, v: usize) -> int {
    let r = bots[v as int].rating as int;
    if r >= rating {
        r - rating
    } else {
        rating - r
    }
}

/// Candidate `a` is paired before candidate `b`: strictly closer in
/// rating, or equally close with the smaller bot index.
pub open spec fn spec_nearer(bots: Seq<Bot>, rating: int, a: usize, b: usize) -> bool {
    ||| spec_distance(bots, rating, a) < spec_distance(bots, rating, b)
    ||| (spec_distance(bots, rating, a) == spec_distance(bots, rating, b) && a <= b)
}

/// Order candidate bot indices by their rating distance to `rating`,
/// ties broken by bot index. The result is a permutation of the input.
pub fn sort_by_distance(indices: &mut Vec<usize>, bots: &Vec<Bot>, rating: i32)
    requires
        forall|i: int| 0 <= i < old(indices)@.len() ==> #[trigger] old(indices)@[i] < bots@.len(),
        -1_000_000_000 <= rating <= 1_000_000_000,
        forall|i: int|
            0 <= i < bots@.len() ==> -1_000_000_000 <= #[trigger] bots@[i].rating
                <= 1_000_000_000,
    ensures
        final(indices)@.len() == old(indices)@.len(),
        final(indices)@.to_multiset() == old(indices)@.to_multiset(),
        forall|i: int| 0 <= i < final(indices)@.len() ==> #[trigger] final(indices)@[i] < bots@.len(),
        forall|i: int, j: int|
            0 <= i < j < final(indices)@.len() ==> spec_nearer(
                bots@,
                rating as int,
                final(indices)@[i],
                final(indices)@[j],
            ),
{
    broadcast use vstd::seq_lib::group_to_multiset_ensures;

    let mut working: Vec<usize> = Vec::new();
    let mut k: usize = 0;
    while k < indices.len()
        invariant
            k <= indices@.len(),
            working@ == indices@.subrange(0, k as int),
        decreases indices@.len() - k,
    {
        working.push(indices[k]);
        proof {
            assert(working@ =~= indices@.subrange(0, k as int + 1));
        }
        k += 1;
    }
    proof {
        assert(indices@.subrange(0, indices@.len() as int) =~= indices@);
    }
    let ghost input = indices@;
    let mut out: Vec<usize> = Vec::new();
    while working.len() > 0
        invariant
            -1_000_000_000 <= rating <= 1_000_000_000,
            forall|i: int|
                0 <= i < bots@.len() ==> -1_000_000_000 <= #[trigger] bots@[i].rating
                    <= 1_000_000_000,
            forall|i: int| 0 <= i < working@.len() ==> #[trigger] working@[i] < bots@.len(),
            forall|i: int| 0 <= i < out@.len() ==> #[trigger] out@[i] < bots@.len(),
            out@.len() + working@.len() == input.len(),
            out@.to_multiset().add(working@.to_multiset()) == input.to_multiset(),
            forall|i: int, j: int|
                0 <= i < j < out@.len() ==> spec_nearer(bots@, rating as int, out@[i], out@[j]),
            forall|i: int, j: int|
                0 <= i < out@.len() && 0 <= j < working@.len() ==> spec_nearer(
                    bots@,
                    rating as int,
                    #[trigger] out@[i],
                    #[trigger] working@[j],
                ),
        decreases working@.len(),
    {
        // Find the nearest remaining candidate, ties by bot index.
        let mut best: usize = 0;
        let mut w: usize = 1;
        while w < working.len()
            invariant
                best < w <= working@.len(),
                forall|i: int| 0 <= i < working@.len() ==> #[trigger] working@[i] < bots@.len(),
                -1_000_000_000 <= rating <= 1_000_000_000,
                forall|i: int|
                    0 <= i < bots@.len() ==> -1_000_000_000 <= #[trigger] bots@[i].rating
                        <= 1_000_000_000,
                forall|j: int|
                    0 <= j < w ==> spec_nearer(
                        bots@,
                        rating as int,
                        working@[best as int],
                        #[trigger] working@[j],
                    ),
            decreases working@.len() - w,
        {
            let db = rating_distance(rating, bots[working[best]].rating);
            let dw = rating_distance(rating, bots[working[w]].rating);
            if dw < db || (dw == db && working[w] < working[best]) {
                best = w;
            }
            w += 1;
        }
        let ghost work0 = working@;
        let ghost out0 = out@;
        let picked = working.remove(best);
        out.push(picked);
        proof {
            broadcast use vstd::multiset::group_multiset_axioms;

            assert(work0[best as int] == picked);
            assert(work0.contains(picked));
            vstd::seq_lib::to_multiset_contains(work0, picked);
            vstd::seq_lib::to_multiset_build(out0, picked);
            vstd::seq_lib::to_multiset_remove(work0, best as int);
            assert(out@ == out0.push(picked));
            assert(working@ == work0.remove(best as int));
            assert(out@.to_multiset().add(working@.to_multiset()) =~= input.to_multiset());
        }
    }
    proof {
        assert(working@.to_multiset() =~= Multiset::<usize>::empty());
        assert(out@.to_multiset() =~= input.to_multiset());
    }
    *indices = out;
}

/// The absolute difference of two ratings.
fn rating_distance(rating: i32, r: i32) -> (d: i32)
    requires
        -1_000_000_000 <= rating <= 1_000_000_000,
        -1_000_000_000 <= r <= 1_000_000_000,
    ensures
        d >= 0,
        d as int == (if r as int >= rating as int {
            r as int - rating as int
        } else {
            rating as int - r as int
        }),
{
    if r >= rating {
        r - rating
    } else {
        rating - r
    }
}

} // verus!
