//! The board engine: recursive two-level Ultimate Tic-Tac-Toe state,
//! legal-move generation, capture propagation, draw detection, and a
//! reversible move history.
//!
//! Every cell of the 9x9 board is assigned an integer:
//!
//! ```text
//! 00 01 02  09 10 11  18 19 20
//! 03 04 05  12 13 14  21 22 23
//! 06 07 08  15 16 17  24 25 26
//!
//! 27 28 29  36 37 38  45 46 47
//! 30 31 32  39 40 41  48 49 50
//! 33 34 35  42 43 44  51 52 53
//!
//! 54 55 56  63 64 65  72 73 74
//! 57 58 59  66 67 68  75 76 77
//! 60 61 62  69 70 71  78 79 80
//! ```
//!
//! Cells use row-major numbering inside each sub-board and block order
//! across sub-boards, so the nine cells of any level-1 sub-board form a
//! contiguous index range of size nine.
//!
//! The backing vector holds 91 entries: the 81 cells, then the nine
//! level-1 sub-board owners, then the level-2 (whole board) owner.

use vstd::prelude::*;

verus! {

/// The occupant of a square.
///
/// `NEITHER` means unoccupied and playable; `DEAD` means drawn or
/// otherwise unplayable (a resolved square with no winner).
#[derive(Clone, Copy, Debug, PartialEq, Eq, Structural)]
pub enum Player {
    X,
    O,
    NEITHER,
    DEAD,
}

/// The player who moves after `p`.
pub open spec fn other_player(p: Player) -> Player {
    if p == Player::X {
        Player::O
    } else {
        Player::X
    }
}

/// A square of the board: either a single cell (`level` 0), a 3x3
/// sub-board (`level` 1), or the whole 9x9 board (`level` 2).
/// `top_left` is the cell index of its top-left corner.
#[derive(Clone, Copy, Debug, Hash, PartialEq, Eq, Structural)]
pub struct Square {
    pub top_left: usize,
    pub level: usize,
}

/// One entry of the move history: the cell played, the level-1 sub-board
/// captured by the move (`81` when none), and the `next_legal` bounds that
/// held before the move. This is exactly what `undo_move` needs.
#[derive(Clone, Copy, Debug, Hash, PartialEq, Eq, Structural)]
pub struct Turn {
    pub space: usize,
    pub capture: usize,
    pub bounds: Square,
}

impl Turn {
    /// Structural validity of a history entry.
    pub open spec fn wf(self) -> bool {
        &&& self.space < 81
        &&& (self.capture == 81 || (self.capture < 81 && self.capture % 9 == 0))
        &&& bounds_wf(self.bounds)
    }
}

/// A `next_legal` constraint is either one sub-board or the whole board.
pub open spec fn bounds_wf(s: Square) -> bool {
    ||| (s.level == 1 && s.top_left < 81 && s.top_left % 9 == 0)
    ||| (s.level == 2 && s.top_left == 0)
}

/// The mathematical value of a `Board`: the same fields with the two
/// vectors abstracted to sequences.
#[verifier::ext_equal]
pub struct BoardView {
    pub max_level: usize,
    pub to_move: Player,
    pub spaces: Seq<Player>,
    pub next_legal: Square,
    pub winner: Player,
    pub history: Seq<Turn>,
}

/// The board state. See the module documentation for the cell numbering.
#[derive(Debug)]
pub struct Board {
    /// The index of the top level; always 2 (a 9x9 board).
    pub max_level: usize,
    /// The player who makes the next move.
    pub to_move: Player,
    /// Cells 0..81, then the nine level-1 owners, then the level-2 owner.
    pub spaces: Vec<Player>,
    /// The square into which the current player must play.
    pub next_legal: Square,
    /// `NEITHER` while the game is ongoing, `DEAD` when drawn, else the
    /// winning player.
    pub winner: Player,
    /// The moves made so far; the last entry is the most recent move.
    pub move_history: Vec<Turn>,
}

impl View for Board {
    type V = BoardView;

    open spec fn view(&self) -> BoardView {
        BoardView {
            max_level: self.max_level,
            to_move: self.to_move,
            spaces: self.spaces@,
            next_legal: self.next_legal,
            winner: self.winner,
            history: self.move_history@,
        }
    }
}

impl BoardView {
    /// Structural well-formedness: every operation of the board keeps it.
    pub open spec fn wf(self) -> bool {
        &&& self.max_level == 2
        &&& self.spaces.len() == 91
        &&& (self.to_move == Player::X || self.to_move == Player::O)
        &&& bounds_wf(self.next_legal)
        &&& (self.winner == Player::NEITHER ==> self.spaces[90] == Player::NEITHER)
        &&& (forall|i: int| 0 <= i < 81 ==> self.spaces[i] != Player::DEAD)
        &&& (forall|i: int|
            0 <= i < self.history.len() ==> (#[trigger] self.history[i]).wf())
    }

    /// The fresh board: X to move, everything unoccupied, any cell legal.
    pub open spec fn init(max_level: usize) -> BoardView {
        BoardView {
            max_level: max_level,
            to_move: Player::X,
            spaces: Seq::new(91, |i: int| Player::NEITHER),
            next_legal: Square { top_left: 0, level: max_level },
            winner: Player::NEITHER,
            history: Seq::empty(),
        }
    }

    /// Where a square's owner is stored in `spaces`.
    pub open spec fn square_index(sqr: Square) -> int {
        if sqr.level == 0 {
            sqr.top_left as int
        } else if sqr.level == 1 {
            81 + sqr.top_left as int / 9
        } else {
            90
        }
    }

    /// The owner of a square.
    pub open spec fn at_square(self, sqr: Square) -> Player {
        self.spaces[Self::square_index(sqr)]
    }

    /// The last cell of a constraint square.
    pub open spec fn square_last_cell(sqr: Square) -> int {
        if sqr.level == 1 {
            sqr.top_left + 8
        } else {
            80
        }
    }

    /// Whether `space` lies inside the current `next_legal` bounds.
    pub open spec fn in_legal_bounds(self, space: usize) -> bool {
        self.next_legal.top_left <= space <= Self::square_last_cell(self.next_legal)
    }
}

impl Board {
    /// The player who will make the next move.
    pub fn get_to_move(&self) -> (r: Player)
        ensures
            r == self@.to_move,
    {
        self.to_move
    }

    /// Creates a new board. `max_level_` names the top level of the board;
    /// the engine is specialised to the two-level (9x9) game.
    pub fn new(max_level_: usize) -> (result: Board)
        requires
            max_level_ == 2,
        ensures
            result@ == BoardView::init(max_level_),
            result@.wf(),
    {
        let mut spaces: Vec<Player> = Vec::with_capacity(91);
        let mut i: usize = 0;
        while i < 91
            invariant
                i <= 91,
                spaces@.len() == i as int,
                forall|j: int| 0 <= j < i ==> spaces@[j] == Player::NEITHER,
            decreases 91 - i,
        {
            spaces.push(Player::NEITHER);
            i += 1;
        }
        let result = Board {
            max_level: max_level_,
            to_move: Player::X,
            spaces,
            next_legal: Square { top_left: 0, level: max_level_ },
            winner: Player::NEITHER,
            move_history: Vec::with_capacity(81),
        };
        proof {
            assert(result@.spaces =~= BoardView::init(max_level_).spaces);
            assert(result@.history =~= BoardView::init(max_level_).history);
            assert(result@ =~= BoardView::init(max_level_));
        }
        result
    }

    /// The owner of a square: a cell, a level-1 sub-board, or the whole
    /// board.
    pub fn get(&self, sqr: Square) -> (r: Player)
        requires
            self@.wf(),
            sqr.level <= 2,
            sqr.level < 2 ==> sqr.top_left < 81,
        ensures
            r == self@.at_square(sqr),
    {
        if sqr.level == 0 {
            self.spaces[sqr.top_left]
        } else if sqr.level == 1 {
            self.spaces[81 + sqr.top_left / 9]
        } else {
            self.spaces[90]
        }
    }

    /// Record the owner of a square.
    fn set(&mut self, sqr: Square, player: Player)
        requires
            old(self)@.spaces.len() == 91,
            sqr.level <= 2,
            sqr.level < 2 ==> sqr.top_left < 81,
        ensures
            final(self)@ == (BoardView {
                spaces: old(self)@.spaces.update(
                    BoardView::square_index(sqr),
                    player,
                ),
                ..old(self)@
            }),
    {
        if sqr.level == 0 {
            self.spaces[sqr.top_left] = player;
        } else if sqr.level == 1 {
            self.spaces[81 + sqr.top_left / 9] = player;
        } else {
            self.spaces[90] = player;
        }
    }

    /// The cell index of the bottom-right corner of a constraint square.
    fn bottom_right(&self, sqr: Square) -> (r: usize)
        requires
            bounds_wf(sqr),
        ensures
            r as int == BoardView::square_last_cell(sqr),
    {
        if sqr.level == 1 {
            sqr.top_left + 8
        } else {
            80
        }
    }

    /// Is the given cell inside the bounds for this turn?
    fn in_bounds(&self, space: usize) -> (r: bool)
        requires
            self@.wf(),
        ensures
            r == self@.in_legal_bounds(space),
    {
        space >= self.next_legal.top_left && space <= self.bottom_right(self.next_legal)
    }

    /// One of the nine sub-squares composing `sqr`, where `i` counts
    /// row-major: descending from a sub-board gives its `i`-th cell,
    /// descending from the whole board gives the `i`-th sub-board.
    fn descend(&self, sqr: &Square, i: usize) -> (r: Square)
        requires
            sqr.level == 1 || sqr.level == 2,
            sqr.level == 1 ==> sqr.top_left < 81 && sqr.top_left % 9 == 0,
            i < 9,
        ensures
            r == spec_descend(*sqr, i),
    {
        if sqr.level == 1 {
            Square { top_left: sqr.top_left + i, level: 0 }
        } else {
            Square { top_left: i * 9, level: 1 }
        }
    }

    /// The square that contains `sqr`, and which of its nine sub-squares
    /// `sqr` is.
    fn ascend(&self, sqr: &Square) -> (r: (Square, usize))
        requires
            sqr.level <= 1,
            sqr.top_left < 81,
        ensures
            r == spec_ascend(*sqr),
    {
        if sqr.level == 0 {
            let i = sqr.top_left % 9;
            (Square { top_left: sqr.top_left - i, level: 1 }, i)
        } else {
            (Square { top_left: 0, level: 2 }, sqr.top_left / 9)
        }
    }
}

// ---------------------------------------------------------------------
// Victory checks
// ---------------------------------------------------------------------
/// The three squares `a`, `b`, `c` of `o` are all owned by `p`.
pub open spec fn line3(o: Seq<Player>, p: Player, a: int, b: int, c: int) -> bool {
    o[a] == p && o[b] == p && o[c] == p
}

/// `p` owns one of the eight tic-tac-toe lines of the nine squares `o`.
pub open spec fn has_line(o: Seq<Player>, p: Player) -> bool {
    ||| line3(o, p, 0, 1, 2)
    ||| line3(o, p, 3, 4, 5)
    ||| line3(o, p, 6, 7, 8)
    ||| line3(o, p, 0, 3, 6)
    ||| line3(o, p, 1, 4, 7)
    ||| line3(o, p, 2, 5, 8)
    ||| line3(o, p, 0, 4, 8)
    ||| line3(o, p, 2, 4, 6)
}

/// All nine squares are occupied (by a player or DEAD).
pub open spec fn all_occupied(o: Seq<Player>) -> bool {
    forall|i: int| 0 <= i < 9 ==> o[i] != Player::NEITHER
}

/// What `check_victory` reports for the nine sub-square owners `o` when
/// `who` is the player to move: `who` if they own a line, `DEAD` if the
/// square is full with no such line, else `NEITHER`.
pub open spec fn square_result(o: Seq<Player>, who: Player) -> Player {
    if has_line(o, who) {
        who
    } else if all_occupied(o) {
        Player::DEAD
    } else {
        Player::NEITHER
    }
}

/// The player-independent classification of a square: X or O when that
/// player owns one of the eight lines (X reported first on a board
/// where both would), DEAD when all nine sub-squares are occupied with
/// no such line, and NEITHER otherwise.
pub open spec fn square_winner(o: Seq<Player>) -> Player {
    if has_line(o, Player::X) {
        Player::X
    } else if has_line(o, Player::O) {
        Player::O
    } else if all_occupied(o) {
        Player::DEAD
    } else {
        Player::NEITHER
    }
}

/// The three squares `a`, `b`, `c` are equal and owned by a real player.
/// A line of DEAD squares is not a victory line.
pub open spec fn real_line(o: Seq<Player>, a: int, b: int, c: int) -> bool {
    o[a] == o[b] && o[b] == o[c] && (o[a] == Player::X || o[a] == Player::O)
}

/// What `check_victory_old` reports: the owner of the first completed
/// line in its fixed checking order (rows, columns, diagonals), `DEAD`
/// for a full square without one, else `NEITHER`.
pub open spec fn spec_check_old(o: Seq<Player>) -> Player {
    if real_line(o, 0, 1, 2) {
        o[0]
    } else if real_line(o, 3, 4, 5) {
        o[3]
    } else if real_line(o, 6, 7, 8) {
        o[6]
    } else if real_line(o, 0, 3, 6) {
        o[0]
    } else if real_line(o, 1, 4, 7) {
        o[1]
    } else if real_line(o, 2, 5, 8) {
        o[2]
    } else if real_line(o, 0, 4, 8) {
        o[0]
    } else if real_line(o, 2, 4, 6) {
        o[2]
    } else if all_occupied(o) {
        Player::DEAD
    } else {
        Player::NEITHER
    }
}

/// Bit `j` of the 9-bit occupancy pattern `p`.
pub open spec fn bit_at(p: u16, j: u16) -> bool {
    (p >> j) & 1 == 1
}

/// The 9-bit pattern `p` contains one of the eight winning triples.
pub open spec fn wins_pattern(p: u16) -> bool {
    ||| (p & 0x007) == 0x007
    ||| (p & 0x038) == 0x038
    ||| (p & 0x1c0) == 0x1c0
    ||| (p & 0x049) == 0x049
    ||| (p & 0x092) == 0x092
    ||| (p & 0x124) == 0x124
    ||| (p & 0x111) == 0x111
    ||| (p & 0x054) == 0x054
}

/// The win table for all 3x3 boards, as eight 64-bit words: bit `p` of
/// the 512-bit table is set iff the 9-bit occupancy pattern `p` contains
/// a winning triple.
pub open spec fn spec_win_word(idx: u16) -> u64 {
    if idx == 0 {
        0xff80808080808080
    } else if idx == 1 {
        0xfff0aa80faf0aa80
    } else if idx == 2 {
        0xffcc8080cccc8080
    } else if idx == 3 {
        0xfffcaa80fefcaa80
    } else if idx == 4 {
        0xfffaf0f0aaaa8080
    } else if idx == 5 {
        0xfffafaf0fafaaa80
    } else if idx == 6 {
        0xfffef0f0eeee8080
    } else {
        0xffffffffffffffff
    }
}

/// Setting one bit below 9 keeps the pattern below 512, sets that bit,
/// and leaves every other bit alone.
proof fn lemma_set_bit(p: u16, k: u16, j: u16)
    by (bit_vector)
    requires
        p < 512,
        k < 9,
        j < 9,
    ensures
        (p | (1u16 << k)) < 512,
        bit_at(p | (1u16 << k), j) == (bit_at(p, j) || j == k),
{
}

/// No bit of the zero pattern is set.
proof fn lemma_zero_bits(j: u16)
    by (bit_vector)
    ensures
        !bit_at(0u16, j),
{
}

/// The win table agrees with the eight winning triples on every pattern.
proof fn lemma_win_table(p: u16)
    by (bit_vector)
    requires
        p < 512,
    ensures
        ((spec_win_word(p / 64) >> ((p % 64) as u64)) & 1 != 0) == wins_pattern(p),
{
}

/// The triple masks of `wins_pattern` say exactly that three bits of the
/// pattern are set.
proof fn lemma_pattern_bits(
    p: u16,
    b0: bool,
    b1: bool,
    b2: bool,
    b3: bool,
    b4: bool,
    b5: bool,
    b6: bool,
    b7: bool,
    b8: bool,
)
    by (bit_vector)
    requires
        bit_at(p, 0) == b0,
        bit_at(p, 1) == b1,
        bit_at(p, 2) == b2,
        bit_at(p, 3) == b3,
        bit_at(p, 4) == b4,
        bit_at(p, 5) == b5,
        bit_at(p, 6) == b6,
        bit_at(p, 7) == b7,
        bit_at(p, 8) == b8,
    ensures
        wins_pattern(p) == ((b0 && b1 && b2) || (b3 && b4 && b5) || (b6 && b7 && b8) || (b0 && b3
            && b6) || (b1 && b4 && b7) || (b2 && b5 && b8) || (b0 && b4 && b8) || (b2 && b4
            && b6)),
{
}

impl BoardView {
    /// The owners of the nine sub-squares of a level-1 or level-2 square.
    pub open spec fn sub_owners(self, sqr: Square) -> Seq<Player> {
        if sqr.level == 1 {
            Seq::new(9, |i: int| self.spaces[sqr.top_left + i])
        } else {
            Seq::new(9, |i: int| self.spaces[81 + i])
        }
    }
}

impl Board {
    /// Whether `who` owns a completed line of the nine sub-squares of
    /// `sqr`, via the precomputed win table.
    fn player_line(&self, sqr: &Square, who: Player) -> (r: bool)
        requires
            self@.wf(),
            (sqr.level == 1 && sqr.top_left < 81 && sqr.top_left % 9 == 0) || (sqr.level == 2
                && sqr.top_left == 0),
        ensures
            r == has_line(self@.sub_owners(*sqr), who),
    {
        let ghost owners = self@.sub_owners(*sqr);
        let mut block: u16 = 0;
        proof {
            assert forall|j: u16| j < 9 implies !bit_at(block, j) by {
                lemma_zero_bits(j);
            }
        }
        let mut i: usize = 0;
        while i < 9
            invariant
                self@.wf(),
                (sqr.level == 1 && sqr.top_left < 81 && sqr.top_left % 9 == 0) || (sqr.level == 2
                    && sqr.top_left == 0),
                owners == self@.sub_owners(*sqr),
                i <= 9,
                block < 512,
                forall|j: u16|
                    j < 9 ==> (bit_at(block, j) == (j < i && owners[j as int] == who)),
            decreases 9 - i,
        {
            let sub = self.descend(sqr, i);
            proof {
                if sqr.level == 2 {
                    assert(sub.top_left as int / 9 == i as int) by (nonlinear_arith)
                        requires
                            sub.top_left as int == i as int * 9,
                            i < 9,
                    ;
                }
                assert(self@.at_square(sub) == owners[i as int]);
            }
            if self.get(sub) == who {
                let ghost old_block = block;
                block = block | (1u16 << (i as u16));
                proof {
                    assert forall|j: u16| j < 9 implies (bit_at(block, j) == (j < i + 1
                        && owners[j as int] == who)) by {
                        lemma_set_bit(old_block, i as u16, j);
                    }
                    // One more instantiation keeps the pattern below 512.
                    lemma_set_bit(old_block, i as u16, 0);
                }
            }
            i += 1;
        }
        proof {
            lemma_win_table(block);
            lemma_pattern_bits(
                block,
                owners[0] == who,
                owners[1] == who,
                owners[2] == who,
                owners[3] == who,
                owners[4] == who,
                owners[5] == who,
                owners[6] == who,
                owners[7] == who,
                owners[8] == who,
            );
        }
        let word = win_word(block / 64);
        (word >> ((block % 64) as u64)) & 1 != 0
    }

    /// Whether all nine sub-squares of `sqr` are occupied.
    fn square_full(&self, sqr: &Square) -> (r: bool)
        requires
            self@.wf(),
            (sqr.level == 1 && sqr.top_left < 81 && sqr.top_left % 9 == 0) || (sqr.level == 2
                && sqr.top_left == 0),
        ensures
            r == all_occupied(self@.sub_owners(*sqr)),
    {
        let ghost owners = self@.sub_owners(*sqr);
        let mut full = true;
        let mut k: usize = 0;
        while k < 9
            invariant
                self@.wf(),
                (sqr.level == 1 && sqr.top_left < 81 && sqr.top_left % 9 == 0) || (sqr.level == 2
                    && sqr.top_left == 0),
                owners == self@.sub_owners(*sqr),
                k <= 9,
                full == (forall|j: int| 0 <= j < k ==> owners[j] != Player::NEITHER),
            decreases 9 - k,
        {
            let sub = self.descend(sqr, k);
            proof {
                if sqr.level == 2 {
                    assert(sub.top_left as int / 9 == k as int) by (nonlinear_arith)
                        requires
                            sub.top_left as int == k as int * 9,
                            k < 9,
                    ;
                }
                assert(self@.at_square(sub) == owners[k as int]);
            }
            if self.get(sub) == Player::NEITHER {
                full = false;
            }
            k += 1;
        }
        full
    }

    /// The capture check of `make_move`'s hot path: whether the player
    /// to move has just completed a line of the nine sub-squares of
    /// `sqr`, or filled the square into a draw. On boards reached by
    /// play only the mover can have completed a new line, so within
    /// `make_move` this agrees with `check_victory`.
    fn check_capture(&self, sqr: &Square) -> (r: Player)
        requires
            self@.wf(),
            (sqr.level == 1 && sqr.top_left < 81 && sqr.top_left % 9 == 0) || (sqr.level == 2
                && sqr.top_left == 0),
        ensures
            r == square_result(self@.sub_owners(*sqr), self@.to_move),
    {
        let who = self.get_to_move();
        if self.player_line(sqr, who) {
            return who;
        }
        if self.square_full(sqr) {
            return Player::DEAD;
        }
        Player::NEITHER
    }

    /// Determine the owner of `sqr` from its nine immediate sub-squares,
    /// via the precomputed win table: X or O when that player owns one
    /// of the eight standard tic-tac-toe lines, DEAD when all nine
    /// sub-squares are occupied with no such line, and NEITHER
    /// otherwise. A completed line of DEAD squares does not win.
    pub fn check_victory(&self, sqr: &Square) -> (r: Player)
        requires
            self@.wf(),
            (sqr.level == 1 && sqr.top_left < 81 && sqr.top_left % 9 == 0) || (sqr.level == 2
                && sqr.top_left == 0),
        ensures
            r == square_winner(self@.sub_owners(*sqr)),
    {
        if self.player_line(sqr, Player::X) {
            return Player::X;
        }
        if self.player_line(sqr, Player::O) {
            return Player::O;
        }
        if self.square_full(sqr) {
            return Player::DEAD;
        }
        Player::NEITHER
    }

    /// Determine the owner of `sqr` by checking the eight lines one by
    /// one: rows, then columns, then the diagonals. Returns the owner of
    /// the first completed line of a real player, DEAD when all nine
    /// sub-squares are occupied with no such line, and NEITHER otherwise.
    pub fn check_victory_old(&self, sqr: &Square) -> (r: Player)
        requires
            self@.wf(),
            (sqr.level == 1 && sqr.top_left < 81 && sqr.top_left % 9 == 0) || (sqr.level == 2
                && sqr.top_left == 0),
        ensures
            r == spec_check_old(self@.sub_owners(*sqr)),
    {
        let ghost owners = self@.sub_owners(*sqr);
        let mut this_board: Vec<Player> = Vec::with_capacity(9);
        let mut i: usize = 0;
        while i < 9
            invariant
                self@.wf(),
                (sqr.level == 1 && sqr.top_left < 81 && sqr.top_left % 9 == 0) || (sqr.level == 2
                    && sqr.top_left == 0),
                owners == self@.sub_owners(*sqr),
                i <= 9,
                this_board@.len() == i as int,
                forall|j: int| 0 <= j < i ==> this_board@[j] == owners[j],
            decreases 9 - i,
        {
            let sub = self.descend(sqr, i);
            proof {
                if sqr.level == 2 {
                    assert(sub.top_left as int / 9 == i as int) by (nonlinear_arith)
                        requires
                            sub.top_left as int == i as int * 9,
                            i < 9,
                    ;
                }
                assert(self@.at_square(sub) == owners[i as int]);
            }
            this_board.push(self.get(sub));
            i += 1;
        }
        // The horizontals.
        if this_board[0] == this_board[1] && this_board[1] == this_board[2] {
            if this_board[0] != Player::NEITHER && this_board[0] != Player::DEAD {
                return this_board[0];
            }
        }
        if this_board[3] == this_board[4] && this_board[4] == this_board[5] {
            if this_board[3] != Player::NEITHER && this_board[3] != Player::DEAD {
                return this_board[3];
            }
        }
        if this_board[6] == this_board[7] && this_board[7] == this_board[8] {
            if this_board[6] != Player::NEITHER && this_board[6] != Player::DEAD {
                return this_board[6];
            }
        }
        // The verticals.
        if this_board[0] == this_board[3] && this_board[3] == this_board[6] {
            if this_board[0] != Player::NEITHER && this_board[0] != Player::DEAD {
                return this_board[0];
            }
        }
        if this_board[1] == this_board[4] && this_board[4] == this_board[7] {
            if this_board[1] != Player::NEITHER && this_board[1] != Player::DEAD {
                return this_board[1];
            }
        }
        if this_board[2] == this_board[5] && this_board[5] == this_board[8] {
            if this_board[2] != Player::NEITHER && this_board[2] != Player::DEAD {
                return this_board[2];
            }
        }
        // The diagonals.
        if this_board[0] == this_board[4] && this_board[4] == this_board[8] {
            if this_board[0] != Player::NEITHER && this_board[0] != Player::DEAD {
                return this_board[0];
            }
        }
        if this_board[2] == this_board[4] && this_board[4] == this_board[6] {
            if this_board[2] != Player::NEITHER && this_board[2] != Player::DEAD {
                return this_board[2];
            }
        }
        // Check for a draw.
        let mut draw = true;
        let mut k: usize = 0;
        while k < 9
            invariant
                this_board@.len() == 9,
                forall|j: int| 0 <= j < 9 ==> this_board@[j] == owners[j],
                k <= 9,
                draw == (forall|j: int| 0 <= j < k ==> owners[j] != Player::NEITHER),
            decreases 9 - k,
        {
            proof {
                if !draw {
                    let jw = choose|j: int| 0 <= j < k && owners[j] == Player::NEITHER;
                    assert(0 <= jw < k + 1 && owners[jw] == Player::NEITHER);
                }
            }
            if this_board[k] == Player::NEITHER {
                draw = false;
                proof {
                    assert(owners[k as int] == Player::NEITHER);
                }
            }
            k += 1;
        }
        if draw {
            return Player::DEAD;
        }
        Player::NEITHER
    }
}

// ---------------------------------------------------------------------
// Moves
// ---------------------------------------------------------------------
impl BoardView {
    /// A cell is legal iff it lies in the `next_legal` bounds, is
    /// unoccupied, and its level-1 sub-board is unresolved.
    pub open spec fn is_legal(self, space: usize) -> bool {
        &&& space < 81
        &&& self.in_legal_bounds(space)
        &&& self.spaces[space as int] == Player::NEITHER
        &&& self.spaces[81 + space as int / 9] == Player::NEITHER
    }

    /// `make_move` succeeds iff the game is ongoing and the cell is legal.
    pub open spec fn move_ok(self, space: usize) -> bool {
        self.winner == Player::NEITHER && self.is_legal(space)
    }

    /// The legal cells in `[lo, hi)`, in ascending order.
    pub open spec fn legal_between(self, lo: int, hi: int) -> Seq<usize>
        decreases hi - lo,
    {
        if lo >= hi {
            Seq::empty()
        } else {
            self.legal_between(lo, hi - 1) + (if self.is_legal((hi - 1) as usize) {
                seq![(hi - 1) as usize]
            } else {
                Seq::empty()
            })
        }
    }

    /// All legal cells, in ascending order: what `get_moves` returns.
    pub open spec fn legal_moves(self) -> Seq<usize> {
        self.legal_between(0, 81)
    }

    /// The bounds for the next move once the move at `space` is applied:
    /// the sub-board matching the cell's position within its own
    /// sub-board, or the whole board when that target is resolved.
    /// Evaluated on the spaces after capture propagation.
    pub open spec fn next_bounds(self, space: usize) -> Square {
        if self.spaces[81 + space as int % 9] == Player::NEITHER {
            Square { top_left: ((space % 9) * 9) as usize, level: 1 }
        } else {
            Square { top_left: 0, level: 2 }
        }
    }

    /// The board after a successful move at `space`: the cell is written,
    /// captures propagate upward (a level-2 resolution decides the game),
    /// the move is recorded, the bounds are updated, and the turn passes.
    pub open spec fn spec_make(self, space: usize) -> BoardView
        recommends
            self.wf(),
            self.move_ok(space),
    {
        let who = self.to_move;
        let turn0 = Turn { space, capture: 81, bounds: self.next_legal };
        let v1 = BoardView { spaces: self.spaces.update(space as int, who), ..self };
        let cap_sq = Square { top_left: ((space / 9) * 9) as usize, level: 1 };
        let r1 = square_result(v1.sub_owners(cap_sq), who);
        if r1 == Player::NEITHER {
            BoardView {
                next_legal: v1.next_bounds(space),
                to_move: other_player(who),
                history: self.history.push(turn0),
                ..v1
            }
        } else {
            let turn = Turn { space, capture: cap_sq.top_left, bounds: self.next_legal };
            let v2 = BoardView {
                spaces: v1.spaces.update(81 + space as int / 9, r1),
                ..v1
            };
            let r2 = square_result(v2.sub_owners(Square { top_left: 0, level: 2 }), who);
            if r2 == Player::NEITHER {
                BoardView {
                    next_legal: v2.next_bounds(space),
                    to_move: other_player(who),
                    history: self.history.push(turn),
                    ..v2
                }
            } else {
                BoardView {
                    spaces: v2.spaces.update(90, r2),
                    winner: r2,
                    to_move: other_player(who),
                    history: self.history.push(turn),
                    ..v2
                }
            }
        }
    }

    /// The board after undoing the most recent move: the recorded cell
    /// and capture are cleared, the game is reopened, and the prior
    /// bounds are restored.
    pub open spec fn spec_undo(self) -> BoardView
        recommends
            self.history.len() > 0,
    {
        let t = self.history.last();
        let s1 = self.spaces.update(90, Player::NEITHER).update(t.space as int, Player::NEITHER);
        let s2 = if t.capture != 81 {
            s1.update(81 + t.capture as int / 9, Player::NEITHER)
        } else {
            s1
        };
        BoardView {
            spaces: s2,
            winner: Player::NEITHER,
            next_legal: t.bounds,
            to_move: other_player(self.to_move),
            history: self.history.drop_last(),
            ..self
        }
    }
}

/// Division and remainder facts about the cell numbering that the solver
/// does not find on its own.
proof fn lemma_cell_arith(space: usize)
    by (nonlinear_arith)
    requires
        space < 81,
    ensures
        (space as int) / 9 < 9,
        ((space / 9) * 9) as int == (space as int) - ((space as int) % 9),
        (((space / 9) * 9) as int) % 9 == 0,
        (((space / 9) * 9) as int) / 9 == (space as int) / 9,
        (((space % 9) * 9) as int) % 9 == 0,
        (((space % 9) * 9) as int) / 9 == (space as int) % 9,
        (((space % 9) * 9) as int) < 81,
        ((space as int) - ((space as int) % 9)) / 9 == (space as int) / 9,
{
}

impl Board {
    /// The current legal moves, in ascending cell order. On every board
    /// reached by legal moves this is nonempty while the game is
    /// ongoing: see `lemma_ongoing_game_has_moves` and the `playable`
    /// invariant.
    pub fn get_moves(&self) -> (r: Vec<usize>)
        requires
            self@.wf(),
        ensures
            r@ == self@.legal_moves(),
    {
        let mut vec: Vec<usize> = Vec::with_capacity(81);
        let lo = self.next_legal.top_left;
        let hi = self.bottom_right(self.next_legal);
        proof {
            self@.lemma_legal_between_none(0, lo as int);
        }
        let mut i: usize = lo;
        while i <= hi
            invariant
                self@.wf(),
                lo == self@.next_legal.top_left,
                hi as int == BoardView::square_last_cell(self@.next_legal),
                lo <= 80,
                hi <= 80,
                lo <= i <= hi + 1,
                vec@ == self@.legal_between(lo as int, i as int),
            decreases hi + 1 - i,
        {
            proof {
                lemma_cell_arith(i);
            }
            let cell_sq = Square { top_left: i, level: 0 };
            let (container, _pos) = self.ascend(&cell_sq);
            if self.get(cell_sq) == Player::NEITHER && self.get(container) == Player::NEITHER {
                vec.push(i);
                proof {
                    assert(self@.is_legal(i));
                    assert(vec@ =~= self@.legal_between(lo as int, i as int + 1));
                }
            } else {
                proof {
                    assert(!self@.is_legal(i));
                    assert(vec@ =~= self@.legal_between(lo as int, i as int + 1));
                }
            }
            i += 1;
        }
        proof {
            self@.lemma_legal_between_none(hi as int + 1, 81);
            self@.lemma_legal_between_split(0, lo as int, hi as int + 1);
            self@.lemma_legal_between_split(0, hi as int + 1, 81);
            assert(vec@ =~= self@.legal_moves());
        }
        vec
    }

    /// Switch `to_move` to the next player.
    fn next_player(&mut self)
        requires
            old(self)@.wf(),
        ensures
            final(self)@ == (BoardView { to_move: other_player(old(self)@.to_move), ..old(self)@ }),
    {
        if self.to_move == Player::X {
            self.to_move = Player::O;
        } else {
            self.to_move = Player::X;
        }
    }

    /// Update the bounds for the next move as if `move_sqr` was the cell
    /// just played: descend from the top into the sub-board matching the
    /// cell's position, then ascend while that target is already
    /// resolved. The game being undecided, the ascent stops at the top.
    fn update_move_bounds(&mut self, move_sqr: &Square)
        requires
            old(self)@.wf(),
            move_sqr.level == 0,
            move_sqr.top_left < 81,
            old(self)@.winner == Player::NEITHER,
        ensures
            final(self)@ == (BoardView {
                next_legal: old(self)@.next_bounds(move_sqr.top_left),
                ..old(self)@
            }),
    {
        proof {
            lemma_cell_arith(move_sqr.top_left);
        }
        let ghost orig = self@;
        let ghost space = move_sqr.top_left;
        let (mid_square, i) = self.ascend(move_sqr);
        let (highest_sqr, _j) = self.ascend(&mid_square);
        self.next_legal = self.descend(&highest_sqr, i);
        while self.get(self.next_legal) != Player::NEITHER
            invariant
                self@.wf(),
                self@ == (BoardView { next_legal: self@.next_legal, ..orig }),
                orig.winner == Player::NEITHER,
                space < 81,
                forall|i: int|
                    0 <= i < orig.history.len() ==> (#[trigger] orig.history[i]).wf(),
                self@.next_legal == (Square {
                    top_left: ((space % 9) * 9) as usize,
                    level: 1,
                }) || self@.next_legal == (Square { top_left: 0, level: 2 }),
                self@.next_legal.level == 2 ==> orig.spaces[81 + space as int % 9]
                    != Player::NEITHER,
            decreases 2 - self@.next_legal.level,
        {
            proof {
                lemma_cell_arith(space);
            }
            let (temp, _k) = self.ascend(&self.next_legal);
            self.next_legal = temp;
            proof {
                assert forall|i: int|
                    0 <= i < self@.history.len() implies (#[trigger] self@.history[i]).wf() by {
                    assert(self@.history[i] == orig.history[i]);
                }
            }
        }
        proof {
            lemma_cell_arith(space);
            assert(final(self)@ =~= (BoardView { next_legal: orig.next_bounds(space), ..orig }));
        }
    }

    /// Attempt to place the current player at `space`. Returns true iff
    /// the move is legal and the game is ongoing; an illegal attempt
    /// leaves the board untouched. On success the cell is written, the
    /// move is recorded, captures propagate level by level (a level-2
    /// resolution setting the winner), the bounds for the next move are
    /// updated, and the turn passes to the other player.
    pub fn make_move(&mut self, space: usize) -> (ok: bool)
        requires
            old(self)@.wf(),
        ensures
            final(self)@.wf(),
            ok == old(self)@.move_ok(space),
            ok ==> final(self)@ == old(self)@.spec_make(space),
            !ok ==> final(self)@ == old(self)@,
    {
        if space >= 81 {
            return false;
        }
        proof {
            lemma_cell_arith(space);
        }
        let move_sqr = Square { top_left: space, level: 0 };
        let (container, _pos) = self.ascend(&move_sqr);
        // Make sure this square is available.
        if self.get(move_sqr) != Player::NEITHER || self.get(container) != Player::NEITHER
            || self.winner != Player::NEITHER {
            return false;
        }
        // Check that the move is in the legal bounds.
        if !self.in_bounds(space) {
            return false;
        }
        let ghost orig = self@;
        // Write this move to the board.
        let who = self.get_to_move();
        self.set(move_sqr, who);
        let mut turn = Turn { space, capture: 81, bounds: self.next_legal };
        // Check the containing sub-board for a capture, and on a capture
        // the whole board for a win or draw: a level-2 resolution implies
        // the level-1 resolution made on the same move.
        let r1 = self.check_capture(&container);
        if r1 != Player::NEITHER {
            self.set(container, r1);
            turn.capture = container.top_left;
            let top_sq = Square { top_left: 0, level: 2 };
            let r2 = self.check_capture(&top_sq);
            if r2 != Player::NEITHER {
                self.set(top_sq, r2);
                self.winner = r2;
            }
        }
        if self.winner == Player::NEITHER {
            self.update_move_bounds(&move_sqr);
        }
        self.move_history.push(turn);
        self.next_player();
        proof {
            assert(final(self)@ =~= orig.spec_make(space));
        }
        true
    }

    /// Undo the most recent move, restoring the exact prior state: the
    /// recorded cell and capture are cleared, the winner is reset, and
    /// the prior bounds are restored. Returns false iff no moves have
    /// been made, in which case nothing changes.
    pub fn undo_move(&mut self) -> (ok: bool)
        requires
            old(self)@.wf(),
        ensures
            final(self)@.wf(),
            ok == (old(self)@.history.len() > 0),
            ok ==> final(self)@ == old(self)@.spec_undo(),
            !ok ==> final(self)@ == old(self)@,
    {
        if self.move_history.len() == 0 {
            return false;
        }
        self.winner = Player::NEITHER;
        self.set(Square { top_left: 0, level: 2 }, Player::NEITHER);
        let t = self.move_history.pop().unwrap();
        self.set(Square { top_left: t.space, level: 0 }, Player::NEITHER);
        if t.capture != 81 {
            self.set(Square { top_left: t.capture, level: 1 }, Player::NEITHER);
        }
        self.next_legal = t.bounds;
        self.next_player();
        proof {
            assert(final(self)@ =~= old(self)@.spec_undo());
        }
        true
    }
}

impl BoardView {
    /// An interval holding no legal cell contributes nothing.
    pub proof fn lemma_legal_between_none(self, lo: int, hi: int)
        requires
            forall|m: int| lo <= m < hi ==> !self.is_legal(#[trigger] (m as usize)),
        ensures
            self.legal_between(lo, hi) == Seq::<usize>::empty(),
        decreases hi - lo,
    {
        if lo < hi {
            self.lemma_legal_between_none(lo, hi - 1);
            assert(self.legal_between(lo, hi) =~= Seq::<usize>::empty());
        }
    }

    /// `legal_between` concatenates across a split point.
    pub proof fn lemma_legal_between_split(self, lo: int, mid: int, hi: int)
        requires
            lo <= mid <= hi,
        ensures
            self.legal_between(lo, hi) == self.legal_between(lo, mid) + self.legal_between(
                mid,
                hi,
            ),
        decreases hi - mid,
    {
        if mid == hi {
            assert(self.legal_between(lo, hi) =~= self.legal_between(lo, mid) + self.legal_between(
                mid,
                hi,
            ));
        } else {
            self.lemma_legal_between_split(lo, mid, hi - 1);
            assert(self.legal_between(lo, hi) =~= self.legal_between(lo, mid) + self.legal_between(
                mid,
                hi,
            ));
        }
    }

    /// Membership in `legal_between` is exactly legality within range.
    pub proof fn lemma_legal_between_contains(self, lo: int, hi: int, m: usize)
        requires
            0 <= lo,
            hi <= 81,
        ensures
            self.legal_between(lo, hi).contains(m) <==> (lo <= (m as int) < hi && self.is_legal(
                m,
            )),
        decreases hi - lo,
    {
        if lo < hi {
            self.lemma_legal_between_contains(lo, hi - 1, m);
            let a = self.legal_between(lo, hi - 1);
            let b: Seq<usize> = if self.is_legal((hi - 1) as usize) {
                seq![(hi - 1) as usize]
            } else {
                Seq::empty()
            };
            assert(self.legal_between(lo, hi) == a + b);
            if self.legal_between(lo, hi).contains(m) {
                let i = choose|i: int| 0 <= i < (a + b).len() && (a + b)[i] == m;
                if i < a.len() {
                    assert(a[i] == m);
                    assert(a.contains(m));
                } else {
                    assert(b[i - a.len()] == m);
                }
            }
            if lo <= (m as int) < hi && self.is_legal(m) {
                if (m as int) < hi - 1 {
                    let i = choose|i: int| 0 <= i < a.len() && a[i] == m;
                    assert((a + b)[i] == m);
                } else {
                    assert((a + b)[a.len() as int] == m);
                }
            }
        }
    }

    /// Membership in `legal_moves` is exactly legality.
    pub proof fn lemma_legal_moves_contains(self, m: usize)
        ensures
            self.legal_moves().contains(m) <==> self.is_legal(m),
    {
        self.lemma_legal_between_contains(0, 81, m);
    }
}

// ---------------------------------------------------------------------
// Cloning and comparison
// ---------------------------------------------------------------------
/// Copy a vector of cells.
fn clone_players(v: &Vec<Player>) -> (r: Vec<Player>)
    ensures
        r@ == v@,
{
    let mut r: Vec<Player> = Vec::with_capacity(v.len());
    let mut i: usize = 0;
    while i < v.len()
        invariant
            i <= v.len(),
            r@.len() == i as int,
            forall|j: int| 0 <= j < i ==> r@[j] == v@[j],
        decreases v.len() - i,
    {
        r.push(v[i]);
        i += 1;
    }
    proof {
        assert(r@ =~= v@);
    }
    r
}

/// Copy a move history.
fn clone_turns(v: &Vec<Turn>) -> (r: Vec<Turn>)
    ensures
        r@ == v@,
{
    let mut r: Vec<Turn> = Vec::with_capacity(v.len());
    let mut i: usize = 0;
    while i < v.len()
        invariant
            i <= v.len(),
            r@.len() == i as int,
            forall|j: int| 0 <= j < i ==> r@[j] == v@[j],
        decreases v.len() - i,
    {
        r.push(v[i]);
        i += 1;
    }
    proof {
        assert(r@ =~= v@);
    }
    r
}

impl Clone for Board {
    /// A clone carries the same abstract state; clones are cheap enough
    /// to serve as search frontiers.
    fn clone(&self) -> (res: Board)
        ensures
            res@ == self@,
    {
        let res = Board {
            max_level: self.max_level,
            to_move: self.to_move,
            spaces: clone_players(&self.spaces),
            next_legal: self.next_legal,
            winner: self.winner,
            move_history: clone_turns(&self.move_history),
        };
        proof {
            assert(res@ =~= self@);
        }
        res
    }
}

impl PartialEq for Board {
    /// Two boards are equal when every observable field agrees.
    fn eq(&self, other: &Board) -> (r: bool) {
        if self.max_level != other.max_level || self.to_move != other.to_move || self.next_legal
            != other.next_legal || self.winner != other.winner {
            return false;
        }
        if self.spaces.len() != other.spaces.len() {
            return false;
        }
        let mut i: usize = 0;
        while i < self.spaces.len()
            invariant
                i <= self@.spaces.len(),
                self@.spaces.len() == other@.spaces.len(),
                forall|j: int| 0 <= j < i ==> self@.spaces[j] == other@.spaces[j],
            decreases self@.spaces.len() - i,
        {
            if self.spaces[i] != other.spaces[i] {
                return false;
            }
            i += 1;
        }
        if self.move_history.len() != other.move_history.len() {
            return false;
        }
        let mut k: usize = 0;
        while k < self.move_history.len()
            invariant
                k <= self@.history.len(),
                self@.history.len() == other@.history.len(),
                forall|j: int| 0 <= j < k ==> self@.history[j] == other@.history[j],
            decreases self@.history.len() - k,
        {
            if self.move_history[k] != other.move_history[k] {
                return false;
            }
            k += 1;
        }
        proof {
            assert(self@.spaces =~= other@.spaces);
            assert(self@.history =~= other@.history);
            assert(self@ =~= other@);
        }
        true
    }
}

impl vstd::std_specs::cmp::PartialEqSpecImpl for Board {
    open spec fn obeys_eq_spec() -> bool {
        true
    }

    open spec fn eq_spec(&self, other: &Board) -> bool {
        self@ == other@
    }
}

// ---------------------------------------------------------------------
// Laws
// ---------------------------------------------------------------------
impl BoardView {
    /// The owners of the nine level-1 sub-boards.
    pub open spec fn top_squares(self) -> Seq<Player> {
        self.sub_owners(Square { top_left: 0, level: 2 })
    }

    /// While the game is undecided, no player owns a completed line of
    /// level-1 sub-boards. `new` establishes this and `make_move` keeps
    /// it, so it holds of every board reached by legal moves.
    pub open spec fn consistent(self) -> bool {
        self.winner == Player::NEITHER ==> (!has_line(self.top_squares(), Player::X) && !has_line(
            self.top_squares(),
            Player::O,
        ))
    }

    /// Every unresolved sub-board still holds an empty cell, and while
    /// the game is undecided `next_legal` targets an unresolved square:
    /// either its level-1 sub-board is unresolved, or it spans the whole
    /// board and some sub-board is unresolved.
    pub open spec fn playable(self) -> bool {
        &&& (forall|s: int|
            0 <= s < 9 && #[trigger] self.spaces[81 + s] == Player::NEITHER ==> exists|c: int|
                9 * s <= c < 9 * s + 9 && #[trigger] self.spaces[c] == Player::NEITHER)
        &&& (self.winner == Player::NEITHER ==> (if self.next_legal.level == 1 {
            self.spaces[81 + self.next_legal.top_left as int / 9] == Player::NEITHER
        } else {
            exists|s: int| 0 <= s < 9 && #[trigger] self.spaces[81 + s] == Player::NEITHER
        }))
    }

    /// `playable` holds now and after every chain of undos. The fresh
    /// board satisfies it, `make_move` and `undo_move` preserve it, so
    /// it holds of every board reached by legal moves and undos.
    pub open spec fn playable_history(self) -> bool
        decreases self.history.len(),
    {
        self.playable() && (self.history.len() > 0 ==> self.spec_undo().playable_history())
    }
}

/// A fresh board is consistent: nothing is owned yet.
pub proof fn lemma_init_consistent(max_level: usize)
    ensures
        BoardView::init(max_level).consistent(),
{
}

/// A fresh board is playable: every sub-board is unresolved and empty.
pub proof fn lemma_init_playable(max_level: usize)
    ensures
        BoardView::init(max_level).playable_history(),
{
    let b = BoardView::init(max_level);
    assert forall|s: int| 0 <= s < 9 && #[trigger] b.spaces[81 + s] == Player::NEITHER implies exists|
        c: int,
    | 9 * s <= c < 9 * s + 9 && #[trigger] b.spaces[c] == Player::NEITHER by {
        assert(b.spaces[9 * s] == Player::NEITHER);
    }
    assert(b.spaces[81] == Player::NEITHER);
}

/// A successful move keeps the board playable: a sub-board that stays
/// unresolved cannot be full (else the move would have resolved it),
/// and while the game stays undecided the new bounds target an
/// unresolved square by the ascent rule.
pub proof fn lemma_make_preserves_playable(b: BoardView, space: usize)
    requires
        b.wf(),
        b.playable(),
        b.move_ok(space),
    ensures
        b.spec_make(space).playable(),
{
    lemma_cell_arith(space);
    let a = b.spec_make(space);
    let who = b.to_move;
    let sub = space as int / 9;
    let v1 = BoardView { spaces: b.spaces.update(space as int, who), ..b };
    let cap_sq = Square { top_left: ((space / 9) * 9) as usize, level: 1 };
    let r1 = square_result(v1.sub_owners(cap_sq), who);
    assert(space == 9 * sub + space as int % 9);
    // Every sub-board that is unresolved afterwards holds an empty cell.
    assert forall|s: int| 0 <= s < 9 && #[trigger] a.spaces[81 + s] == Player::NEITHER implies exists|
        c: int,
    | 9 * s <= c < 9 * s + 9 && #[trigger] a.spaces[c] == Player::NEITHER by {
        if s == sub {
            // No capture was recorded, so the sub-board is not full.
            assert(r1 == Player::NEITHER);
            assert(!all_occupied(v1.sub_owners(cap_sq)));
            let i = choose|i: int| 0 <= i < 9 && v1.sub_owners(cap_sq)[i] == Player::NEITHER;
            assert(v1.sub_owners(cap_sq)[i] == v1.spaces[9 * sub + i]);
            assert(a.spaces[9 * s + i] == Player::NEITHER);
        } else {
            // The move wrote nothing into this sub-board.
            assert(b.spaces[81 + s] == Player::NEITHER);
            let c = choose|c: int|
                9 * s <= c < 9 * s + 9 && #[trigger] b.spaces[c] == Player::NEITHER;
            assert(c != space);
            assert(a.spaces[c] == Player::NEITHER);
        }
    }
    // While the game stays undecided, the new bounds target an
    // unresolved square.
    if a.winner == Player::NEITHER {
        let t = space as int % 9;
        let v2 = BoardView { spaces: v1.spaces.update(81 + sub, r1), ..v1 };
        if r1 == Player::NEITHER {
            if v1.spaces[81 + t] != Player::NEITHER {
                // Ascended to the whole board: the move's own sub-board
                // is still unresolved.
                assert(a.spaces[81 + sub] == Player::NEITHER);
            }
        } else {
            let r2 = square_result(v2.sub_owners(Square { top_left: 0, level: 2 }), who);
            assert(r2 == Player::NEITHER);
            if v2.spaces[81 + t] != Player::NEITHER {
                // Ascended to the whole board: the board did not draw,
                // so some sub-board is still unresolved.
                assert(!all_occupied(v2.sub_owners(Square { top_left: 0, level: 2 })));
                let s = choose|s: int|
                    0 <= s < 9 && #[trigger] v2.sub_owners(Square { top_left: 0, level: 2 })[s]
                        == Player::NEITHER;
                assert(a.spaces[81 + s] == Player::NEITHER);
            }
        }
    }
}

/// Legal moves keep the board playable through every undo as well.
pub proof fn lemma_make_preserves_playable_history(b: BoardView, space: usize)
    requires
        b.wf(),
        b.playable_history(),
        b.move_ok(space),
    ensures
        b.spec_make(space).playable_history(),
{
    lemma_make_preserves_playable(b, space);
    lemma_make_then_undo(b, space);
}

/// Undoing a move keeps the board playable through every further undo.
pub proof fn lemma_undo_preserves_playable_history(b: BoardView)
    requires
        b.playable_history(),
        b.history.len() > 0,
    ensures
        b.spec_undo().playable_history(),
{
}

/// An ongoing game always has a legal move: `next_legal` targets an
/// unresolved square, which holds an empty cell in an unresolved
/// sub-board, so `get_moves` is never empty while `winner` is NEITHER.
pub proof fn lemma_ongoing_game_has_moves(b: BoardView)
    requires
        b.wf(),
        b.playable(),
        b.winner == Player::NEITHER,
    ensures
        b.legal_moves().len() > 0,
{
    let cell: int = if b.next_legal.level == 1 {
        let t = b.next_legal.top_left as int / 9;
        lemma_cell_arith(b.next_legal.top_left);
        assert(b.next_legal.top_left as int == 9 * t);
        assert(b.spaces[81 + t] == Player::NEITHER);
        choose|c: int| 9 * t <= c < 9 * t + 9 && #[trigger] b.spaces[c] == Player::NEITHER
    } else {
        let s = choose|s: int| 0 <= s < 9 && #[trigger] b.spaces[81 + s] == Player::NEITHER;
        choose|c: int| 9 * s <= c < 9 * s + 9 && #[trigger] b.spaces[c] == Player::NEITHER
    };
    assert(0 <= cell < 81);
    assert(cell as usize as int / 9 == cell / 9) by (nonlinear_arith)
        requires
            0 <= cell < 81,
    ;
    assert(b.is_legal(cell as usize)) by {
        assert(9 * (cell / 9) <= cell < 9 * (cell / 9) + 9) by (nonlinear_arith)
            requires
                0 <= cell,
        ;
        assert(b.spaces[81 + cell / 9] == Player::NEITHER) by {
            if b.next_legal.level == 1 {
                let t = b.next_legal.top_left as int / 9;
                assert(cell / 9 == t) by (nonlinear_arith)
                    requires
                        9 * t <= cell < 9 * t + 9,
                ;
            } else {
                let s = choose|s: int| 0 <= s < 9 && #[trigger] b.spaces[81 + s] == Player::NEITHER;
                assert(cell / 9 == s) by (nonlinear_arith)
                    requires
                        9 * s <= cell < 9 * s + 9,
                ;
            }
        }
    }
    b.lemma_legal_moves_contains(cell as usize);
    let i = choose|i: int|
        0 <= i < b.legal_moves().len() && b.legal_moves()[i] == cell as usize;
    assert(b.legal_moves().len() > 0);
}

/// A successful `make_move` followed by `undo_move` restores the board
/// exactly, across every observable field: ownership, winner, the player
/// to move, the move bounds, and the history.
pub proof fn lemma_make_then_undo(b: BoardView, space: usize)
    requires
        b.wf(),
        b.move_ok(space),
    ensures
        b.spec_make(space).spec_undo() == b,
{
    lemma_cell_arith(space);
    let a = b.spec_make(space);
    assert(a.spec_undo().spaces =~= b.spaces);
    assert(a.spec_undo().history =~= b.history);
    assert(a.spec_undo() =~= b);
}

/// Every move that `make_move` accepts was in `get_moves()` just before
/// the call.
pub proof fn lemma_accepted_move_generated(b: BoardView, space: usize)
    requires
        b.wf(),
        b.move_ok(space),
    ensures
        b.legal_moves().contains(space),
{
    b.lemma_legal_moves_contains(space);
}

/// After any `make_move` from a consistent board: a winner owns a
/// completed line of level-1 sub-boards; a drawn game has all nine
/// resolved with no line of either player; and the board stays
/// consistent.
pub proof fn lemma_winner_justified(b: BoardView, space: usize)
    requires
        b.wf(),
        b.consistent(),
        b.move_ok(space),
    ensures
        b.spec_make(space).consistent(),
        b.spec_make(space).winner == Player::X ==> has_line(
            b.spec_make(space).top_squares(),
            Player::X,
        ),
        b.spec_make(space).winner == Player::O ==> has_line(
            b.spec_make(space).top_squares(),
            Player::O,
        ),
        b.spec_make(space).winner == Player::DEAD ==> (all_occupied(
            b.spec_make(space).top_squares(),
        ) && !has_line(b.spec_make(space).top_squares(), Player::X) && !has_line(
            b.spec_make(space).top_squares(),
            Player::O,
        )),
{
    lemma_cell_arith(space);
    let a = b.spec_make(space);
    let who = b.to_move;
    let opp = other_player(who);
    let sub = space as int / 9;
    let v1 = BoardView { spaces: b.spaces.update(space as int, who), ..b };
    let cap_sq = Square { top_left: ((space / 9) * 9) as usize, level: 1 };
    let r1 = square_result(v1.sub_owners(cap_sq), who);
    if r1 == Player::NEITHER {
        assert(a.top_squares() =~= b.top_squares());
    } else {
        let v2 = BoardView { spaces: v1.spaces.update(81 + space as int / 9, r1), ..v1 };
        let r2 = square_result(v2.sub_owners(Square { top_left: 0, level: 2 }), who);
        assert(a.top_squares() =~= v2.top_squares());
        assert(v2.top_squares()[sub] == r1);
        assert(forall|i: int|
            0 <= i < 9 && i != sub ==> v2.top_squares()[i] == b.top_squares()[i]);
        assert(r1 == who || r1 == Player::DEAD);
        assert(!has_line(v2.top_squares(), opp)) by {
            if has_line(v2.top_squares(), opp) {
                assert(has_line(b.top_squares(), opp));
            }
        }
        if r2 == Player::NEITHER {
            assert(!has_line(v2.top_squares(), who));
        }
    }
}

/// `check_victory` and `check_victory_old` report EMPTY on any square
/// that still holds at least one EMPTY sub-square and has no completed
/// line of a real player.
pub proof fn lemma_open_square_neither(o: Seq<Player>, who: Player)
    requires
        o.len() == 9,
        !has_line(o, Player::X),
        !has_line(o, Player::O),
        who == Player::X || who == Player::O,
        exists|i: int| 0 <= i < 9 && o[i] == Player::NEITHER,
    ensures
        square_winner(o) == Player::NEITHER,
        square_result(o, who) == Player::NEITHER,
        spec_check_old(o) == Player::NEITHER,
{
}

/// One word of the win table.
fn win_word(idx: u16) -> (w: u64)
    ensures
        w == spec_win_word(idx),
{
    if idx == 0 {
        0xff80808080808080
    } else if idx == 1 {
        0xfff0aa80faf0aa80
    } else if idx == 2 {
        0xffcc8080cccc8080
    } else if idx == 3 {
        0xfffcaa80fefcaa80
    } else if idx == 4 {
        0xfffaf0f0aaaa8080
    } else if idx == 5 {
        0xfffafaf0fafaaa80
    } else if idx == 6 {
        0xfffef0f0eeee8080
    } else {
        0xffffffffffffffff
    }
}

/// Spec twin of `Board::descend`.
pub open spec fn spec_descend(sqr: Square, i: usize) -> Square {
    if sqr.level == 1 {
        Square { top_left: (sqr.top_left + i) as usize, level: 0 }
    } else {
        Square { top_left: (i * 9) as usize, level: 1 }
    }
}

/// Spec twin of `Board::ascend`.
pub open spec fn spec_ascend(sqr: Square) -> (Square, usize) {
    if sqr.level == 0 {
        (
            Square { top_left: (sqr.top_left - sqr.top_left % 9) as usize, level: 1 },
            (sqr.top_left % 9) as usize,
        )
    } else {
        (Square { top_left: 0, level: 2 }, (sqr.top_left / 9) as usize)
    }
}

} // verus!
