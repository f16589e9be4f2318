//! The position: both players' stones and the side to move.

use crate::bitboard::{
    a1_h8, cell, h1_a8, has_four, horizontal, lemma_mask_bits, line_from, vertical, BitBoard, A,
    RANK_1,
};
use crate::bits::{
    bit, count_bits, lemma_bit_ops, lemma_bits_equal, lemma_const_bits, lemma_count_add_bit,
    lemma_lowest, lemma_lowest_exists, lemma_nonzero_has_bit, lemma_set_bits, lemma_set_bits_step,
    lemma_set_bits_zero, lemma_shift_bits, set_bit_indices, set_bits, single,
};
use crate::game_move::Move;
use crate::player::Player;
use crate::random::random_index;
use rand::rngs::ThreadRng;
use std::ops::Not;
use vstd::prelude::*;

verus! {

/// A position: the stones of either player, and the side to move.
#[derive(Clone, Copy, Debug, PartialEq, Eq, Structural)]
pub struct Board {
    pub yellow: BitBoard,
    pub red: BitBoard,
    pub turn: Player,
}

/// The candidate cells over the occupancy `all`: what `all` and `all` moved
/// up one rank, with the bottom rank filled in, do not share.
pub open spec fn candidates(all: u64) -> u64 {
    all ^ ((all << 8) | RANK_1)
}

/// No stone of `all` hangs in the air: below every stone lies the floor or
/// another stone.
pub open spec fn stacked(all: u64) -> bool {
    forall|col: int, rank: int| #[trigger]
        cell(all, col, rank) && rank > 0 ==> cell(all, col, rank - 1)
}

impl Board {
    /// The cells that either player occupies.
    pub open spec fn all(self) -> u64 {
        self.red.0 | self.yellow.0
    }

    /// The stones of the side to move.
    pub open spec fn own(self) -> u64 {
        match self.turn {
            Player::Red => self.red.0,
            Player::Yellow => self.yellow.0,
        }
    }

    /// What holds of every position that play from the empty grid reaches:
    /// no cell belongs to both players, and no stone hangs in the air.
    pub open spec fn wf(self) -> bool {
        &&& self.red.0 & self.yellow.0 == 0
        &&& stacked(self.all())
    }

    /// The player who has four in a row, Yellow looked at first.
    pub open spec fn winner_spec(self) -> Option<Player> {
        if has_four(self.yellow.0) {
            Some(Player::Yellow)
        } else if has_four(self.red.0) {
            Some(Player::Red)
        } else {
            None
        }
    }

    /// The candidate cells of the position.
    pub open spec fn moves_spec(self) -> u64 {
        candidates(self.all())
    }

    /// Whether the game has ended: somebody has won, or the grid is full.
    pub open spec fn is_terminal(self) -> bool {
        self.winner_spec() is Some || self.all() == u64::MAX
    }

    /// Whether `mv` is one of the position's candidate cells.
    pub open spec fn legal(self, mv: u64) -> bool {
        exists|i: int| bit(self.moves_spec(), i) && mv == single(i)
    }

    /// The position after the side to move has placed `mv`.
    pub open spec fn play_spec(self, mv: u64) -> Board {
        match self.turn {
            Player::Red => Board { red: BitBoard(self.red.0 | mv), turn: Player::Yellow, ..self },
            Player::Yellow => Board {
                yellow: BitBoard(self.yellow.0 | mv),
                turn: Player::Red,
                ..self
            },
        }
    }

    /// The position before the side that is not to move placed `mv`.
    pub open spec fn unplay_spec(self, mv: u64) -> Board {
        match self.turn {
            Player::Yellow => Board { red: BitBoard(self.red.0 ^ mv), turn: Player::Red, ..self },
            Player::Red => Board {
                yellow: BitBoard(self.yellow.0 ^ mv),
                turn: Player::Yellow,
                ..self
            },
        }
    }

    /// Whether play from the empty grid can have reached the position, as far
    /// as `wf` tells: the check that stands before a search.
    pub fn is_wf(&self) -> (r: bool)
        ensures
            r == self.wf(),
    {
        let all = self.red | self.yellow;
        let shared = self.red & self.yellow;
        let hanging = all.shr(8) & all.not();
        proof {
            lemma_shift_bits(all.0, 8);
            lemma_bit_ops(all.0, 0);
            lemma_bit_ops(all.0 >> 8, !all.0);
            lemma_const_bits();
            if hanging.0 == 0 {
                assert forall|col: int, rank: int| #[trigger]
                    cell(all.0, col, rank) && rank > 0 implies cell(all.0, col, rank - 1) by {
                    let i = 8 * (rank - 1) + col;
                    assert(bit(hanging.0, i) == (bit(all.0, i + 8) && !bit(all.0, i)));
                }
            } else {
                let i = lemma_nonzero_has_bit(hanging.0);
                assert(bit(all.0, i + 8) && !bit(all.0, i));
                assert(cell(all.0, i % 8, i / 8 + 1));
                assert(!cell(all.0, i % 8, i / 8));
            }
        }
        shared.is_empty() && hanging.is_empty()
    }

    pub fn winner(&self) -> (r: Option<Player>)
        ensures
            r == self.winner_spec(),
            r is Some <==> has_four(self.yellow.0) || has_four(self.red.0),
    {
        if four_in_a_row(self.yellow) {
            Some(Player::Yellow)
        } else if four_in_a_row(self.red) {
            Some(Player::Red)
        } else {
            None
        }
    }

    /// Returns a BitBoard representing all the legal moves
    pub fn moves(&self) -> (r: BitBoard)
        ensures
            r.0 == self.moves_spec(),
    {
        let all = self.red | self.yellow;
        all ^ (all.shl(8) | BitBoard(RANK_1))
    }

    pub fn game_over(&self) -> (r: bool)
        ensures
            r == self.is_terminal(),
    {
        self.winner().is_some() || (self.red | self.yellow).is_full()
    }

    /// Places `mv` for the side to move and hands the turn over. The move is
    /// not held against the rules.
    pub fn play(&mut self, mv: Move)
        ensures
            *final(self) == old(self).play_spec(mv@),
    {
        match self.turn {
            Player::Red => {
                self.red = self.red | mv.bitboard();
            },
            Player::Yellow => {
                self.yellow = self.yellow | mv.bitboard();
            },
        }
        self.turn = self.turn.not();
    }

    /// The move that drops a stone into `column`: the candidate cell of
    /// that column. A column without one, as a full one is, is left out.
    pub fn from_column(&self, column: usize) -> (mv: Move)
        requires
            column < 8,
            self.moves_spec() & (A << (column as u64)) != 0,
        ensures
            mv@ == self.moves_spec() & (A << (column as u64)),
            self.wf() ==> self.legal(mv@) && exists|rank: int|
                0 <= rank < 8 && mv@ == #[trigger] single(8 * rank + column),
    {
        let all = self.red | self.yellow;
        let bb = ((all.shl(8) | BitBoard(RANK_1)) ^ all).column(column);
        proof {
            let shifted = (self.all() << 8) | RANK_1;
            lemma_bit_ops(shifted, self.all());
            lemma_bit_ops(self.all(), shifted);
            lemma_bits_equal(shifted ^ self.all(), self.all() ^ shifted);
            if self.wf() {
                let c = column as int;
                lemma_moves_one_per_column(*self, c);
                let i = lemma_nonzero_has_bit(bb.0);
                assert(cell(bb.0, i % 8, i / 8));
                let rank = i / 8;
                lemma_const_bits();
                assert forall|k: int| 0 <= k < 64 implies bit(bb.0, k) == bit(single(i), k) by {
                    if bit(bb.0, k) {
                        assert(cell(bb.0, k % 8, k / 8));
                        assert(cell(self.moves_spec(), c, k / 8));
                    }
                }
                lemma_bits_equal(bb.0, single(i));
                assert(bit(self.moves_spec(), i));
                assert(bb.0 == single(8 * rank + column));
            }
        }
        Move::new(bb)
    }

    /// Takes the turn back and `mv` off the board.
    pub fn unplay(&mut self, mv: Move)
        ensures
            *final(self) == old(self).unplay_spec(mv@),
    {
        self.turn = self.turn.not();
        match self.turn {
            Player::Red => {
                self.red = self.red ^ mv.bitboard();
            },
            Player::Yellow => {
                self.yellow = self.yellow ^ mv.bitboard();
            },
        }
    }
}

/// The cells of `bb` as moves of one cell each, the lowest cell first.
pub fn moves_list(bb: &BitBoard) -> (moves: Vec<Move>)
    ensures
        moves@.len() == count_bits(bb.0),
        forall|k: int| 0 <= k < moves@.len() ==> #[trigger] moves@[k]@ == set_bits(bb.0)[k],
{
    let mut rest = *bb;
    let mut moves: Vec<Move> = Vec::with_capacity(8);
    while !rest.is_empty()
        invariant
            moves@.len() + count_bits(rest.0) == count_bits(bb.0),
            forall|k: int| 0 <= k < moves@.len() ==> #[trigger] moves@[k]@ == set_bits(bb.0)[k],
            forall|k: int|
                0 <= k < count_bits(rest.0) ==> #[trigger] set_bits(rest.0)[k] == set_bits(
                    bb.0,
                )[moves@.len() + k],
        decreases count_bits(rest.0),
    {
        proof {
            let j = lemma_lowest_exists(rest.0);
            lemma_lowest(rest.0, j);
            lemma_set_bits_step(rest.0, j);
            let next = rest.0 & ((rest.0 - 1) as u64);
            assert(set_bits(rest.0)[0] == single(j));
            assert forall|k: int| 0 <= k < count_bits(next) implies #[trigger] set_bits(next)[k]
                == set_bits(bb.0)[moves@.len() + 1 + k] by {
                assert(set_bits(next)[k] == set_bits(rest.0)[k + 1]);
            }
        }
        let lowest = BitBoard(rest.0 & 0u64.wrapping_sub(rest.0));
        moves.push(Move::new(lowest));
        rest = rest & (rest - 1);
    }
    proof {
        lemma_set_bits_zero();
    }
    moves
}

/// Return a random move from the given move list
pub fn random_move(bb: &BitBoard, rng: &mut ThreadRng) -> (mv: Move)
    requires
        bb.0 != 0,
    ensures
        exists|k: int| 0 <= k < count_bits(bb.0) && mv@ == #[trigger] set_bits(bb.0)[k],
{
    let moves = moves_list(bb);
    proof {
        if count_bits(bb.0) == 0 {
            let i = lemma_nonzero_has_bit(bb.0);
            lemma_set_bits(bb.0);
            assert(set_bit_indices(bb.0).contains(i));
        }
    }
    let k = random_index(rng, moves.len());
    let mv = moves[k];
    assert(mv@ == set_bits(bb.0)[k as int]);
    mv
}

/// The move at place `idx` of the moves of `bb`, counted from the lowest
/// cell.
pub fn choose_move(bb: &BitBoard, idx: usize) -> (mv: Move)
    requires
        idx < count_bits(bb.0),
    ensures
        mv@ == set_bits(bb.0)[idx as int],
{
    let moves = moves_list(bb);
    moves[idx]
}

impl Default for Board {
    /// The empty grid, Yellow to move.
    fn default() -> (r: Board)
        ensures
            r == (Board { yellow: BitBoard(0), red: BitBoard(0), turn: Player::Yellow }),
    {
        Board { yellow: BitBoard(0), red: BitBoard(0), turn: Player::Yellow }
    }
}

/// Over a stacked occupancy the candidate cells are the empty cells that
/// rest on the floor or on a stone.
pub proof fn lemma_candidates(all: u64)
    requires
        stacked(all),
    ensures
        forall|col: int, rank: int| #[trigger]
            cell(candidates(all), col, rank) <==> {
                &&& 0 <= col < 8 && 0 <= rank < 8
                &&& !cell(all, col, rank)
                &&& rank == 0 || cell(all, col, rank - 1)
            },
{
    lemma_shift_bits(all, 8);
    lemma_bit_ops(all << 8, RANK_1);
    lemma_bit_ops(all, (all << 8) | RANK_1);
    lemma_mask_bits();
    assert forall|col: int, rank: int| #[trigger]
        cell(candidates(all), col, rank) <==> {
            &&& 0 <= col < 8 && 0 <= rank < 8
            &&& !cell(all, col, rank)
            &&& rank == 0 || cell(all, col, rank - 1)
        } by {
        if 0 <= col < 8 && 0 <= rank < 8 {
            let i = 8 * rank + col;
            assert(bit(candidates(all), i) == (bit(all, i) != (bit(all, i - 8) || i < 8)));
            if rank > 0 {
                assert(i - 8 == 8 * (rank - 1) + col);
                assert(cell(all, col, rank) ==> cell(all, col, rank - 1));
            }
        }
    }
}

/// Whether every cell of column `col` is occupied.
pub open spec fn column_full(all: u64, col: int) -> bool {
    forall|rank: int| 0 <= rank < 8 ==> #[trigger] cell(all, col, rank)
}

/// Below an empty cell of a stacked column lies its lowest empty cell.
proof fn lemma_lowest_empty(all: u64, col: int, rank: int) -> (low: int)
    requires
        stacked(all),
        0 <= col < 8,
        0 <= rank < 8,
        !cell(all, col, rank),
    ensures
        0 <= low <= rank,
        !cell(all, col, low),
        low == 0 || cell(all, col, low - 1),
    decreases rank,
{
    if rank == 0 || cell(all, col, rank - 1) {
        rank
    } else {
        lemma_lowest_empty(all, col, rank - 1)
    }
}

/// Below a stone of a stacked column lie stones down to the floor.
proof fn lemma_stack_below(all: u64, col: int, rank: int, below: int)
    requires
        stacked(all),
        0 <= below <= rank,
        cell(all, col, rank),
    ensures
        cell(all, col, below),
    decreases rank - below,
{
    if below < rank {
        assert(cell(all, col, rank - 1));
        lemma_stack_below(all, col, rank - 1, below);
    }
}

/// In a position that play has reached, no candidate cell lies in a full
/// column, and every other column holds exactly one: its lowest empty cell.
pub proof fn lemma_moves_one_per_column(p: Board, col: int)
    requires
        p.wf(),
        0 <= col < 8,
    ensures
        column_full(p.all(), col) ==> forall|rank: int| !cell(p.moves_spec(), col, rank),
        !column_full(p.all(), col) ==> exists|rank: int|
            {
                &&& #[trigger] cell(p.moves_spec(), col, rank)
                &&& !cell(p.all(), col, rank)
                &&& forall|below: int| 0 <= below < rank ==> cell(p.all(), col, below)
                &&& forall|other: int| cell(p.moves_spec(), col, other) ==> other == rank
            },
{
    let all = p.all();
    lemma_candidates(all);
    if !column_full(all, col) {
        let r0 = choose|rank: int| 0 <= rank < 8 && !cell(all, col, rank);
        let rank = lemma_lowest_empty(all, col, r0);
        assert(cell(p.moves_spec(), col, rank));
        assert forall|below: int| 0 <= below < rank implies cell(all, col, below) by {
            lemma_stack_below(all, col, rank - 1, below);
        }
        assert forall|other: int| cell(p.moves_spec(), col, other) implies other == rank by {
            if other < rank {
                lemma_stack_below(all, col, rank - 1, other);
            } else if other > rank {
                lemma_stack_below(all, col, other - 1, rank);
            }
        }
    }
}

/// A position that play has reached and whose grid is not full has a
/// candidate cell.
pub proof fn lemma_has_move(p: Board)
    requires
        p.wf(),
        p.all() != u64::MAX,
    ensures
        p.moves_spec() != 0,
        count_bits(p.moves_spec()) > 0,
{
    let all = p.all();
    lemma_bit_ops(all, 0);
    lemma_const_bits();
    if forall|i: int| 0 <= i < 64 ==> bit(all, i) {
        lemma_bits_equal(all, u64::MAX);
    }
    let i = choose|i: int| 0 <= i < 64 && !bit(all, i);
    let col = i % 8;
    assert(!cell(all, col, i / 8));
    let rank = lemma_lowest_empty(all, col, i / 8);
    lemma_candidates(all);
    assert(cell(p.moves_spec(), col, rank));
    assert(bit(p.moves_spec(), 8 * rank + col));
    lemma_set_bits(p.moves_spec());
    assert(set_bit_indices(p.moves_spec()).contains(8 * rank + col));
}

/// Each of the candidate cells, as `set_bits` lists them, is a legal move.
pub proof fn lemma_listed_legal(p: Board, k: int)
    requires
        0 <= k < count_bits(p.moves_spec()),
    ensures
        p.legal(set_bits(p.moves_spec())[k]),
{
    lemma_set_bits(p.moves_spec());
    let i = set_bit_indices(p.moves_spec())[k];
    assert(bit(p.moves_spec(), i) && set_bits(p.moves_spec())[k] == single(i));
}

/// A legal move fills one empty cell, and leaves a position that play has
/// reached.
pub proof fn lemma_play_legal(p: Board, mv: u64)
    requires
        p.wf(),
        p.legal(mv),
    ensures
        p.play_spec(mv).wf(),
        p.play_spec(mv).all() == p.all() | mv,
        p.all() & mv == 0,
        p.own() & mv == 0,
        count_bits(p.play_spec(mv).all()) == count_bits(p.all()) + 1,
        p.play_spec(mv).turn == p.turn.other(),
{
    let all = p.all();
    let q = p.play_spec(mv);
    let i = choose|i: int| bit(p.moves_spec(), i) && mv == single(i);
    let col = i % 8;
    let rank = i / 8;
    lemma_candidates(all);
    assert(cell(p.moves_spec(), col, rank));
    lemma_const_bits();
    lemma_bit_ops(p.red.0, p.yellow.0);
    lemma_bit_ops(p.red.0, mv);
    lemma_bit_ops(p.yellow.0, mv);
    lemma_bit_ops(all, mv);
    lemma_bit_ops(q.red.0, q.yellow.0);
    lemma_bit_ops(p.own(), mv);
    assert forall|k: int| 0 <= k < 64 implies bit(q.all(), k) == bit(all | mv, k) by {}
    lemma_bits_equal(q.all(), all | mv);
    assert forall|k: int| 0 <= k < 64 implies bit(all & mv, k) == bit(0, k) by {}
    lemma_bits_equal(all & mv, 0);
    assert forall|k: int| 0 <= k < 64 implies bit(p.own() & mv, k) == bit(0, k) by {}
    lemma_bits_equal(p.own() & mv, 0);
    assert forall|k: int| 0 <= k < 64 implies bit(q.red.0 & q.yellow.0, k) == bit(0, k) by {
        assert(bit(p.red.0 & p.yellow.0, k) == bit(0, k));
    }
    lemma_bits_equal(q.red.0 & q.yellow.0, 0);
    lemma_count_add_bit(all, i);
    assert forall|c: int, r: int| #[trigger]
        cell(q.all(), c, r) && r > 0 implies cell(q.all(), c, r - 1) by {
        if 8 * r + c == i {
            assert(c == col && r == rank);
            assert(cell(all, col, rank - 1));
        } else {
            assert(cell(all, c, r));
            assert(cell(all, c, r - 1));
        }
    }
}

/// Taking back a legal move gives the position that it was played in,
/// bit for bit and with the turn.
pub proof fn lemma_play_unplay(p: Board, mv: u64)
    requires
        p.wf(),
        p.legal(mv),
    ensures
        p.play_spec(mv).unplay_spec(mv) == p,
{
    lemma_play_legal(p, mv);
    lemma_unplay_disjoint(p, mv);
}

/// Taking back a move that shared no cell with the stones of the side that
/// played it gives the position that it was played in.
pub proof fn lemma_unplay_disjoint(p: Board, mv: u64)
    requires
        p.own() & mv == 0,
    ensures
        p.play_spec(mv).unplay_spec(mv) == p,
{
    let own = p.own();
    lemma_bit_ops(own, mv);
    lemma_bit_ops(own | mv, mv);
    lemma_const_bits();
    assert forall|k: int| 0 <= k < 64 implies bit((own | mv) ^ mv, k) == bit(own, k) by {
        assert(bit(own & mv, k) == bit(0, k));
    }
    lemma_bits_equal((own | mv) ^ mv, own);
}

/// Whether `b` holds four cells in a row in any of the four directions.
fn four_in_a_row(b: BitBoard) -> (r: bool)
    ensures
        r == has_four(b.0),
{
    let h = horizontal(b);
    let v = vertical(b);
    let d = a1_h8(b);
    let e = h1_a8(b);
    let marks = h | v | d | e;
    let r = marks.len() > 0;
    proof {
        lemma_bit_ops(h.0, v.0);
        lemma_bit_ops(h.0 | v.0, d.0);
        lemma_bit_ops(h.0 | v.0 | d.0, e.0);
        lemma_set_bits(marks.0);
        if marks.0 == 0 {
            lemma_set_bits_zero();
            lemma_const_bits();
            assert forall|col: int, rank: int|
                #![trigger cell(b.0, col, rank)]
                !(line_from(b.0, col, rank, -1, 0) || line_from(b.0, col, rank, 0, -1)
                    || line_from(b.0, col, rank, -1, -1) || line_from(b.0, col, rank, 1, -1)) by {
                assert(!cell(marks.0, col, rank));
                assert(!cell(h.0, col, rank));
                assert(!cell(v.0, col, rank));
                assert(!cell(d.0, col, rank));
                assert(!cell(e.0, col, rank));
            }
        } else {
            let i = lemma_nonzero_has_bit(marks.0);
            assert(set_bit_indices(marks.0).contains(i));
            let col = i % 8;
            let rank = i / 8;
            assert(cell(marks.0, col, rank));
            assert(cell(h.0, col, rank) || cell(v.0, col, rank) || cell(d.0, col, rank) || cell(
                e.0,
                col,
                rank,
            ));
            assert(cell(b.0, col, rank));
        }
    }
    r
}

} // verus!
