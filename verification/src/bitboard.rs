//! Bit-packed occupancy of one player over the 8x8 grid.
//!
//! Cell `(column, rank)` is bit `8 * rank + column`; rank 0 is the bottom.

use crate::bits::{bit, count_bits, lemma_bit_ops, lemma_const_bits, lemma_shift_bits, single};
use vstd::prelude::*;

verus! {

/// Every cell but those of the first column.
pub const NOT_A: u64 = 0xfefefefefefefefe;

/// Every cell but those of the last column.
pub const NOT_H: u64 = 0x7f7f7f7f7f7f7f7f;

/// The cells of the first column.
pub const A: u64 = 0x0101010101010101;

/// The cells of the bottom rank.
pub const RANK_1: u64 = 0xff;

/// Whether `bits` holds the cell at `(col, rank)`. False outside the grid.
pub open spec fn cell(bits: u64, col: int, rank: int) -> bool {
    0 <= col < 8 && 0 <= rank < 8 && bit(bits, 8 * rank + col)
}

/// Whether `bits` holds the four cells that start at `(col, rank)` and go on
/// by `(dc, dr)`, all of them inside the grid.
pub open spec fn line_from(bits: u64, col: int, rank: int, dc: int, dr: int) -> bool {
    &&& cell(bits, col, rank)
    &&& cell(bits, col + dc, rank + dr)
    &&& cell(bits, col + 2 * dc, rank + 2 * dr)
    &&& cell(bits, col + 3 * dc, rank + 3 * dr)
}

/// Whether `bits` holds four cells in a row: along a rank, along a column,
/// or along either diagonal.
pub open spec fn has_four(bits: u64) -> bool {
    exists|col: int, rank: int|
        #![trigger cell(bits, col, rank)]
        {
            ||| line_from(bits, col, rank, -1, 0)
            ||| line_from(bits, col, rank, 0, -1)
            ||| line_from(bits, col, rank, -1, -1)
            ||| line_from(bits, col, rank, 1, -1)
        }
}

/// `u64::count_ones` gives the number of ones in the binary form of the
/// word: one for each of its set bits.
pub assume_specification[ u64::count_ones ](x: u64) -> (r: u32)
    ensures
        r == count_bits(x),
;

#[derive(Clone, Copy, Debug, PartialEq, Eq, Structural, Default)]
pub struct BitBoard(pub u64);

impl BitBoard {
    /// Number of columns of the grid, and of ranks.
    pub const COLUMNS: usize = 8;

    /// The board that holds the cell with index `idx` alone.
    pub fn idx(idx: usize) -> (r: BitBoard)
        requires
            idx < 64,
        ensures
            r.0 == single(idx as int),
    {
        BitBoard(1u64 << idx)
    }

    /// The number of occupied cells.
    pub fn len(&self) -> (r: u32)
        ensures
            r == count_bits(self.0),
    {
        self.0.count_ones()
    }

    pub fn is_empty(&self) -> (r: bool)
        ensures
            r == (self.0 == 0),
    {
        self.0 == 0
    }

    pub fn shl(&self, bits: usize) -> (r: BitBoard)
        requires
            bits < 64,
        ensures
            r.0 == self.0 << (bits as u64),
    {
        BitBoard(self.0 << bits)
    }

    pub fn shr(&self, bits: usize) -> (r: BitBoard)
        requires
            bits < 64,
        ensures
            r.0 == self.0 >> (bits as u64),
    {
        BitBoard(self.0 >> bits)
    }

    /// Whether all 64 cells are occupied.
    pub fn is_full(&self) -> (r: bool)
        ensures
            r == (self.0 == u64::MAX),
    {
        self.0 == u64::MAX
    }

    /// The occupied cells of one column.
    pub fn column(self, column: usize) -> (r: BitBoard)
        requires
            column < 8,
        ensures
            r.0 == self.0 & (A << (column as u64)),
            forall|col: int, rank: int|
                #[trigger] cell(r.0, col, rank) <==> (col == column && cell(self.0, col, rank)),
    {
        let r = self & BitBoard(A).shl(column);
        proof {
            lemma_column_bits(self.0, column as int);
            assert(r.0 == self.0 & (A << ((column as int) as u64)));
        }
        r
    }
}

impl std::ops::BitAnd for BitBoard {
    type Output = BitBoard;

    fn bitand(self, rhs: BitBoard) -> (r: BitBoard) {
        BitBoard(self.0 & rhs.0)
    }
}

impl vstd::std_specs::ops::BitAndSpecImpl for BitBoard {
    open spec fn obeys_bitand_spec() -> bool {
        true
    }

    open spec fn bitand_req(self, rhs: BitBoard) -> bool {
        true
    }

    open spec fn bitand_spec(self, rhs: BitBoard) -> BitBoard {
        BitBoard(self.0 & rhs.0)
    }
}

impl std::ops::BitOr for BitBoard {
    type Output = BitBoard;

    fn bitor(self, rhs: BitBoard) -> (r: BitBoard) {
        BitBoard(self.0 | rhs.0)
    }
}

impl vstd::std_specs::ops::BitOrSpecImpl for BitBoard {
    open spec fn obeys_bitor_spec() -> bool {
        true
    }

    open spec fn bitor_req(self, rhs: BitBoard) -> bool {
        true
    }

    open spec fn bitor_spec(self, rhs: BitBoard) -> BitBoard {
        BitBoard(self.0 | rhs.0)
    }
}

impl std::ops::BitXor for BitBoard {
    type Output = BitBoard;

    fn bitxor(self, rhs: BitBoard) -> (r: BitBoard) {
        BitBoard(self.0 ^ rhs.0)
    }
}

impl vstd::std_specs::ops::BitXorSpecImpl for BitBoard {
    open spec fn obeys_bitxor_spec() -> bool {
        true
    }

    open spec fn bitxor_req(self, rhs: BitBoard) -> bool {
        true
    }

    open spec fn bitxor_spec(self, rhs: BitBoard) -> BitBoard {
        BitBoard(self.0 ^ rhs.0)
    }
}

impl std::ops::Not for BitBoard {
    type Output = BitBoard;

    fn not(self) -> (r: BitBoard) {
        BitBoard(!self.0)
    }
}

impl vstd::std_specs::ops::NotSpecImpl for BitBoard {
    open spec fn obeys_not_spec() -> bool {
        true
    }

    open spec fn not_req(self) -> bool {
        true
    }

    open spec fn not_spec(self) -> BitBoard {
        BitBoard(!self.0)
    }
}

impl std::ops::Sub<u64> for BitBoard {
    type Output = BitBoard;

    fn sub(self, rhs: u64) -> (r: BitBoard) {
        BitBoard(self.0 - rhs)
    }
}

impl vstd::std_specs::ops::SubSpecImpl<u64> for BitBoard {
    open spec fn obeys_sub_spec() -> bool {
        true
    }

    open spec fn sub_req(self, rhs: u64) -> bool {
        rhs <= self.0
    }

    open spec fn sub_spec(self, rhs: u64) -> BitBoard {
        BitBoard((self.0 - rhs) as u64)
    }
}

/// Bit `i` of the masks that the board uses.
proof fn lemma_column_at(c: u64, i: u64)
    by (bit_vector)
    requires
        c < 8,
        i < 64,
    ensures
        (((0x0101010101010101u64 << c) >> i) & 1 == 1) <==> i % 8 == c,
        ((0xfefefefefefefefeu64 >> i) & 1 == 1) <==> i % 8 != 0,
        ((0x7f7f7f7f7f7f7f7fu64 >> i) & 1 == 1) <==> i % 8 != 7,
        ((0xffu64 >> i) & 1 == 1) <==> i < 8,
{
}

/// The bits of the column masks and of the bottom rank.
pub proof fn lemma_mask_bits()
    ensures
        forall|c: int, i: int|
            0 <= c < 8 ==> (#[trigger] bit(A << (c as u64), i) <==> 0 <= i < 64 && i % 8 == c),
        forall|i: int| #[trigger] bit(NOT_A, i) <==> 0 <= i < 64 && i % 8 != 0,
        forall|i: int| #[trigger] bit(NOT_H, i) <==> 0 <= i < 64 && i % 8 != 7,
        forall|i: int| #[trigger] bit(RANK_1, i) <==> 0 <= i < 8,
{
    assert forall|c: int, i: int| 0 <= c < 8 implies (#[trigger] bit(A << (c as u64), i) <==> 0
        <= i < 64 && i % 8 == c) by {
        if 0 <= i < 64 {
            lemma_column_at(c as u64, i as u64);
        }
    }
    assert forall|i: int|
        #![trigger bit(NOT_A, i)]
        #![trigger bit(NOT_H, i)]
        #![trigger bit(RANK_1, i)]
        {
            &&& bit(NOT_A, i) <==> 0 <= i < 64 && i % 8 != 0
            &&& bit(NOT_H, i) <==> 0 <= i < 64 && i % 8 != 7
            &&& bit(RANK_1, i) <==> 0 <= i < 8
        } by {
        if 0 <= i < 64 {
            lemma_column_at(0, i as u64);
        }
    }
}

/// The cells of `bits` inside column `c`.
proof fn lemma_column_bits(bits: u64, c: int)
    requires
        0 <= c < 8,
    ensures
        forall|col: int, rank: int|
            #[trigger] cell(bits & (A << (c as u64)), col, rank) <==> (col == c && cell(
                bits,
                col,
                rank,
            )),
{
    lemma_mask_bits();
    lemma_bit_ops(bits, A << (c as u64));
}

/// One step of a sweep: the cells of `t` whose neighbour `s` bits below is
/// in `t` as well, inside `m`.
pub open spec fn sweep_step(t: u64, s: u64, m: u64) -> u64 {
    t & ((t << s) & m)
}

/// `n` steps of a sweep over `b`.
pub open spec fn sweep_steps(b: u64, s: u64, m: u64, n: nat) -> u64
    decreases n,
{
    if n == 0 {
        b
    } else {
        sweep_step(sweep_steps(b, s, m, (n - 1) as nat), s, m)
    }
}

/// The bits of one step of a sweep.
proof fn lemma_sweep_step(t: u64, s: u64, m: u64)
    requires
        0 < s < 64,
    ensures
        forall|i: int|
            #[trigger] bit(sweep_step(t, s, m), i) == (bit(t, i) && bit(t, i - s) && bit(m, i)),
{
    lemma_shift_bits(t, s);
    lemma_bit_ops(t << s, m);
    lemma_bit_ops(t, (t << s) & m);
}

/// Three steps mark the upper end of every run of four cells that lie `s`
/// bits apart, the upper three of them inside `m`.
proof fn lemma_sweep(b: u64, s: u64, m: u64)
    requires
        0 < s < 64,
    ensures
        forall|i: int|
            #[trigger] bit(sweep_steps(b, s, m, 3), i) == {
                &&& bit(b, i) && bit(b, i - s) && bit(b, i - 2 * s) && bit(b, i - 3 * s)
                &&& bit(m, i) && bit(m, i - s) && bit(m, i - 2 * s)
            },
{
    let t0 = sweep_steps(b, s, m, 0);
    let t1 = sweep_steps(b, s, m, 1);
    let t2 = sweep_steps(b, s, m, 2);
    let t3 = sweep_steps(b, s, m, 3);
    assert(t0 == b);
    assert(t1 == sweep_step(t0, s, m));
    assert(t2 == sweep_step(t1, s, m));
    assert(t3 == sweep_step(t2, s, m));
    lemma_sweep_step(t0, s, m);
    lemma_sweep_step(t1, s, m);
    lemma_sweep_step(t2, s, m);
    assert forall|i: int|
        #[trigger] bit(t3, i) == {
            &&& bit(b, i) && bit(b, i - s) && bit(b, i - 2 * s) && bit(b, i - 3 * s)
            &&& bit(m, i) && bit(m, i - s) && bit(m, i - 2 * s)
        } by {
        assert(bit(t3, i) == (bit(t2, i) && bit(t2, i - s) && bit(m, i)));
        assert(bit(t2, i) == (bit(t1, i) && bit(t1, i - s) && bit(m, i)));
        assert(bit(t2, i - s) == (bit(t1, i - s) && bit(t1, i - s - s) && bit(m, i - s)));
        assert(bit(t1, i) == (bit(b, i) && bit(b, i - s) && bit(m, i)));
        assert(bit(t1, i - s) == (bit(b, i - s) && bit(b, i - s - s) && bit(m, i - s)));
        assert(bit(t1, i - s - s) == (bit(b, i - s - s) && bit(b, i - s - s - s) && bit(
            m,
            i - s - s,
        )));
    }
}

/// Three steps of a sweep over `b`.
fn sweep(b: BitBoard, shift: usize, mask: u64) -> (r: BitBoard)
    requires
        0 < shift < 64,
    ensures
        r.0 == sweep_steps(b.0, shift as u64, mask, 3),
{
    let mut tmp = b;
    let mut n: usize = 0;
    while n < 3
        invariant
            n <= 3,
            0 < shift < 64,
            tmp.0 == sweep_steps(b.0, shift as u64, mask, n as nat),
        decreases 3 - n,
    {
        tmp = tmp & (tmp.shl(shift) & BitBoard(mask));
        n += 1;
    }
    tmp
}

/// The cells that end a run of four along a rank, at its right end.
pub fn horizontal(b: BitBoard) -> (r: BitBoard)
    ensures
        r.0 == sweep_steps(b.0, 1, NOT_A, 3),
        forall|col: int, rank: int|
            #[trigger] cell(r.0, col, rank) <==> line_from(b.0, col, rank, -1, 0),
{
    let r = sweep(b, 1, NOT_A);
    proof {
        lemma_sweep(b.0, 1, NOT_A);
        lemma_mask_bits();
    }
    r
}

/// The cells that end a run of four along a column, at its upper end.
pub fn vertical(b: BitBoard) -> (r: BitBoard)
    ensures
        r.0 == sweep_steps(b.0, 8, u64::MAX, 3),
        forall|col: int, rank: int|
            #[trigger] cell(r.0, col, rank) <==> line_from(b.0, col, rank, 0, -1),
{
    let r = sweep(b, 8, u64::MAX);
    proof {
        lemma_sweep(b.0, 8, u64::MAX);
        lemma_const_bits();
    }
    r
}

/// The cells that end a run of four along a rising diagonal, at its upper
/// right end.
pub fn a1_h8(b: BitBoard) -> (r: BitBoard)
    ensures
        r.0 == sweep_steps(b.0, 9, NOT_A, 3),
        forall|col: int, rank: int|
            #[trigger] cell(r.0, col, rank) <==> line_from(b.0, col, rank, -1, -1),
{
    let r = sweep(b, 9, NOT_A);
    proof {
        lemma_sweep(b.0, 9, NOT_A);
        lemma_mask_bits();
    }
    r
}

/// The cells that end a run of four along a falling diagonal, at its upper
/// left end.
pub fn h1_a8(b: BitBoard) -> (r: BitBoard)
    ensures
        r.0 == sweep_steps(b.0, 7, NOT_H, 3),
        forall|col: int, rank: int|
            #[trigger] cell(r.0, col, rank) <==> line_from(b.0, col, rank, 1, -1),
{
    let r = sweep(b, 7, NOT_H);
    proof {
        lemma_sweep(b.0, 7, NOT_H);
        lemma_mask_bits();
    }
    r
}

} // verus!
