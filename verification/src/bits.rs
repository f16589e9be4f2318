//! Facts about the bits of a `u64`, the ground on which the board's bit
//! tricks are proved.

use vstd::prelude::*;

verus! {

/// Whether bit `i` of `x` is set. False for an index outside `0..64`.
pub open spec fn bit(x: u64, i: int) -> bool {
    0 <= i < 64 && (x >> (i as u64)) & 1 == 1
}

/// The word whose only set bit is bit `i`.
pub open spec fn single(i: int) -> u64
    recommends
        0 <= i < 64,
{
    1u64 << (i as u64)
}

/// Bit `i` of the bitwise operations.
proof fn lemma_bit_ops_at(a: u64, b: u64, i: u64)
    by (bit_vector)
    requires
        i < 64,
    ensures
        ((a & b) >> i) & 1 == 1 <==> ((a >> i) & 1 == 1 && (b >> i) & 1 == 1),
        ((a | b) >> i) & 1 == 1 <==> ((a >> i) & 1 == 1 || (b >> i) & 1 == 1),
        ((a ^ b) >> i) & 1 == 1 <==> ((a >> i) & 1 == 1) != ((b >> i) & 1 == 1),
        ((!a) >> i) & 1 == 1 <==> (a >> i) & 1 != 1,
{
}

/// The bits of `a & b`, `a | b`, `a ^ b` and `!a`, one by one.
pub proof fn lemma_bit_ops(a: u64, b: u64)
    ensures
        forall|i: int| #[trigger] bit(a & b, i) == (bit(a, i) && bit(b, i)),
        forall|i: int| #[trigger] bit(a | b, i) == (bit(a, i) || bit(b, i)),
        forall|i: int| #[trigger] bit(a ^ b, i) == (bit(a, i) != bit(b, i)),
        forall|i: int| #[trigger] bit(!a, i) == (0 <= i < 64 && !bit(a, i)),
{
    assert forall|i: int|
        #![trigger bit(a & b, i)]
        #![trigger bit(a | b, i)]
        #![trigger bit(a ^ b, i)]
        #![trigger bit(!a, i)]
        {
            &&& bit(a & b, i) == (bit(a, i) && bit(b, i))
            &&& bit(a | b, i) == (bit(a, i) || bit(b, i))
            &&& bit(a ^ b, i) == (bit(a, i) != bit(b, i))
            &&& bit(!a, i) == (0 <= i < 64 && !bit(a, i))
        } by {
        if 0 <= i < 64 {
            lemma_bit_ops_at(a, b, i as u64);
        }
    }
}

/// Bit `i` of the two shifts by `s`.
proof fn lemma_shift_at(a: u64, s: u64, i: u64)
    by (bit_vector)
    requires
        i < 64,
        s < 64,
    ensures
        ((a << s) >> i) & 1 == 1 <==> (s <= i && (a >> ((i - s) as u64)) & 1 == 1),
        ((a >> s) >> i) & 1 == 1 <==> (i + s < 64 && (a >> ((i + s) as u64)) & 1 == 1),
{
}

/// The bits of `a << s` and of `a >> s`, one by one.
pub proof fn lemma_shift_bits(a: u64, s: u64)
    requires
        s < 64,
    ensures
        forall|i: int| #[trigger] bit(a << s, i) == (s <= i < 64 && bit(a, i - s)),
        forall|i: int| #[trigger] bit(a >> s, i) == (0 <= i && bit(a, i + s)),
{
    assert forall|i: int|
        #![trigger bit(a << s, i)]
        #![trigger bit(a >> s, i)]
        {
            &&& bit(a << s, i) == (s <= i < 64 && bit(a, i - s))
            &&& bit(a >> s, i) == (0 <= i && bit(a, i + s))
        } by {
        if 0 <= i < 64 {
            lemma_shift_at(a, s, i as u64);
        }
    }
}

/// An even word that is not zero is still not zero, and smaller, after a
/// shift to the right by one; a shift by nothing changes nothing.
proof fn lemma_low_bit(x: u64)
    by (bit_vector)
    ensures
        x != 0 && x & 1 != 1 ==> x >> 1 != 0 && x >> 1 < x,
        x >> 0 == x,
{
}

/// A word that is not zero has a set bit.
pub proof fn lemma_nonzero_has_bit(x: u64) -> (i: int)
    requires
        x != 0,
    ensures
        bit(x, i),
    decreases x,
{
    lemma_low_bit(x);
    if x & 1 == 1 {
        0
    } else {
        let j = lemma_nonzero_has_bit(x >> 1);
        lemma_shift_bits(x, 1);
        j + 1
    }
}

/// Bit `i` of zero and of the full word, and the bits of `1 << i`.
proof fn lemma_zero_at(i: u64)
    by (bit_vector)
    requires
        i < 64,
    ensures
        (0u64 >> i) & 1 != 1,
        (0xffff_ffff_ffff_ffffu64 >> i) & 1 == 1,
        forall|j: u64| j < 64 ==> (((1u64 << i) >> j) & 1 == 1 <==> j == i),
{
}

/// Zero has no bit, the full word has every bit, and `single(i)` has bit
/// `i` alone.
pub proof fn lemma_const_bits()
    ensures
        forall|i: int| !#[trigger] bit(0, i),
        forall|i: int| 0 <= i < 64 ==> #[trigger] bit(u64::MAX, i),
        forall|i: int, j: int| 0 <= i < 64 ==> (#[trigger] bit(single(i), j) <==> j == i),
{
    assert forall|i: int| 0 <= i < 64 implies !#[trigger] bit(0, i) by {
        lemma_zero_at(i as u64);
    }
    assert forall|i: int| 0 <= i < 64 implies #[trigger] bit(u64::MAX, i) by {
        lemma_zero_at(i as u64);
    }
    assert forall|i: int, j: int| 0 <= i < 64 implies (#[trigger] bit(single(i), j) <==> j
        == i) by {
        lemma_zero_at(i as u64);
        if 0 <= j < 64 {
            assert((((1u64 << (i as u64)) >> (j as u64)) & 1 == 1) <==> (j as u64) == (i as u64));
        }
    }
}

/// Two words with the same bits are the same word.
pub proof fn lemma_bits_equal(a: u64, b: u64)
    requires
        forall|i: int| 0 <= i < 64 ==> bit(a, i) == bit(b, i),
    ensures
        a == b,
{
    if a ^ b != 0 {
        let i = lemma_nonzero_has_bit(a ^ b);
        lemma_bit_ops(a, b);
        assert(bit(a ^ b, i));
    }
    assert(a ^ b == 0 ==> a == b) by (bit_vector);
}

/// The indices of the set bits of `x` from bit `n` upwards, ascending.
pub open spec fn indices_from(x: u64, n: int) -> Seq<int>
    decreases 64 - n,
{
    if n >= 64 {
        Seq::empty()
    } else if bit(x, n) {
        seq![n] + indices_from(x, n + 1)
    } else {
        indices_from(x, n + 1)
    }
}

/// The indices of the set bits of `x`, ascending.
pub open spec fn set_bit_indices(x: u64) -> Seq<int> {
    indices_from(x, 0)
}

/// The set bits of `x`, each as a word of its own, lowest first.
pub open spec fn set_bits(x: u64) -> Seq<u64> {
    Seq::new(set_bit_indices(x).len(), |k: int| single(set_bit_indices(x)[k]))
}

/// The number of set bits of `x`.
pub open spec fn count_bits(x: u64) -> nat {
    set_bits(x).len()
}

/// Whether bit `j` is the lowest set bit of `x`.
pub open spec fn is_lowest(x: u64, j: int) -> bool {
    bit(x, j) && forall|i: int| 0 <= i < j ==> !bit(x, i)
}

/// The two bit tricks, for a word whose lowest set bit is bit `j` and its
/// negation `neg`.
proof fn lemma_lowest_arith(x: u64, neg: u64, j: u64)
    by (bit_vector)
    requires
        j < 64,
        (x >> j) & 1 == 1,
        x & (((1u64 << j) - 1) as u64) == 0,
        neg == ((!x) + 1) as u64,
    ensures
        x != 0,
        x & ((x - 1) as u64) == x & !(1u64 << j),
        x & neg == 1u64 << j,
{
}

/// The bits of `(1 << j) - 1`: those below `j`.
proof fn lemma_below_at(j: u64, i: u64)
    by (bit_vector)
    requires
        j < 64,
        i < 64,
    ensures
        (((((1u64 << j) - 1) as u64) >> i) & 1 == 1) <==> i < j,
{
}

/// The negation of a word that is not zero, in two ways.
proof fn lemma_neg(x: u64)
    by (bit_vector)
    requires
        x != 0,
    ensures
        (!x) + 1 == 0x1_0000_0000_0000_0000 - x,
{
}

/// Every non-zero word has a lowest set bit.
pub proof fn lemma_lowest_exists(x: u64) -> (j: int)
    requires
        x != 0,
    ensures
        is_lowest(x, j),
{
    let k = lemma_nonzero_has_bit(x);
    lemma_lowest_below(x, k)
}

/// A word with bit `k` set has a lowest set bit at or below `k`.
proof fn lemma_lowest_below(x: u64, k: int) -> (j: int)
    requires
        bit(x, k),
    ensures
        is_lowest(x, j),
        j <= k,
    decreases k,
{
    if exists|i: int| 0 <= i < k && bit(x, i) {
        let i = choose|i: int| 0 <= i < k && bit(x, i);
        lemma_lowest_below(x, i)
    } else {
        k
    }
}

/// With `j` the lowest set bit of `x`: `x & (x - 1)` is `x` without that
/// bit, and `x & -x` is that bit alone.
pub proof fn lemma_lowest(x: u64, j: int)
    requires
        is_lowest(x, j),
    ensures
        x != 0,
        x & ((x - 1) as u64) == x & !single(j),
        x & ((0x1_0000_0000_0000_0000 - x) as u64) == single(j),
        forall|i: int| #[trigger] bit(x & ((x - 1) as u64), i) == (bit(x, i) && i != j),
{
    let ju = j as u64;
    let below = ((1u64 << ju) - 1) as u64;
    lemma_bit_ops(x, below);
    lemma_const_bits();
    assert forall|i: int| 0 <= i < 64 implies bit(x & below, i) == bit(0, i) by {
        lemma_below_at(ju, i as u64);
    }
    lemma_bits_equal(x & below, 0);
    assert(x != 0) by {
        if x == 0 {
            assert(!bit(0, j));
        }
    }
    lemma_neg(x);
    let neg = ((!x) + 1) as u64;
    lemma_lowest_arith(x, neg, ju);
    lemma_bit_ops(x, !single(j));
    lemma_bit_ops(single(j), 0);
}

/// What `indices_from(x, n)` holds: the set bits of `x` at or above `n`,
/// each once, in ascending order.
pub proof fn lemma_indices_from(x: u64, n: int)
    requires
        0 <= n,
    ensures
        indices_from(x, n).len() <= 64 - n || n >= 64,
        forall|k: int|
            0 <= k < indices_from(x, n).len() ==> n <= #[trigger] indices_from(x, n)[k] < 64
                && bit(x, indices_from(x, n)[k]),
        forall|k: int, l: int|
            0 <= k < l < indices_from(x, n).len() ==> indices_from(x, n)[k] < indices_from(
                x,
                n,
            )[l],
        forall|i: int| n <= i && bit(x, i) ==> indices_from(x, n).contains(i),
    decreases 64 - n,
{
    let s = indices_from(x, n);
    if n < 64 {
        lemma_indices_from(x, n + 1);
        let t = indices_from(x, n + 1);
        if bit(x, n) {
            assert(s == seq![n] + t);
            assert forall|i: int| n <= i && bit(x, i) implies s.contains(i) by {
                if i == n {
                    assert(s[0] == n);
                } else {
                    let k = choose|k: int| 0 <= k < t.len() && t[k] == i;
                    assert(s[k + 1] == i);
                }
            }
        } else {
            assert(s == t);
        }
    }
}

/// The set bits of `x`, as `set_bits` lists them: one word per set bit, the
/// lowest first, and as many as `count_bits` says.
pub proof fn lemma_set_bits(x: u64)
    ensures
        set_bits(x).len() == set_bit_indices(x).len() == count_bits(x),
        count_bits(x) <= 64,
        forall|k: int|
            0 <= k < count_bits(x) ==> #[trigger] set_bits(x)[k] == single(set_bit_indices(x)[k]),
        forall|k: int|
            0 <= k < count_bits(x) ==> 0 <= #[trigger] set_bit_indices(x)[k] < 64 && bit(
                x,
                set_bit_indices(x)[k],
            ),
        forall|k: int, l: int|
            0 <= k < l < count_bits(x) ==> set_bit_indices(x)[k] < set_bit_indices(x)[l],
        forall|i: int| bit(x, i) ==> set_bit_indices(x).contains(i),
{
    lemma_indices_from(x, 0);
}

/// Words that agree from bit `n` upwards have the same set bits from there.
proof fn lemma_indices_agree(x: u64, y: u64, n: int)
    requires
        0 <= n,
        forall|i: int| n <= i < 64 ==> bit(x, i) == bit(y, i),
    ensures
        indices_from(x, n) == indices_from(y, n),
    decreases 64 - n,
{
    if n < 64 {
        lemma_indices_agree(x, y, n + 1);
    }
}

/// Unset bits below `j` add nothing to the list.
proof fn lemma_indices_skip(x: u64, n: int, j: int)
    requires
        0 <= n <= j,
        forall|i: int| n <= i < j ==> !bit(x, i),
    ensures
        indices_from(x, n) == indices_from(x, j),
    decreases j - n,
{
    if n < j {
        lemma_indices_skip(x, n + 1, j);
        if n >= 64 {
            assert(indices_from(x, j) =~= Seq::<int>::empty()) by {
                lemma_indices_from(x, j);
            }
        }
    }
}

/// Zero has no set bit to list.
pub proof fn lemma_set_bits_zero()
    ensures
        set_bit_indices(0) == Seq::<int>::empty(),
        set_bits(0) == Seq::<u64>::empty(),
        count_bits(0) == 0,
{
    lemma_const_bits();
    lemma_indices_skip(0, 0, 64);
    assert(set_bits(0) =~= Seq::<u64>::empty());
}

/// Taking the lowest set bit out of `x` takes the head off the list of
/// its set bits.
pub proof fn lemma_set_bits_step(x: u64, j: int)
    requires
        is_lowest(x, j),
    ensures
        set_bit_indices(x) == seq![j] + set_bit_indices(x & ((x - 1) as u64)),
        set_bits(x) == seq![single(j)] + set_bits(x & ((x - 1) as u64)),
        count_bits(x) == 1 + count_bits(x & ((x - 1) as u64)),
{
    lemma_lowest(x, j);
    let y = x & ((x - 1) as u64);
    lemma_indices_skip(x, 0, j);
    lemma_indices_skip(y, 0, j + 1);
    lemma_indices_agree(x, y, j + 1);
    assert(set_bit_indices(x) == seq![j] + set_bit_indices(y));
    assert(set_bits(x) =~= seq![single(j)] + set_bits(y));
}

/// A word `y` that holds bit `j` on top of the bits of `x` lists one more
/// bit than `x` from every place at or below `j`.
proof fn lemma_indices_add_bit(x: u64, y: u64, j: int, n: int)
    requires
        0 <= j < 64,
        0 <= n,
        !bit(x, j),
        forall|i: int| bit(y, i) == (bit(x, i) || i == j),
    ensures
        indices_from(y, n).len() == indices_from(x, n).len() + if n <= j {
            1int
        } else {
            0int
        },
    decreases 64 - n,
{
    if n < 64 {
        lemma_indices_add_bit(x, y, j, n + 1);
    }
}

/// One more set bit is one more in the count.
pub proof fn lemma_count_add_bit(x: u64, j: int)
    requires
        0 <= j < 64,
        !bit(x, j),
    ensures
        count_bits(x | single(j)) == count_bits(x) + 1,
        forall|i: int| #[trigger] bit(x | single(j), i) == (bit(x, i) || i == j),
{
    lemma_bit_ops(x, single(j));
    lemma_const_bits();
    lemma_indices_add_bit(x, x | single(j), j, 0);
}

} // verus!
