//! Bit-level vocabulary: which bits of a 64-bit word are set, and the facts
//! about the bitwise operators that the board sets are built on.

use vstd::prelude::*;
use vstd::set_lib::set_int_range;
use vstd::std_specs::bits::{
    axiom_u64_leading_zeros,
    axiom_u64_trailing_zeros,
    u64_leading_zeros,
    u64_trailing_zeros,
};
use vstd::wrapping::u64_specs::{wrapping_add, wrapping_sub};

verus! {

/// Bit `i` of `x` is set.
pub open spec fn bit_at(x: u64, i: u64) -> bool {
    (x >> i) & 1 == 1
}

/// Bit `i` of `x` is set; false for every `i` outside `0..64`.
pub open spec fn bit(x: u64, i: int) -> bool {
    0 <= i < 64 && bit_at(x, i as u64)
}

/// The positions of the set bits of `x`.
pub open spec fn bits_of(x: u64) -> Set<int> {
    Set::new(|i: int| bit(x, i))
}

/// The position of the lowest set bit of `x` (64 when `x` is zero).
pub open spec fn lowest_bit(x: u64) -> int {
    u64_trailing_zeros(x) as int
}

/// The position of the highest set bit of `x` (-1 when `x` is zero).
pub open spec fn highest_bit(x: u64) -> int {
    63 - u64_leading_zeros(x)
}

/// The word whose only set bit is bit `i`.
pub open spec fn one_bit(i: int) -> u64 {
    1u64 << (i as u64)
}

/// The bytes of `x` in the opposite order.
pub open spec fn byte_swapped(x: u64) -> u64 {
    ((x & 0xff) << 56) | ((x & 0xff00) << 40) | ((x & 0xff0000) << 24) | ((x & 0xff000000) << 8)
        | ((x >> 8) & 0xff000000) | ((x >> 24) & 0xff0000) | ((x >> 40) & 0xff00) | ((x >> 56)
        & 0xff)
}

/// Where bit `i` lands when the bytes of a word are swapped.
pub open spec fn byte_mirror(i: int) -> int {
    8 * (7 - i / 8) + i % 8
}

/// The bits of `x & y`, `x | y`, `x ^ y` and `!x`, bit by bit.
pub proof fn lemma_bitwise(x: u64, y: u64)
    by (bit_vector)
    ensures
        forall|i: u64| i < 64 ==> #[trigger] bit_at(x & y, i) == (bit_at(x, i) && bit_at(y, i)),
        forall|i: u64| i < 64 ==> #[trigger] bit_at(x | y, i) == (bit_at(x, i) || bit_at(y, i)),
        forall|i: u64| i < 64 ==> #[trigger] bit_at(x ^ y, i) == (bit_at(x, i) != bit_at(y, i)),
        forall|i: u64| i < 64 ==> #[trigger] bit_at(!x, i) == !bit_at(x, i),
        forall|i: u64| i < 64 ==> !#[trigger] bit_at(0u64, i),
        x ^ y == 0 ==> x == y,
{
}

/// The bits of `x << k` and `x >> k`, bit by bit.
pub proof fn lemma_shifts(x: u64, k: u64)
    by (bit_vector)
    requires
        k < 64,
    ensures
        forall|i: u64|
            i < 64 ==> #[trigger] bit_at(x << k, i) == (i >= k && bit_at(x, (i - k) as u64)),
        forall|i: u64|
            i < 64 ==> #[trigger] bit_at(x >> k, i) == (i + k < 64 && bit_at(x, (i + k) as u64)),
{
}

/// The word `1 << j` has bit `j` set and no other.
pub proof fn lemma_one_bit_at(j: u64)
    by (bit_vector)
    requires
        j < 64,
    ensures
        forall|i: u64| i < 64 ==> #[trigger] bit_at(1u64 << j, i) == (i == j),
{
}

/// Where bit `t` is the lowest set bit of `x`: `x & -x` is that bit
/// alone, and `x & (x - 1)` is `x` without it.
pub proof fn lemma_lowest_word(x: u64, t: u64)
    by (bit_vector)
    requires
        t < 64,
        bit_at(x, t),
        x << ((64 - t) as u64) == 0,
    ensures
        x & wrapping_add(!x, 1) == 1u64 << t,
        x & wrapping_sub(x, 1) == x & !(1u64 << t),
        x != 0,
{
}

/// The bits of a word with its bytes swapped, bit by bit.
pub proof fn lemma_byte_swapped_at(x: u64)
    by (bit_vector)
    ensures
        forall|i: u64|
            i < 64 ==> #[trigger] bit_at(byte_swapped(x), i) == bit_at(
                x,
                (8 * (7 - i / 8) + i % 8) as u64,
            ),
{
}

/// The bits of a byte, of `0xff` and of `0x0101010101010101` shifted
/// into place: byte `k` of a word, and bit `k` of each byte.
pub proof fn lemma_lanes(b: u8, k: u64)
    by (bit_vector)
    requires
        k < 8,
    ensures
        forall|i: u64|
            i < 64 ==> #[trigger] bit_at((b as u64) << ((8 * k) as u64), i) == (i / 8 == k
                && bit_at(b as u64, i % 8)),
        forall|i: u64| i < 64 ==> #[trigger] bit_at(0xffu64 << ((8 * k) as u64), i) == (i / 8 == k),
        forall|i: u64| i < 64 ==> #[trigger] bit_at(0x0101010101010101u64 << k, i) == (i % 8 == k),
{
}

/// The set bits of a word lie in `0..64`, and there are finitely many.
pub proof fn lemma_bits_bounded(x: u64)
    ensures
        bits_of(x).finite(),
        bits_of(x).len() <= 64,
        forall|i: int| bits_of(x).contains(i) ==> 0 <= i < 64,
{
    let all = set_int_range(0, 64);
    vstd::set_lib::lemma_int_range(0, 64);
    assert(bits_of(x).subset_of(all));
    vstd::set_lib::lemma_len_subset(bits_of(x), all);
}

/// The set bits of `x & y` are those set in both.
pub broadcast proof fn lemma_bits_and(x: u64, y: u64)
    ensures
        #[trigger] bits_of(x & y) == bits_of(x).intersect(bits_of(y)),
{
    lemma_bitwise(x, y);
    assert(bits_of(x & y) =~= bits_of(x).intersect(bits_of(y)));
}

/// The set bits of `x | y` are those set in either.
pub broadcast proof fn lemma_bits_or(x: u64, y: u64)
    ensures
        #[trigger] bits_of(x | y) == bits_of(x).union(bits_of(y)),
{
    lemma_bitwise(x, y);
    assert(bits_of(x | y) =~= bits_of(x).union(bits_of(y)));
}

/// The set bits of `x ^ y` are those set in exactly one.
pub broadcast proof fn lemma_bits_xor(x: u64, y: u64)
    ensures
        #[trigger] bits_of(x ^ y) == bits_of(x).union(bits_of(y)).difference(
            bits_of(x).intersect(bits_of(y)),
        ),
{
    lemma_bitwise(x, y);
    assert(bits_of(x ^ y) =~= bits_of(x).union(bits_of(y)).difference(
        bits_of(x).intersect(bits_of(y)),
    ));
}

/// The set bits of `!x` are those of the 64 that are not set in `x`.
pub broadcast proof fn lemma_bits_not(x: u64)
    ensures
        #[trigger] bits_of(!x) == set_int_range(0, 64).difference(bits_of(x)),
{
    lemma_bitwise(x, x);
    assert(bits_of(!x) =~= set_int_range(0, 64).difference(bits_of(x)));
}

/// Zero has no set bit.
pub proof fn lemma_bits_zero()
    ensures
        bits_of(0u64) == Set::<int>::empty(),
{
    lemma_bitwise(0, 0);
    assert(bits_of(0u64) =~= Set::<int>::empty());
}

/// The word with bit `i` alone has that one set bit.
pub broadcast proof fn lemma_bits_one(i: int)
    requires
        0 <= i < 64,
    ensures
        #[trigger] bits_of(one_bit(i)) == set![i],
{
    lemma_one_bit_at(i as u64);
    assert(bits_of(one_bit(i)) =~= set![i]);
}

/// What the bitwise operators do to the set bits of their operands.
pub broadcast group group_bits {
    lemma_bits_and,
    lemma_bits_or,
    lemma_bits_xor,
    lemma_bits_not,
    lemma_bits_one,
}

/// Two words with the same set bits are the same word.
pub proof fn lemma_bits_injective(x: u64, y: u64)
    requires
        bits_of(x) == bits_of(y),
    ensures
        x == y,
{
    if x != y {
        lemma_bitwise(x, y);
        let z = x ^ y;
        axiom_u64_trailing_zeros(z);
        let t = u64_trailing_zeros(z) as u64;
        assert(bit_at(x ^ y, t));
        assert(bit_at(x, t) != bit_at(y, t));
        let k = t as int;
        assert(bit(x, k) != bit(y, k));
        assert(bits_of(x).contains(k) == bit(x, k));
        assert(bits_of(y).contains(k) == bit(y, k));
        assert(false);
    }
}

/// A non-zero word has a lowest set bit, and nothing below it.
pub proof fn lemma_lowest_bit(x: u64)
    requires
        x != 0,
    ensures
        bits_of(x).contains(lowest_bit(x)),
        forall|i: int| bits_of(x).contains(i) ==> lowest_bit(x) <= i,
        x & wrapping_add(!x, 1) == one_bit(lowest_bit(x)),
        bits_of((x & wrapping_sub(x, 1)) as u64) == bits_of(x).remove(lowest_bit(x)),
{
    axiom_u64_trailing_zeros(x);
    let t = u64_trailing_zeros(x) as u64;
    assert forall|i: int| bits_of(x).contains(i) implies t <= i by {
        if i < t {
            assert(bit_at(x, i as u64));
        }
    }
    lemma_lowest_word(x, t);
    let rest = x & wrapping_sub(x, 1);
    lemma_bitwise(x, !(1u64 << t));
    lemma_bitwise(1u64 << t, 0);
    lemma_one_bit_at(t);
    assert(bits_of(rest) =~= bits_of(x).remove(t as int));
}

/// A non-zero word has a highest set bit, and nothing above it.
pub proof fn lemma_highest_bit(x: u64)
    requires
        x != 0,
    ensures
        bits_of(x).contains(highest_bit(x)),
        forall|i: int| bits_of(x).contains(i) ==> i <= highest_bit(x),
{
    axiom_u64_leading_zeros(x);
    let z = u64_leading_zeros(x);
    assert(0 <= z < 64);
    let h = (63 - z) as u64;
    assert(bit_at(x, h)) by {
        lemma_bit_is_set(x, h);
    }
    assert forall|i: int| bits_of(x).contains(i) implies i <= 63 - z by {
        if i > 63 - z {
            assert(bit_at(x, i as u64));
        }
    }
}

proof fn lemma_bit_is_set(x: u64, i: u64)
    by (bit_vector)
    requires
        i < 64,
        (x >> i) & 1 != 0,
    ensures
        bit_at(x, i),
{
}

/// A word is zero exactly when it has no set bit.
pub proof fn lemma_zero_iff_empty(x: u64)
    ensures
        x == 0 <==> bits_of(x) == Set::<int>::empty(),
{
    if x != 0 {
        lemma_lowest_bit(x);
    } else {
        lemma_bits_zero();
    }
}

/// Swapping the bytes of a word moves bit `i` to `byte_mirror(i)`.
pub proof fn lemma_bits_byte_swapped(x: u64)
    ensures
        forall|i: int| 0 <= i < 64 ==> (bit(byte_swapped(x), i) <==> bit(x, byte_mirror(i))),
{
    lemma_byte_swapped_at(x);
    assert forall|i: int| 0 <= i < 64 implies (bit(byte_swapped(x), i) <==> bit(
        x,
        byte_mirror(i),
    )) by {
        assert(bit_at(byte_swapped(x), i as u64) == bit_at(
            x,
            (8 * (7 - (i as u64) / 8) + (i as u64) % 8) as u64,
        ));
    }
}

/// The lowest set bit of `b`, alone; zero when `b` is zero.
pub fn lsb(b: u64) -> (r: u64)
    ensures
        b == 0 ==> r == 0,
        b != 0 ==> r == one_bit(lowest_bit(b)) && bits_of(r) == set![lowest_bit(b)],
{
    let r = b & (!b).wrapping_add(1);
    proof {
        if b != 0 {
            lemma_lowest_bit(b);
            lemma_bits_one(lowest_bit(b));
        } else {
            assert(0u64 & wrapping_add(!0u64, 1) == 0) by (bit_vector);
        }
    }
    r
}

/// The highest set bit of `b`, alone; zero when `b` is zero.
pub fn msb(b: u64) -> (r: u64)
    ensures
        b == 0 ==> r == 0,
        b != 0 ==> r == one_bit(highest_bit(b)) && bits_of(r) == set![highest_bit(b)],
{
    if b == 0 {
        0
    } else {
        proof {
            lemma_highest_bit(b);
            lemma_bits_bounded(b);
            lemma_bits_one(highest_bit(b));
        }
        let z = b.leading_zeros();
        1u64 << (63 - z)
    }
}

} // verus!
