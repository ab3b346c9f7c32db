//! Single-word bit facts shared by every bitboard in the crate: what `|`,
//! `&`, `^`, `!` and single-bit masks do to one bit of a `u64`, stated once
//! over [`bit`] and proved by bit-blasting.

use vstd::prelude::*;

verus! {

/// Whether bit `b` (0 = least significant) of `w` is set.
pub open spec fn bit(w: u64, b: u64) -> bool {
    (w >> b) & 1u64 == 1u64
}

/// Bit `b` of a single-bit mask `1 << s` is set exactly when `b == s`.
pub proof fn lemma_single_bit(s: u64, b: u64)
    by (bit_vector)
    requires
        s < 64,
        b < 64,
    ensures
        bit(1u64 << s, b) == (b == s),
{
}

/// Setting bit `s` leaves every other bit unchanged.
pub proof fn lemma_bit_set(w: u64, s: u64, b: u64)
    by (bit_vector)
    requires
        s < 64,
        b < 64,
    ensures
        bit(w | (1u64 << s), b) == (b == s || bit(w, b)),
{
}

/// Clearing bit `s` leaves every other bit unchanged.
pub proof fn lemma_bit_clear(w: u64, s: u64, b: u64)
    by (bit_vector)
    requires
        s < 64,
        b < 64,
    ensures
        bit(w & !(1u64 << s), b) == (b != s && bit(w, b)),
{
}

/// `&`, `|`, `^` and `!` act bit by bit.
pub proof fn lemma_bit_ops(x: u64, y: u64, b: u64)
    by (bit_vector)
    requires
        b < 64,
    ensures
        bit(x & y, b) == (bit(x, b) && bit(y, b)),
        bit(x | y, b) == (bit(x, b) || bit(y, b)),
        bit(x ^ y, b) == (bit(x, b) != bit(y, b)),
        bit(!x, b) == !bit(x, b),
        !bit(0u64, b),
        bit(0xffff_ffff_ffff_ffffu64, b),
        ((x >> b) & 1u64 != 0u64) == bit(x, b),
{
}

/// Testing a word against a single-bit mask reads that bit.
pub proof fn lemma_mask_test(w: u64, s: u64)
    by (bit_vector)
    requires
        s < 64,
    ensures
        (w & (1u64 << s) != 0u64) == bit(w, s),
{
}

/// Number of set bits among the low `n` bits of `w`.
pub open spec fn ones_below(w: u64, n: int) -> nat
    decreases n,
{
    if n <= 0 {
        0
    } else {
        ones_below(w, n - 1) + if bit(w, (n - 1) as u64) {
            1nat
        } else {
            0nat
        }
    }
}

/// Number of set bits of `w`.
pub open spec fn ones(w: u64) -> nat {
    ones_below(w, 64)
}

/// Counting over more bits never counts fewer, and never more than the
/// bits counted.
pub proof fn lemma_ones_below_bound(w: u64, n: int)
    requires
        0 <= n,
    ensures
        ones_below(w, n) <= n,
    decreases n,
{
    if n > 0 {
        lemma_ones_below_bound(w, n - 1);
    }
}

/// The number of set bits of a word.
pub fn count_ones(w: u64) -> (r: u32)
    ensures
        r == ones(w),
        r <= 64,
{
    let mut total: u32 = 0;
    let mut b: u64 = 0;
    while b < 64
        invariant
            b <= 64,
            total == ones_below(w, b as int),
            total <= b,
        decreases 64 - b,
    {
        if (w >> b) & 1 == 1 {
            total = total + 1;
        }
        b = b + 1;
    }
    total
}

/// XOR is associative and commutative, zero is its unit, and every word
/// is its own inverse.
pub proof fn lemma_xor_facts(a: u64, b: u64, c: u64)
    by (bit_vector)
    ensures
        (a ^ b) ^ c == a ^ (b ^ c),
        a ^ b == b ^ a,
        a ^ 0u64 == a,
        a ^ a == 0u64,
{
}

/// Regrouping and cancelling in XOR chains.
pub proof fn lemma_xor_regroup(a: u64, b: u64, c: u64, d: u64)
    by (bit_vector)
    ensures
        (a ^ d) ^ c == (a ^ c) ^ d,
        (a ^ b) ^ (b ^ c) == a ^ c,
        ((a ^ b) ^ c) ^ d == a ^ ((b ^ c) ^ d),
        (a ^ (b ^ c)) ^ d == (a ^ d) ^ (b ^ c),
{
}

/// The low mask `(1 << r) - 1` has exactly the bits below `r` set.
pub proof fn lemma_low_mask(r: u64, b: u64)
    by (bit_vector)
    requires
        r < 64,
        b < 64,
    ensures
        (1u64 << r) >= 1u64,
        bit(((1u64 << r) - 1u64) as u64, b) == (b < r),
{
}

/// A word is zero exactly when none of its 64 bits is set.
pub proof fn lemma_zero_iff_no_bits(w: u64)
    ensures
        w == 0 <==> (forall|b: u64| b < 64 ==> !#[trigger] bit(w, b)),
{
    broadcast use vstd::std_specs::bits::axiom_u64_trailing_zeros;

    if w == 0 {
        assert forall|b: u64| b < 64 implies !#[trigger] bit(w, b) by {
            lemma_bit_ops(w, w, b);
        }
    } else {
        let t = w.trailing_zeros() as u64;
        assert(bit(w, t));
    }
}

/// Two words with the same 64 bits are equal.
pub proof fn lemma_bits_ext(x: u64, y: u64)
    requires
        forall|b: u64| b < 64 ==> #[trigger] bit(x, b) == bit(y, b),
    ensures
        x == y,
{
    assert forall|b: u64| b < 64 implies !#[trigger] bit(x ^ y, b) by {
        lemma_bit_ops(x, y, b);
    }
    lemma_zero_iff_no_bits(x ^ y);
    assert(x ^ y == 0u64 ==> x == y) by (bit_vector);
}

} // verus!
