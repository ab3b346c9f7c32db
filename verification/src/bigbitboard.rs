//! An `N x M` bitboard backed by `WORDS` `u64` words, for boards too large
//! for a single word (a 19x19 Go board has 361 cells).
//!
//! Cell `index = row * M + col` lives in bit `index % 64` of word
//! `index / 64`. `WORDS` must be `ceil(N * M / 64)`: every function that
//! depends on the layout asks for [`BigBitBoard::dims_ok`].

use vstd::prelude::*;
use crate::bits::{bit, lemma_bit_clear, lemma_bit_ops, lemma_bit_set, lemma_low_mask, lemma_zero_iff_no_bits};

verus! {

/// Whether cell `i` is set in a word sequence laid out as a bitboard.
pub open spec fn seq_bit(ws: Seq<u64>, i: int) -> bool {
    bit(ws[i / 64], (i % 64) as u64)
}

/// Number of set cells among the first `n` cell indices.
pub open spec fn count_bits(ws: Seq<u64>, n: int) -> nat
    decreases n,
{
    if n <= 0 {
        0
    } else {
        count_bits(ws, n - 1) + if seq_bit(ws, n - 1) {
            1nat
        } else {
            0nat
        }
    }
}

/// At most `n` of the first `n` cells are set.
pub proof fn lemma_count_bits_bound(ws: Seq<u64>, n: int)
    requires
        0 <= n,
    ensures
        count_bits(ws, n) <= n,
    decreases n,
{
    if n > 0 {
        lemma_count_bits_bound(ws, n - 1);
    }
}

/// Counting over more cells never counts fewer.
pub proof fn lemma_count_bits_monotone(ws: Seq<u64>, i: int, n: int)
    requires
        0 <= i <= n,
    ensures
        count_bits(ws, i) <= count_bits(ws, n),
    decreases n - i,
{
    if i < n {
        lemma_count_bits_monotone(ws, i, n - 1);
    }
}

/// Word sequences that agree on the first `n` cells count alike there.
proof fn lemma_count_bits_agree(a: Seq<u64>, b: Seq<u64>, n: int)
    requires
        forall|i: int| 0 <= i < n ==> seq_bit(a, i) == seq_bit(b, i),
    ensures
        count_bits(a, n) == count_bits(b, n),
    decreases n,
{
    if n > 0 {
        lemma_count_bits_agree(a, b, n - 1);
    }
}

/// Word sequences that differ at most in cell `idx` among the first `n`
/// have counts that differ by that cell alone.
pub proof fn lemma_count_bits_one_change(a: Seq<u64>, b: Seq<u64>, idx: int, n: int)
    requires
        0 <= idx < n,
        forall|i: int| 0 <= i < n && i != idx ==> seq_bit(a, i) == seq_bit(b, i),
    ensures
        count_bits(b, n) + (if seq_bit(a, idx) { 1int } else { 0int }) == count_bits(a, n) + (if seq_bit(b, idx) {
            1int
        } else {
            0int
        }),
    decreases n,
{
    if n - 1 == idx {
        lemma_count_bits_agree(a, b, n - 1);
    } else {
        lemma_count_bits_one_change(a, b, idx, n - 1);
    }
}

#[derive(Clone, Copy, PartialEq, Eq, Hash, Debug)]
pub struct BigBitBoard<const N: usize, const M: usize, const WORDS: usize>([u64; WORDS]);

impl<const N: usize, const M: usize, const WORDS: usize> View for BigBitBoard<N, M, WORDS> {
    type V = Seq<u64>;

    closed spec fn view(&self) -> Seq<u64> {
        self.0@
    }
}

impl<const N: usize, const M: usize, const WORDS: usize> BigBitBoard<N, M, WORDS> {
    /// The board geometry the layout needs: a non-empty board whose cell
    /// count fits `usize`, stored in exactly `ceil(N * M / 64)` words.
    pub open spec fn dims_ok() -> bool {
        &&& N * M > 0
        &&& N * M <= usize::MAX
        &&& WORDS == (N * M + 63) / 64
    }

    /// Number of addressable bit positions (cells plus padding).
    pub open spec fn capacity() -> int {
        64 * WORDS
    }

    /// Whether cell `i` is set.
    pub open spec fn has(&self, i: int) -> bool {
        seq_bit(self@, i)
    }

    /// No padding bit past the last cell is set.
    pub open spec fn padding_clear(&self) -> bool {
        forall|i: int| N * M <= i < Self::capacity() ==> !#[trigger] self.has(i)
    }

    pub proof fn lemma_view_len(&self)
        ensures
            self@.len() == WORDS,
    {
    }

    proof fn lemma_cell_in_word(i: int)
        requires
            0 <= i < Self::capacity(),
        ensures
            0 <= i / 64 < WORDS,
            0 <= i % 64 < 64,
    {
    }

    /// The mask with exactly the `N * M` cell bits set.
    fn ones_mask() -> (mask: [u64; WORDS])
        requires
            Self::dims_ok(),
        ensures
            forall|i: int| 0 <= i < Self::capacity() ==> (#[trigger] seq_bit(mask@, i) <==> i < N * M),
    {
        let mut mask = [u64::MAX; WORDS];
        let remainder = (N * M) % 64;
        if remainder != 0 {
            proof {
                lemma_low_mask(remainder as u64, 0);
            }
            mask[WORDS - 1] = (1u64 << (remainder as u64)) - 1;
        }
        assert forall|i: int| 0 <= i < Self::capacity() implies (#[trigger] seq_bit(mask@, i)
            <==> i < N * M) by {
            Self::lemma_cell_in_word(i);
            let k = i / 64;
            let b = (i % 64) as u64;
            if remainder != 0 && k == WORDS - 1 {
                lemma_low_mask(remainder as u64, b);
            } else {
                lemma_bit_ops(0, 0, b);
            }
        }
        mask
    }

    /// The board with no cell set.
    pub fn empty() -> (b: Self)
        ensures
            b@.len() == WORDS,
            forall|k: int| 0 <= k < WORDS ==> b@[k] == 0,
            forall|i: int| 0 <= i < Self::capacity() ==> !#[trigger] b.has(i),
    {
        let b = Self([0u64; WORDS]);
        assert forall|i: int| 0 <= i < Self::capacity() implies !#[trigger] b.has(i) by {
            Self::lemma_cell_in_word(i);
            lemma_bit_ops(0, 0, (i % 64) as u64);
        }
        b
    }

    /// The board with every cell set and no padding bit set.
    pub fn ones() -> (b: Self)
        requires
            Self::dims_ok(),
        ensures
            forall|i: int| 0 <= i < Self::capacity() ==> (#[trigger] b.has(i) <==> i < N * M),
    {
        Self(Self::ones_mask())
    }

    pub fn new(words: [u64; WORDS]) -> (b: Self)
        ensures
            b@ == words@,
    {
        Self(words)
    }

    pub fn from_index(index: usize) -> (b: Self)
        requires
            Self::dims_ok(),
            index < N * M,
        ensures
            forall|i: int| 0 <= i < Self::capacity() ==> (#[trigger] b.has(i) <==> i == index),
    {
        let mut b = Self::empty();
        b.set(index);
        b
    }

    pub fn from_coord(row: usize, col: usize) -> (b: Self)
        requires
            Self::dims_ok(),
            row < N,
            col < M,
        ensures
            forall|i: int| 0 <= i < Self::capacity() ==> (#[trigger] b.has(i) <==> i == row * M
                + col),
    {
        let index = Self::to_index(row, col);
        Self::from_index(index)
    }

    pub fn is_empty(&self) -> (r: bool)
        ensures
            r <==> forall|k: int| 0 <= k < WORDS ==> self@[k] == 0,
            r <==> forall|i: int| 0 <= i < Self::capacity() ==> !#[trigger] self.has(i),
    {
        let mut i: usize = 0;
        while i < WORDS
            invariant
                i <= WORDS,
                forall|k: int| 0 <= k < i ==> self@[k] == 0,
            decreases WORDS - i,
        {
            if self.0[i] != 0 {
                proof {
                    lemma_zero_iff_no_bits(self@[i as int]);
                    let b = choose|b: u64| b < 64 && bit(self@[i as int], b);
                    assert(self.has(64 * i + b));
                }
                return false;
            }
            i += 1;
        }
        assert forall|c: int| 0 <= c < Self::capacity() implies !#[trigger] self.has(c) by {
            Self::lemma_cell_in_word(c);
            lemma_bit_ops(0, 0, (c % 64) as u64);
        }
        true
    }

    pub fn to_index(row: usize, col: usize) -> (r: usize)
        requires
            Self::dims_ok(),
            row < N,
            col < M,
        ensures
            r == row * M + col,
            r < N * M,
    {
        proof {
            assert(row * M + col < N * M) by (nonlinear_arith)
                requires
                    row < N,
                    col < M,
            ;
        }
        row * M + col
    }

    pub fn to_coord(index: usize) -> (r: (usize, usize))
        requires
            Self::dims_ok(),
            index < N * M,
        ensures
            r.0 == index / M,
            r.1 == index % M,
            r.0 < N,
            r.1 < M,
    {
        proof {
            assert(M > 0) by (nonlinear_arith)
                requires
                    N * M > 0,
                    N >= 0,
                    M >= 0,
            ;
            assert(index / M < N) by (nonlinear_arith)
                requires
                    index < N * M,
                    M > 0,
            ;
        }
        (index / M, index % M)
    }

    pub fn get(&self, index: usize) -> (r: bool)
        requires
            Self::dims_ok(),
            index < N * M,
        ensures
            r == self.has(index as int),
    {
        proof {
            self.lemma_view_len();
            Self::lemma_cell_in_word(index as int);
            lemma_bit_ops(self@[index as int / 64], 0, (index % 64) as u64);
        }
        let w = self.0[index / 64];
        (w >> ((index % 64) as u64)) & 1 != 0
    }

    pub fn get_at(&self, row: usize, col: usize) -> (r: bool)
        requires
            Self::dims_ok(),
            row < N,
            col < M,
        ensures
            r == self.has(row * M + col),
    {
        self.get(Self::to_index(row, col))
    }

    pub fn set(&mut self, index: usize)
        requires
            Self::dims_ok(),
            index < N * M,
        ensures
            final(self)@ == old(self)@.update(
                index as int / 64,
                old(self)@[index as int / 64] | (1u64 << ((index % 64) as u64)),
            ),
            forall|i: int|
                0 <= i < Self::capacity() ==> (#[trigger] final(self).has(i) <==> (i == index
                    || old(self).has(i))),
            count_bits(final(self)@, Self::capacity()) == count_bits(old(self)@, Self::capacity()) + (if old(
                self,
            ).has(index as int) {
                0int
            } else {
                1int
            }),
    {
        proof {
            Self::lemma_cell_in_word(index as int);
        }
        let k = index / 64;
        let s = (index % 64) as u64;
        self.0[k] = self.0[k] | (1u64 << s);
        proof {
            assert forall|i: int| 0 <= i < Self::capacity() implies (#[trigger] self.has(i) <==> (
            i == index || old(self).has(i))) by {
                Self::lemma_cell_in_word(i);
                if i / 64 == k {
                    lemma_bit_set(old(self)@[k as int], s, (i % 64) as u64);
                }
            }
            assert(self.has(index as int));
            assert forall|i: int| 0 <= i < Self::capacity() && i != index implies seq_bit(old(self)@, i) == seq_bit(
                self@,
                i,
            ) by {
                assert(self.has(i) == old(self).has(i));
            }
            lemma_count_bits_one_change(old(self)@, self@, index as int, Self::capacity());
        }
    }

    pub fn set_at(&mut self, row: usize, col: usize)
        requires
            Self::dims_ok(),
            row < N,
            col < M,
        ensures
            forall|i: int|
                0 <= i < Self::capacity() ==> (#[trigger] final(self).has(i) <==> (i == row * M
                    + col || old(self).has(i))),
    {
        let index = Self::to_index(row, col);
        self.set(index);
    }

    pub fn clear(&mut self, index: usize)
        requires
            Self::dims_ok(),
            index < N * M,
        ensures
            final(self)@ == old(self)@.update(
                index as int / 64,
                old(self)@[index as int / 64] & !(1u64 << ((index % 64) as u64)),
            ),
            forall|i: int|
                0 <= i < Self::capacity() ==> (#[trigger] final(self).has(i) <==> (i != index
                    && old(self).has(i))),
            count_bits(final(self)@, Self::capacity()) == count_bits(old(self)@, Self::capacity()) - (if old(
                self,
            ).has(index as int) {
                1int
            } else {
                0int
            }),
    {
        proof {
            Self::lemma_cell_in_word(index as int);
        }
        let k = index / 64;
        let s = (index % 64) as u64;
        self.0[k] = self.0[k] & !(1u64 << s);
        proof {
            assert forall|i: int| 0 <= i < Self::capacity() implies (#[trigger] self.has(i) <==> (
            i != index && old(self).has(i))) by {
                Self::lemma_cell_in_word(i);
                if i / 64 == k {
                    lemma_bit_clear(old(self)@[k as int], s, (i % 64) as u64);
                }
            }
            assert(!self.has(index as int));
            assert forall|i: int| 0 <= i < Self::capacity() && i != index implies seq_bit(old(self)@, i) == seq_bit(
                self@,
                i,
            ) by {
                assert(self.has(i) == old(self).has(i));
            }
            lemma_count_bits_one_change(old(self)@, self@, index as int, Self::capacity());
        }
    }

    pub fn clear_at(&mut self, row: usize, col: usize)
        requires
            Self::dims_ok(),
            row < N,
            col < M,
        ensures
            forall|i: int|
                0 <= i < Self::capacity() ==> (#[trigger] final(self).has(i) <==> (i != row * M
                    + col && old(self).has(i))),
    {
        let index = Self::to_index(row, col);
        self.clear(index);
    }

    /// Number of set bits over every word (padding included).
    pub fn count_ones(&self) -> (r: u32)
        requires
            count_bits(self@, Self::capacity()) <= u32::MAX,
        ensures
            r == count_bits(self@, Self::capacity()),
    {
        let mut total: u32 = 0;
        let mut k: usize = 0;
        while k < WORDS
            invariant
                k <= WORDS,
                count_bits(self@, 64 * WORDS) <= u32::MAX,
                self@.len() == WORDS,
                total == count_bits(self@, 64 * k),
            decreases WORDS - k,
        {
            let w = self.0[k];
            let mut b: u64 = 0;
            while b < 64
                invariant
                    k < WORDS,
                    b <= 64,
                    count_bits(self@, 64 * WORDS) <= u32::MAX,
                    self@.len() == WORDS,
                    w == self@[k as int],
                    total == count_bits(self@, 64 * k + b),
                decreases 64 - b,
            {
                let on = (w >> b) & 1 == 1;
                proof {
                    let i = 64 * k + b;
                    assert(i / 64 == k && i % 64 == b);
                    assert(count_bits(self@, i + 1) == count_bits(self@, i) + if seq_bit(self@, i) {
                        1nat
                    } else {
                        0nat
                    });
                    lemma_count_bits_monotone(self@, i + 1, 64 * WORDS);
                }
                if on {
                    total = total + 1;
                }
                b = b + 1;
            }
            k = k + 1;
        }
        total
    }

    /// Cell-wise intersection.
    pub fn and(self, rhs: Self) -> (r: Self)
        ensures
            forall|k: int| 0 <= k < WORDS ==> r@[k] == self@[k] & rhs@[k],
            forall|i: int|
                0 <= i < Self::capacity() ==> (#[trigger] r.has(i) <==> (self.has(i) && rhs.has(
                    i))),
    {
        let mut out = self.0;
        let mut k: usize = 0;
        while k < WORDS
            invariant
                k <= WORDS,
                out@.len() == WORDS,
                self@.len() == WORDS,
                rhs@.len() == WORDS,
                forall|j: int| 0 <= j < k ==> out@[j] == self@[j] & rhs@[j],
            decreases WORDS - k,
        {
            out[k] = self.0[k] & rhs.0[k];
            k += 1;
        }
        let r = Self(out);
        assert forall|i: int| 0 <= i < Self::capacity() implies (#[trigger] r.has(i) <==> (
        self.has(i) && rhs.has(i))) by {
            Self::lemma_cell_in_word(i);
            lemma_bit_ops(self@[i / 64], rhs@[i / 64], (i % 64) as u64);
        }
        r
    }

    /// Cell-wise union.
    pub fn or(self, rhs: Self) -> (r: Self)
        ensures
            forall|k: int| 0 <= k < WORDS ==> r@[k] == self@[k] | rhs@[k],
            forall|i: int|
                0 <= i < Self::capacity() ==> (#[trigger] r.has(i) <==> (self.has(i) || rhs.has(
                    i))),
    {
        let mut out = self.0;
        let mut k: usize = 0;
        while k < WORDS
            invariant
                k <= WORDS,
                out@.len() == WORDS,
                self@.len() == WORDS,
                rhs@.len() == WORDS,
                forall|j: int| 0 <= j < k ==> out@[j] == self@[j] | rhs@[j],
            decreases WORDS - k,
        {
            out[k] = self.0[k] | rhs.0[k];
            k += 1;
        }
        let r = Self(out);
        assert forall|i: int| 0 <= i < Self::capacity() implies (#[trigger] r.has(i) <==> (
        self.has(i) || rhs.has(i))) by {
            Self::lemma_cell_in_word(i);
            lemma_bit_ops(self@[i / 64], rhs@[i / 64], (i % 64) as u64);
        }
        r
    }

    /// Cell-wise symmetric difference.
    pub fn xor(self, rhs: Self) -> (r: Self)
        ensures
            forall|k: int| 0 <= k < WORDS ==> r@[k] == self@[k] ^ rhs@[k],
            forall|i: int|
                0 <= i < Self::capacity() ==> (#[trigger] r.has(i) <==> (self.has(i) != rhs.has(
                    i))),
    {
        let mut out = self.0;
        let mut k: usize = 0;
        while k < WORDS
            invariant
                k <= WORDS,
                out@.len() == WORDS,
                self@.len() == WORDS,
                rhs@.len() == WORDS,
                forall|j: int| 0 <= j < k ==> out@[j] == self@[j] ^ rhs@[j],
            decreases WORDS - k,
        {
            out[k] = self.0[k] ^ rhs.0[k];
            k += 1;
        }
        let r = Self(out);
        assert forall|i: int| 0 <= i < Self::capacity() implies (#[trigger] r.has(i) <==> (
        self.has(i) != rhs.has(i))) by {
            Self::lemma_cell_in_word(i);
            lemma_bit_ops(self@[i / 64], rhs@[i / 64], (i % 64) as u64);
        }
        r
    }

    /// Complement within the board: every cell flips, padding stays clear.
    pub fn not(self) -> (r: Self)
        requires
            Self::dims_ok(),
        ensures
            forall|i: int|
                0 <= i < Self::capacity() ==> (#[trigger] r.has(i) <==> (i < N * M && !self.has(
                    i))),
            r.padding_clear(),
    {
        let ones = Self::ones_mask();
        let mut out = self.0;
        let mut k: usize = 0;
        while k < WORDS
            invariant
                k <= WORDS,
                out@.len() == WORDS,
                self@.len() == WORDS,
                ones@.len() == WORDS,
                forall|j: int| 0 <= j < k ==> out@[j] == !self@[j] & ones@[j],
            decreases WORDS - k,
        {
            out[k] = !self.0[k] & ones[k];
            k += 1;
        }
        let r = Self(out);
        assert forall|i: int| 0 <= i < Self::capacity() implies (#[trigger] r.has(i) <==> (i < N
            * M && !self.has(i))) by {
            Self::lemma_cell_in_word(i);
            let b = (i % 64) as u64;
            lemma_bit_ops(!self@[i / 64], ones@[i / 64], b);
            lemma_bit_ops(self@[i / 64], ones@[i / 64], b);
            assert(seq_bit(ones@, i) <==> i < N * M);
        }
        r
    }

    /// Whether the two boards share a set cell.
    pub fn intersects(self, rhs: Self) -> (r: bool)
        ensures
            r <==> exists|i: int| 0 <= i < Self::capacity() && #[trigger] self.has(i) && rhs.has(i),
    {
        let both = self.and(rhs);
        let e = both.is_empty();
        if !e {
            let ghost w = choose|i: int| 0 <= i < Self::capacity() && #[trigger] both.has(i);
            assert(self.has(w) && rhs.has(w));
        } else {
            assert forall|i: int| 0 <= i < Self::capacity() implies !(#[trigger] self.has(i)
                && rhs.has(i)) by {
                assert(!both.has(i));
            }
        }
        !e
    }

    /// Whether every cell set in `self` is also set in `rhs`.
    pub fn is_subset(self, rhs: Self) -> (r: bool)
        ensures
            r <==> forall|i: int| 0 <= i < Self::capacity() && #[trigger] self.has(i) ==> rhs.has(i),
    {
        let outside = self.and(rhs.complement_words());
        let e = outside.is_empty();
        if !e {
            let ghost w = choose|i: int| 0 <= i < Self::capacity() && #[trigger] outside.has(i);
            assert(self.has(w) && !rhs.has(w));
        } else {
            assert forall|i: int| 0 <= i < Self::capacity() && #[trigger] self.has(i) implies rhs.has(
                i) by {
                assert(!outside.has(i));
            }
        }
        e
    }

    /// Word-wise `!` over every bit, padding included (used only to test
    /// containment, where padding of the left-hand side decides).
    fn complement_words(self) -> (r: Self)
        ensures
            forall|i: int| 0 <= i < Self::capacity() ==> (#[trigger] r.has(i) <==> !self.has(i)),
    {
        let mut out = self.0;
        let mut k: usize = 0;
        while k < WORDS
            invariant
                k <= WORDS,
                out@.len() == WORDS,
                self@.len() == WORDS,
                forall|j: int| 0 <= j < k ==> out@[j] == !self@[j],
            decreases WORDS - k,
        {
            out[k] = !self.0[k];
            k += 1;
        }
        let r = Self(out);
        assert forall|i: int| 0 <= i < Self::capacity() implies (#[trigger] r.has(i)
            <==> !self.has(i)) by {
            Self::lemma_cell_in_word(i);
            lemma_bit_ops(self@[i / 64], self@[i / 64], (i % 64) as u64);
        }
        r
    }

    /// Whether the two boards share no set cell.
    pub fn is_disjoint(self, rhs: Self) -> (r: bool)
        ensures
            r <==> forall|i: int| 0 <= i < Self::capacity() && #[trigger] self.has(i) ==> !rhs.has(
                i),
    {
        !self.intersects(rhs)
    }

    /// The raw underlying words.
    pub fn words(self) -> (r: [u64; WORDS])
        ensures
            r@ == self@,
    {
        self.0
    }

    /// Every set bit index, ascending (the board's iteration order).
    pub fn set_indices(&self) -> (r: Vec<usize>)
        requires
            Self::capacity() <= usize::MAX,
        ensures
            forall|a: int, b: int| 0 <= a < b < r.len() ==> r@[a] < r@[b],
            forall|a: int| 0 <= a < r.len() ==> r@[a] < Self::capacity() && self.has(
                #[trigger] r@[a] as int),
            forall|i: int|
                0 <= i < Self::capacity() && #[trigger] self.has(i) ==> r@.contains(i as usize),
    {
        let mut out: Vec<usize> = Vec::new();
        let mut k: usize = 0;
        while k < WORDS
            invariant
                k <= WORDS,
                64 * WORDS <= usize::MAX,
                self@.len() == WORDS,
                forall|a: int, b: int| 0 <= a < b < out.len() ==> out@[a] < out@[b],
                forall|a: int| 0 <= a < out.len() ==> out@[a] < 64 * k && self.has(
                    #[trigger] out@[a] as int),
                forall|i: int| 0 <= i < 64 * k && #[trigger] self.has(i) ==> out@.contains(
                    i as usize),
            decreases WORDS - k,
        {
            let w = self.0[k];
            let mut b: u64 = 0;
            while b < 64
                invariant
                    k < WORDS,
                    b <= 64,
                    64 * WORDS <= usize::MAX,
                    self@.len() == WORDS,
                    w == self@[k as int],
                    forall|x: int, y: int| 0 <= x < y < out.len() ==> out@[x] < out@[y],
                    forall|a: int| 0 <= a < out.len() ==> out@[a] < 64 * k + b && self.has(
                        #[trigger] out@[a] as int),
                    forall|i: int| 0 <= i < 64 * k + b && #[trigger] self.has(i) ==> out@.contains(
                        i as usize),
                decreases 64 - b,
            {
                let i = 64 * k + (b as usize);
                proof {
                    assert(i / 64 == k && i % 64 == b);
                }
                if (w >> b) & 1 == 1 {
                    let ghost old_out = out@;
                    out.push(i);
                    proof {
                        assert forall|j: int| 0 <= j < 64 * k + b + 1 && #[trigger] self.has(
                            j) implies out@.contains(j as usize) by {
                            if j == i {
                                assert(out@[out.len() - 1] == i);
                            } else {
                                let p = choose|p: int|
                                    0 <= p < old_out.len() && old_out[p] == j as usize;
                                assert(out@[p] == j as usize);
                            }
                        }
                    }
                }
                b = b + 1;
            }
            k = k + 1;
        }
        out
    }
}

} // verus!

verus! {

/// Read cell `i` of a raw word array laid out as a bitboard.
pub fn words_get<const W: usize>(words: &[u64; W], i: usize) -> (r: bool)
    requires
        i < 64 * W,
    ensures
        r == seq_bit(words@, i as int),
{
    proof {
        lemma_bit_ops(words@[i as int / 64], 0, (i % 64) as u64);
    }
    (words[i / 64] >> ((i % 64) as u64)) & 1 != 0
}

/// Set cell `i` of a raw word array laid out as a bitboard.
pub fn words_set<const W: usize>(words: &mut [u64; W], i: usize)
    requires
        i < 64 * W,
    ensures
        forall|j: int|
            0 <= j < 64 * W ==> #[trigger] seq_bit(final(words)@, j) == (j == i || seq_bit(
                old(words)@,
                j,
            )),
{
    let k = i / 64;
    let s = (i % 64) as u64;
    words[k] = words[k] | (1u64 << s);
    proof {
        assert forall|j: int| 0 <= j < 64 * W implies #[trigger] seq_bit(words@, j) == (j == i
            || seq_bit(old(words)@, j)) by {
            if j / 64 == k {
                lemma_bit_set(old(words)@[k as int], s, (j % 64) as u64);
            }
        }
    }
}

} // verus!
