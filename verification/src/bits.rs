//! Powers of two and the reversal of the bits of an index.

use vstd::prelude::*;
use vstd::arithmetic::power2::*;

verus! {

/// The integer logarithm to base two, rounded down.
pub open spec fn log2(n: int) -> nat
    decreases n,
{
    if n <= 1 {
        0
    } else {
        log2(n / 2) + 1
    }
}

/// Whether `n` is a power of two.
pub open spec fn is_pow2(n: int) -> bool {
    n == pow2(log2(n))
}

/// The number whose `k` binary digits are the lowest `k` digits of `i` in reverse order.
pub open spec fn bitrev(i: int, k: nat) -> int
    decreases k,
{
    if k == 0 {
        0
    } else {
        bitrev(i / 2, (k - 1) as nat) + (i % 2) * pow2((k - 1) as nat)
    }
}

/// `log2` inverts `pow2`.
pub proof fn lemma_log2_pow2(k: nat)
    ensures
        log2(pow2(k) as int) == k,
        is_pow2(pow2(k) as int),
    decreases k,
{
    if k == 0 {
        lemma2_to64();
    } else {
        lemma_pow2_unfold(k);
        lemma_pow2_pos((k - 1) as nat);
        lemma_log2_pow2((k - 1) as nat);
    }
}

/// The logarithm of a machine integer is less than its number of bits.
pub proof fn lemma_log2_fits(n: usize)
    requires
        is_pow2(n as int),
    ensures
        log2(n as int) < usize::BITS,
{
    if log2(n as int) >= usize::BITS {
        lemma_pow2_mono(usize::BITS as nat, log2(n as int));
        lemma2_to64();
        lemma2_to64_rest();
    }
}

/// Doubling the smaller of two consecutive powers gives the larger.
pub proof fn lemma_pow2_step(k: nat)
    ensures
        pow2(k + 1) == 2 * pow2(k),
        pow2(k) >= 1,
{
    lemma_pow2_unfold(k + 1);
    lemma_pow2_pos(k);
}

/// Powers of two do not decrease.
pub proof fn lemma_pow2_mono(a: nat, b: nat)
    requires
        a <= b,
    ensures
        pow2(a) <= pow2(b),
{
    if a < b {
        lemma_pow2_strictly_increases(a, b);
    }
}

/// A power of two exceeds its exponent.
pub proof fn lemma_pow2_above(k: nat)
    ensures
        k < pow2(k),
    decreases k,
{
    lemma2_to64();
    if k > 0 {
        lemma_pow2_step((k - 1) as nat);
        lemma_pow2_above((k - 1) as nat);
    }
}

/// A reversed index stays in range.
pub proof fn lemma_bitrev_bound(i: int, k: nat)
    ensures
        0 <= bitrev(i, k) < pow2(k),
    decreases k,
{
    lemma_pow2_pos(k);
    if k > 0 {
        let m: nat = (k - 1) as nat;
        lemma_bitrev_bound(i / 2, m);
        lemma_pow2_step(m);
        assert((i % 2) * pow2(m) <= pow2(m)) by (nonlinear_arith)
            requires
                0 <= i % 2 <= 1,
                pow2(m) >= 0,
        ;
        assert((i % 2) * pow2(m) >= 0) by (nonlinear_arith)
            requires
                0 <= i % 2 <= 1,
                pow2(m) >= 0,
        ;
    }
}

/// Zero has no digits.
pub proof fn lemma_bitrev_zero(k: nat)
    ensures
        bitrev(0, k) == 0,
    decreases k,
{
    if k > 0 {
        lemma_bitrev_zero((k - 1) as nat);
        assert(0 * pow2((k - 1) as nat) == 0) by (nonlinear_arith);
    }
}

/// The highest digit becomes the lowest.
pub proof fn lemma_bitrev_top(i: int, c: int, k: nat)
    requires
        0 <= i < pow2(k),
        0 <= c <= 1,
    ensures
        bitrev(c * pow2(k) + i, k + 1) == 2 * bitrev(i, k) + c,
    decreases k,
{
    lemma2_to64();
    if k == 0 {
        assert(c * pow2(k) + i == c) by (nonlinear_arith)
            requires
                pow2(k) == 1,
                i == 0,
        ;
        reveal_with_fuel(bitrev, 2);
        assert((c % 2) * pow2(0) == c) by (nonlinear_arith)
            requires
                pow2(0) == 1,
                c % 2 == c,
        ;
    } else {
        let m: nat = (k - 1) as nat;
        lemma_pow2_step(m);
        let x: int = c * pow2(k) + i;
        assert(x == 2 * (c * pow2(m)) + i) by (nonlinear_arith)
            requires
                x == c * pow2(k) + i,
                pow2(k) == 2 * pow2(m),
        ;
        assert(x / 2 == c * pow2(m) + i / 2);
        assert(x % 2 == i % 2);
        lemma_bitrev_top(i / 2, c, m);
        assert((i % 2) * pow2(k) == 2 * ((i % 2) * pow2(m))) by (nonlinear_arith)
            requires
                pow2(k) == 2 * pow2(m),
        ;
    }
}

/// Reversing a two-part index reverses each part and exchanges the parts.
pub proof fn lemma_bitrev_split(q: int, p: int, l: nat, m: nat)
    requires
        0 <= q < pow2(l),
        0 <= p < pow2(m),
    ensures
        bitrev(q * pow2(m) + p, l + m) == bitrev(p, m) * pow2(l) + bitrev(q, l),
    decreases m,
{
    lemma2_to64();
    if m == 0 {
        assert(q * pow2(m) + p == q) by (nonlinear_arith)
            requires
                pow2(m) == 1,
                p == 0,
        ;
        assert(bitrev(p, m) * pow2(l) == 0) by (nonlinear_arith)
            requires
                bitrev(p, m) == 0,
        ;
    } else {
        let n: nat = (m - 1) as nat;
        lemma_pow2_step(n);
        let x: int = q * pow2(m) + p;
        assert(x == 2 * (q * pow2(n)) + p) by (nonlinear_arith)
            requires
                x == q * pow2(m) + p,
                pow2(m) == 2 * pow2(n),
        ;
        assert(x / 2 == q * pow2(n) + p / 2);
        assert(x % 2 == p % 2);
        lemma_bitrev_split(q, p / 2, l, n);
        lemma_pow2_adds(l, n);
        assert((l + m - 1) as nat == l + n);
        let a: int = bitrev(p / 2, n);
        let b: int = (p % 2) * pow2(n);
        assert((a + b) * pow2(l) == a * pow2(l) + (p % 2) * pow2(l + n)) by (nonlinear_arith)
            requires
                b == (p % 2) * pow2(n),
                pow2(l + n) == pow2(l) * pow2(n),
        ;
    }
}

/// Reversing twice gives back the index.
pub proof fn lemma_bitrev_involution(i: int, k: nat)
    requires
        0 <= i < pow2(k),
    ensures
        bitrev(bitrev(i, k), k) == i,
    decreases k,
{
    lemma2_to64();
    if k > 0 {
        let m: nat = (k - 1) as nat;
        lemma_pow2_step(m);
        lemma_bitrev_involution(i / 2, m);
        lemma_bitrev_bound(i / 2, m);
        lemma_bitrev_top(bitrev(i / 2, m), i % 2, m);
    }
}

/// The entries of `s` in the order of their bit-reversed indices of `k` digits.
pub open spec fn bitrev_seq<T>(s: Seq<T>, k: nat) -> Seq<T> {
    Seq::new(s.len(), |i: int| s[bitrev(i, k)])
}

/// Reordering twice gives back the sequence.
pub proof fn lemma_bitrev_seq_involution<T>(s: Seq<T>, k: nat)
    requires
        s.len() == pow2(k),
    ensures
        bitrev_seq(bitrev_seq(s, k), k) == s,
{
    assert forall|i: int| 0 <= i < s.len() implies bitrev_seq(bitrev_seq(s, k), k)[i] == s[i] by {
        lemma_bitrev_bound(i, k);
        lemma_bitrev_involution(i, k);
    }
    assert(bitrev_seq(bitrev_seq(s, k), k) =~= s);
}

/// The contract of `p3_util::log2_strict_usize`: the logarithm of a power of two. It panics on
/// every other number.
pub assume_specification[ p3_util::log2_strict_usize ](n: usize) -> (r: usize)
    requires
        is_pow2(n as int),
    ensures
        r == log2(n as int),
;

/// The contract of `p3_util::reverse_bits_len`: the lowest `bit_len` digits of a number that has
/// no others, in reverse order.
pub assume_specification[ p3_util::reverse_bits_len ](x: usize, bit_len: usize) -> (r: usize)
    requires
        bit_len <= usize::BITS,
        x < pow2(bit_len as nat),
    ensures
        r == bitrev(x as int, bit_len as nat),
;

/// The contract of `p3_util::reverse_slice_index_bits`: a slice is permuted in place so that each
/// entry moves to its bit-reversed index. It panics unless the length is zero or a power of two.
pub assume_specification<T>[ p3_util::reverse_slice_index_bits::<T> ](vals: &mut [T])
    where
        T: Copy + Send + Sync,
    requires
        old(vals)@.len() == 0 || is_pow2(old(vals)@.len() as int),
    ensures
        final(vals)@ == bitrev_seq(old(vals)@, log2(old(vals)@.len() as int)),
;

/// `2^k`, which fits in a `usize`.
pub fn two_to_the(k: usize) -> (r: usize)
    requires
        pow2(k as nat) <= usize::MAX,
    ensures
        r == pow2(k as nat),
        k < usize::BITS,
{
    proof {
        if k >= usize::BITS {
            lemma_pow2_mono(usize::BITS as nat, k as nat);
            lemma2_to64();
            lemma2_to64_rest();
        }
        vstd::bits::lemma_usize_shl_is_mul(1, k);
    }
    1usize << k
}

} // verus!
