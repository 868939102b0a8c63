//! The points at which a transform evaluates polynomials, and their powers.

use vstd::prelude::*;
use vstd::arithmetic::power2::*;
use crate::algebra::{
    lemma_pow_add, lemma_pow_is_element, lemma_pow_mul, lemma_pow_one, lemma_pow_small,
    lemma_pow_times, lemma_times_negate, pow,
};
use crate::bits::{bitrev, lemma_bitrev_bound, lemma_bitrev_split, lemma_pow2_step};
use crate::field::{Field, TwoAdicField};

verus! {

/// The point with index `j` of the coset `shift * <root>`.
pub open spec fn point<F: Field>(shift: F::Value, root: F::Value, j: int) -> F::Value {
    F::times(shift, pow::<F>(root, j as nat))
}

/// The point with index `j`, raised to the power `2^e`.
pub open spec fn twiddle<F: Field>(shift: F::Value, root: F::Value, e: nat, j: int) -> F::Value {
    pow::<F>(point::<F>(shift, root, j), pow2(e))
}

/// Whether `root` generates a group of order `2^k`, in which minus one is the element of order two.
pub open spec fn is_root<F: Field>(root: F::Value, k: nat) -> bool {
    &&& F::is_element(root)
    &&& pow::<F>(root, pow2(k)) == F::one_value()
    &&& k > 0 ==> pow::<F>(root, pow2((k - 1) as nat)) == F::negate(F::one_value())
}

/// The square of a point's power is the next power.
pub proof fn lemma_twiddle_square<F: Field>(shift: F::Value, root: F::Value, e: nat, j: int)
    ensures
        F::times(twiddle::<F>(shift, root, e, j), twiddle::<F>(shift, root, e, j))
            == twiddle::<F>(shift, root, e + 1, j),
{
    lemma_pow_add::<F>(point::<F>(shift, root, j), pow2(e), pow2(e));
    lemma_pow2_step(e);
}

/// Going `d` points further multiplies a point's power by a power of the root.
pub proof fn lemma_twiddle_shift<F: Field>(
    shift: F::Value,
    root: F::Value,
    e: nat,
    j: int,
    d: int,
)
    requires
        0 <= j,
        0 <= d,
    ensures
        0 <= d * pow2(e),
        twiddle::<F>(shift, root, e, j + d) == F::times(
            twiddle::<F>(shift, root, e, j),
            pow::<F>(root, (d * pow2(e)) as nat),
        ),
{
    let x: F::Value = point::<F>(shift, root, j);
    let y: F::Value = pow::<F>(root, d as nat);
    lemma_pow_add::<F>(root, j as nat, d as nat);
    assert((j + d) as nat == j as nat + d as nat);
    F::lemma_times_ring(shift, pow::<F>(root, j as nat), y);
    assert(point::<F>(shift, root, j + d) == F::times(x, y));
    lemma_pow_times::<F>(x, y, pow2(e));
    lemma_pow_mul::<F>(root, d as nat, pow2(e));
    assert(0 <= d * pow2(e)) by (nonlinear_arith)
        requires
            0 <= d,
            0 <= pow2(e),
    ;
    assert((d as nat) * pow2(e) == (d * pow2(e)) as nat);
}

/// Powers of a root whose exponent is a multiple of the order, plus half of the order or not.
pub proof fn lemma_root_power<F: Field>(root: F::Value, k: nat, m: int, c: int)
    requires
        is_root::<F>(root, k),
        k > 0,
        0 <= m,
        0 <= c <= 1,
    ensures
        0 <= m * pow2(k) + c * pow2((k - 1) as nat),
        pow::<F>(root, (m * pow2(k) + c * pow2((k - 1) as nat)) as nat) == if c == 0 {
            F::one_value()
        } else {
            F::negate(F::one_value())
        },
{
    let h: nat = pow2((k - 1) as nat);
    assert(0 <= m * pow2(k) && 0 <= c * h) by (nonlinear_arith)
        requires
            0 <= m,
            0 <= c,
            0 <= pow2(k),
            0 <= h,
    ;
    let a: nat = (m * pow2(k)) as nat;
    lemma_pow_mul::<F>(root, pow2(k), m as nat);
    assert(pow2(k) * (m as nat) == a) by (nonlinear_arith)
        requires
            a == m * pow2(k),
            0 <= m,
    ;
    lemma_pow_one::<F>(m as nat);
    let b: nat = (c * h) as nat;
    lemma_pow_add::<F>(root, a, b);
    assert((m * pow2(k) + c * h) as nat == a + b);
    if c == 0 {
        assert(b == 0);
    } else {
        assert(b == h);
    }
    lemma_pow_is_element::<F>(root, b);
    F::lemma_times_ring(pow::<F>(root, b), root, root);
}

/// Minus one changes the sign.
pub proof fn lemma_times_minus_one<F: Field>(v: F::Value)
    requires
        F::is_element(v),
    ensures
        F::times(v, F::negate(F::one_value())) == F::negate(v),
{
    lemma_times_negate::<F>(v, F::one_value());
    F::lemma_times_ring(v, F::one_value(), v);
}

/// The powers of the points in the second half of a level are those in the first half with the
/// other sign.
pub proof fn lemma_twiddle_opposite<F: Field>(
    shift: F::Value,
    root: F::Value,
    k: nat,
    l: nat,
    j: int,
)
    requires
        is_root::<F>(root, k),
        l < k,
        0 <= j,
    ensures
        twiddle::<F>(shift, root, (k - 1 - l) as nat, j + pow2(l)) == F::negate(
            twiddle::<F>(shift, root, (k - 1 - l) as nat, j),
        ),
{
    let e: nat = (k - 1 - l) as nat;
    lemma_twiddle_shift::<F>(shift, root, e, j, pow2(l) as int);
    lemma_pow2_adds(l, e);
    lemma_root_power::<F>(root, k, 0, 1);
    assert(pow2(l) * pow2(e) == 0 * pow2(k) + 1 * pow2((k - 1) as nat));
    lemma_pow_is_element::<F>(point::<F>(shift, root, j), pow2(e));
    lemma_times_minus_one::<F>(twiddle::<F>(shift, root, e, j));
}

/// The power `2^m` of a point whose index is `r` with its `k` bits reversed depends on the
/// highest `k - m` bits of `r` only. These are `2 * q + c`, and the lowest of them determines
/// the sign.
pub proof fn lemma_reversed_point<F: Field>(
    shift: F::Value,
    root: F::Value,
    k: nat,
    m: nat,
    q: int,
    c: int,
    p: int,
)
    requires
        is_root::<F>(root, k),
        m < k,
        0 <= q < pow2((k - 1 - m) as nat),
        0 <= c <= 1,
        0 <= p < pow2(m),
    ensures
        twiddle::<F>(shift, root, m, bitrev((2 * q + c) * pow2(m) + p, k)) == if c == 0 {
            twiddle::<F>(shift, root, m, bitrev(q, (k - 1 - m) as nat))
        } else {
            F::negate(twiddle::<F>(shift, root, m, bitrev(q, (k - 1 - m) as nat)))
        },
{
    let l: nat = (k - 1 - m) as nat;
    lemma_pow2_step(l);
    lemma_bitrev_split(2 * q + c, p, l + 1, m);
    assert((l + 1) + m == k);
    let u: int = bitrev(q, l);
    let v: int = bitrev(p, m);
    lemma_bitrev_bound(q, l);
    lemma_bitrev_bound(p, m);
    assert((2 * q + c) / 2 == q && (2 * q + c) % 2 == c);
    assert(((l + 1) - 1) as nat == l);
    assert(bitrev(2 * q + c, l + 1) == u + c * pow2(l));
    let d: int = v * pow2(l + 1) + c * pow2(l);
    assert(0 <= d) by (nonlinear_arith)
        requires
            d == v * pow2(l + 1) + c * pow2(l),
            0 <= v,
            0 <= c,
            0 <= pow2(l + 1),
            0 <= pow2(l),
    ;
    lemma_twiddle_shift::<F>(shift, root, m, u, d);
    lemma_pow2_adds(l + 1, m);
    lemma_pow2_adds(l, m);
    assert(d * pow2(m) == v * pow2(k) + c * pow2((k - 1) as nat)) by (nonlinear_arith)
        requires
            d == v * pow2(l + 1) + c * pow2(l),
            pow2(l + 1) * pow2(m) == pow2(k),
            pow2(l) * pow2(m) == pow2((k - 1) as nat),
    ;
    lemma_root_power::<F>(root, k, v, c);
    let x: F::Value = twiddle::<F>(shift, root, m, u);
    lemma_pow_is_element::<F>(point::<F>(shift, root, u), pow2(m));
    F::lemma_times_ring(x, F::one_value(), x);
    lemma_times_minus_one::<F>(x);
}

/// A power of a field's generator of order `2^b` generates a smaller group.
pub proof fn lemma_generator_power<F: TwoAdicField>(b: nat, e: nat)
    requires
        b + e <= F::two_adicity(),
    ensures
        pow::<F>(F::generator(b + e), pow2(e)) == F::generator(b),
    decreases e,
{
    lemma2_to64();
    F::lemma_generators(b + e);
    if e == 0 {
        lemma_pow_small::<F>(F::generator(b));
    } else {
        let d: nat = (e - 1) as nat;
        lemma_pow2_step(d);
        let g: F::Value = F::generator(b + e);
        F::lemma_generators(b + d);
        lemma_pow_small::<F>(g);
        lemma_pow_mul::<F>(g, 2, pow2(d));
        lemma_generator_power::<F>(b, d);
        assert(b + d + 1 == b + e);
    }
}

/// The generators are roots of unity of the order they promise.
pub proof fn lemma_generator_is_root<F: TwoAdicField>(k: nat)
    requires
        k <= F::two_adicity(),
    ensures
        is_root::<F>(F::generator(k), k),
{
    F::lemma_generators(k);
    lemma_generator_power::<F>(0, k);
    if k > 0 {
        lemma_generator_power::<F>(1, (k - 1) as nat);
    }
}

} // verus!
