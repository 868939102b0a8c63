//! Powers and finite sums in a field, with the identities that the transforms rest on.

use vstd::prelude::*;
use crate::field::Field;

verus! {

/// The difference of two values.
pub open spec fn minus<F: Field>(a: F::Value, b: F::Value) -> F::Value {
    F::plus(a, F::negate(b))
}

/// The `n`-th power of a value.
pub open spec fn pow<F: Field>(a: F::Value, n: nat) -> F::Value
    decreases n,
{
    if n == 0 {
        F::one_value()
    } else {
        F::times(a, pow::<F>(a, (n - 1) as nat))
    }
}

/// The sum of `f(0), ..., f(n - 1)`.
pub open spec fn sum<F: Field>(f: spec_fn(int) -> F::Value, n: nat) -> F::Value
    decreases n,
{
    if n == 0 {
        F::zero_value()
    } else {
        F::plus(sum::<F>(f, (n - 1) as nat), f(n - 1))
    }
}

/// Rearranges a sum of four values.
pub proof fn lemma_plus_swap<F: Field>(a: F::Value, b: F::Value, c: F::Value, d: F::Value)
    ensures
        F::plus(F::plus(a, b), F::plus(c, d)) == F::plus(F::plus(a, c), F::plus(b, d)),
{
    F::lemma_plus_group(a, b, F::plus(c, d));
    F::lemma_plus_group(b, c, d);
    F::lemma_plus_group(c, b, d);
    F::lemma_plus_group(a, c, F::plus(b, d));
}

/// Rearranges a product of four values.
pub proof fn lemma_times_swap<F: Field>(a: F::Value, b: F::Value, c: F::Value, d: F::Value)
    ensures
        F::times(F::times(a, b), F::times(c, d)) == F::times(F::times(a, c), F::times(b, d)),
{
    F::lemma_times_ring(a, b, F::times(c, d));
    F::lemma_times_ring(b, c, d);
    F::lemma_times_ring(c, b, d);
    F::lemma_times_ring(a, c, F::times(b, d));
}

/// An element that leaves a value unchanged in a sum is zero.
pub proof fn lemma_plus_cancel<F: Field>(a: F::Value, b: F::Value)
    requires
        F::is_element(b),
        F::plus(a, b) == a,
    ensures
        b == F::zero_value(),
{
    // (-a + a) + b = -a + (a + b) = -a + a = 0
    F::lemma_plus_group(F::negate(a), a, b);
    F::lemma_plus_group(a, F::negate(a), b);
    F::lemma_plus_group(b, b, b);
}

/// A value that sums to zero with `a` is minus `a`.
pub proof fn lemma_negate_unique<F: Field>(a: F::Value, b: F::Value)
    requires
        F::is_element(b),
        F::plus(a, b) == F::zero_value(),
    ensures
        b == F::negate(a),
{
    // b = 0 + b = (-a + a) + b = -a + (a + b) = -a + 0
    F::lemma_plus_group(b, b, b);
    F::lemma_plus_group(F::negate(a), a, b);
    F::lemma_plus_group(a, F::negate(a), b);
    F::lemma_closed(a, b);
    F::lemma_plus_group(F::negate(a), F::zero_value(), b);
}

/// Zero annihilates.
pub proof fn lemma_times_zero<F: Field>(a: F::Value)
    ensures
        F::times(a, F::zero_value()) == F::zero_value(),
        F::times(F::zero_value(), a) == F::zero_value(),
{
    let z: F::Value = F::zero_value();
    F::lemma_closed(a, z);
    F::lemma_plus_group(z, z, z);
    F::lemma_times_ring(a, z, z);
    lemma_plus_cancel::<F>(F::times(a, z), F::times(a, z));
}

/// A sign moves out of a product.
pub proof fn lemma_times_negate<F: Field>(a: F::Value, b: F::Value)
    ensures
        F::times(F::negate(a), b) == F::negate(F::times(a, b)),
        F::times(a, F::negate(b)) == F::negate(F::times(a, b)),
{
    // a * b + a * -b = a * (b - b) = 0
    F::lemma_plus_group(b, b, b);
    F::lemma_times_ring(a, b, F::negate(b));
    lemma_times_zero::<F>(a);
    F::lemma_closed(a, F::negate(b));
    lemma_negate_unique::<F>(F::times(a, b), F::times(a, F::negate(b)));
    F::lemma_plus_group(a, a, a);
    F::lemma_times_ring(b, a, F::negate(a));
    lemma_times_zero::<F>(b);
    F::lemma_closed(b, F::negate(a));
    lemma_negate_unique::<F>(F::times(b, a), F::times(b, F::negate(a)));
    F::lemma_times_ring(a, b, b);
    F::lemma_times_ring(F::negate(a), b, b);
}

/// A difference of products as a sum.
pub proof fn lemma_minus_times<F: Field>(a: F::Value, b: F::Value, t: F::Value)
    ensures
        minus::<F>(a, F::times(b, t)) == F::plus(a, F::times(b, F::negate(t))),
{
    lemma_times_negate::<F>(b, t);
}

/// A factor of both results of a butterfly can be folded into its inputs.
pub proof fn lemma_scaled_butterfly<F: Field>(x: F::Value, y: F::Value, t: F::Value, s: F::Value)
    ensures
        F::plus(F::times(x, s), F::times(y, F::times(t, s))) == F::times(
            F::plus(x, F::times(y, t)),
            s,
        ),
        minus::<F>(F::times(x, s), F::times(y, F::times(t, s))) == F::times(
            minus::<F>(x, F::times(y, t)),
            s,
        ),
        F::plus(F::times(x, s), F::times(F::times(y, s), t)) == F::times(
            F::plus(x, F::times(y, t)),
            s,
        ),
        minus::<F>(F::times(x, s), F::times(F::times(y, s), t)) == F::times(
            minus::<F>(x, F::times(y, t)),
            s,
        ),
{
    let yt: F::Value = F::times(y, t);
    // (y * s) * t = y * (t * s) = (y * t) * s
    F::lemma_times_ring(y, t, s);
    F::lemma_times_ring(y, s, t);
    F::lemma_times_ring(t, s, s);
    // s * (x + yt) = s * x + s * yt
    F::lemma_times_ring(s, x, yt);
    F::lemma_times_ring(x, s, s);
    F::lemma_times_ring(yt, s, s);
    F::lemma_times_ring(F::plus(x, yt), s, s);
    // s * (x - yt) = s * x - s * yt
    F::lemma_times_ring(s, x, F::negate(yt));
    F::lemma_times_ring(F::plus(x, F::negate(yt)), s, s);
    lemma_times_negate::<F>(s, yt);
}

/// The product of minus one with itself is one.
pub proof fn lemma_minus_one_squared<F: Field>()
    ensures
        F::times(F::negate(F::one_value()), F::negate(F::one_value())) == F::one_value(),
{
    let o: F::Value = F::one_value();
    F::lemma_closed(o, o);
    F::lemma_closed(F::negate(o), o);
    F::lemma_times_ring(F::negate(o), o, o);
    F::lemma_times_ring(o, o, o);
    lemma_times_negate::<F>(o, F::negate(o));
    F::lemma_times_ring(F::negate(o), o, o);
    // -(-1) = 1
    F::lemma_plus_group(o, F::negate(o), o);
    lemma_negate_unique::<F>(F::negate(o), o);
}

/// Every power is a field element.
pub proof fn lemma_pow_is_element<F: Field>(a: F::Value, n: nat)
    ensures
        F::is_element(pow::<F>(a, n)),
{
    F::lemma_closed(a, a);
    if n > 0 {
        F::lemma_closed(a, pow::<F>(a, (n - 1) as nat));
    }
}

/// The first powers.
pub proof fn lemma_pow_small<F: Field>(a: F::Value)
    ensures
        pow::<F>(a, 0) == F::one_value(),
        F::is_element(a) ==> pow::<F>(a, 1) == a,
        F::is_element(a) ==> pow::<F>(a, 2) == F::times(a, a),
{
    reveal_with_fuel(pow, 3);
    F::lemma_times_ring(a, F::one_value(), a);
}

/// Powers of one are one.
pub proof fn lemma_pow_one<F: Field>(n: nat)
    ensures
        pow::<F>(F::one_value(), n) == F::one_value(),
    decreases n,
{
    F::lemma_closed(F::one_value(), F::one_value());
    F::lemma_times_ring(F::one_value(), F::one_value(), F::one_value());
    if n > 0 {
        lemma_pow_one::<F>((n - 1) as nat);
    }
}

/// Exponents add.
pub proof fn lemma_pow_add<F: Field>(a: F::Value, m: nat, n: nat)
    ensures
        pow::<F>(a, m + n) == F::times(pow::<F>(a, m), pow::<F>(a, n)),
    decreases m,
{
    if m == 0 {
        lemma_pow_is_element::<F>(a, n);
        F::lemma_times_ring(pow::<F>(a, n), a, a);
    } else {
        lemma_pow_add::<F>(a, (m - 1) as nat, n);
        assert((m + n - 1) as nat == (m - 1) as nat + n);
        F::lemma_times_ring(a, pow::<F>(a, (m - 1) as nat), pow::<F>(a, n));
    }
}

/// Exponents multiply.
pub proof fn lemma_pow_mul<F: Field>(a: F::Value, m: nat, n: nat)
    ensures
        pow::<F>(pow::<F>(a, m), n) == pow::<F>(a, m * n),
    decreases n,
{
    if n == 0 {
        assert(m * n == 0) by (nonlinear_arith)
            requires
                n == 0,
        ;
    } else {
        lemma_pow_mul::<F>(a, m, (n - 1) as nat);
        lemma_pow_add::<F>(a, m, m * ((n - 1) as nat));
        assert(m * n == m + m * ((n - 1) as nat)) by (nonlinear_arith)
            requires
                n > 0,
        ;
    }
}

/// A power of a product is the product of the powers.
pub proof fn lemma_pow_times<F: Field>(a: F::Value, b: F::Value, n: nat)
    ensures
        pow::<F>(F::times(a, b), n) == F::times(pow::<F>(a, n), pow::<F>(b, n)),
    decreases n,
{
    if n == 0 {
        F::lemma_closed(a, b);
        F::lemma_times_ring(F::one_value(), F::one_value(), a);
    } else {
        lemma_pow_times::<F>(a, b, (n - 1) as nat);
        lemma_times_swap::<F>(a, b, pow::<F>(a, (n - 1) as nat), pow::<F>(b, (n - 1) as nat));
    }
}

/// Every sum is a field element.
pub proof fn lemma_sum_is_element<F: Field>(f: spec_fn(int) -> F::Value, n: nat)
    ensures
        F::is_element(sum::<F>(f, n)),
{
    F::lemma_closed(F::zero_value(), F::zero_value());
    if n > 0 {
        F::lemma_closed(sum::<F>(f, (n - 1) as nat), f(n - 1));
    }
}

/// A sum depends on its terms only.
pub proof fn lemma_sum_ext<F: Field>(
    f: spec_fn(int) -> F::Value,
    g: spec_fn(int) -> F::Value,
    n: nat,
)
    requires
        forall|i: int| 0 <= i < n ==> #[trigger] f(i) == g(i),
    ensures
        sum::<F>(f, n) == sum::<F>(g, n),
    decreases n,
{
    if n > 0 {
        lemma_sum_ext::<F>(f, g, (n - 1) as nat);
    }
}

/// A sum of zeros is zero.
pub proof fn lemma_sum_zero<F: Field>(f: spec_fn(int) -> F::Value, n: nat)
    requires
        forall|i: int| 0 <= i < n ==> #[trigger] f(i) == F::zero_value(),
    ensures
        sum::<F>(f, n) == F::zero_value(),
    decreases n,
{
    if n > 0 {
        lemma_sum_zero::<F>(f, (n - 1) as nat);
        F::lemma_closed(F::zero_value(), F::zero_value());
        F::lemma_plus_group(F::zero_value(), F::zero_value(), F::zero_value());
    }
}

/// A sum with at most one term that is not zero is that term.
pub proof fn lemma_sum_single<F: Field>(f: spec_fn(int) -> F::Value, n: nat, k: int)
    requires
        0 <= k < n,
        F::is_element(f(k)),
        forall|i: int| 0 <= i < n && i != k ==> #[trigger] f(i) == F::zero_value(),
    ensures
        sum::<F>(f, n) == f(k),
    decreases n,
{
    F::lemma_closed(F::zero_value(), F::zero_value());
    F::lemma_plus_group(f(k), F::zero_value(), F::zero_value());
    if k == n - 1 {
        lemma_sum_zero::<F>(f, (n - 1) as nat);
    } else {
        lemma_sum_single::<F>(f, (n - 1) as nat, k);
    }
}

/// Sums add term by term.
pub proof fn lemma_sum_plus<F: Field>(
    f: spec_fn(int) -> F::Value,
    g: spec_fn(int) -> F::Value,
    n: nat,
)
    ensures
        sum::<F>(|i: int| F::plus(f(i), g(i)), n) == F::plus(sum::<F>(f, n), sum::<F>(g, n)),
    decreases n,
{
    if n == 0 {
        F::lemma_closed(F::zero_value(), F::zero_value());
        F::lemma_plus_group(F::zero_value(), F::zero_value(), F::zero_value());
    } else {
        let m: nat = (n - 1) as nat;
        lemma_sum_plus::<F>(f, g, m);
        lemma_plus_swap::<F>(sum::<F>(f, m), sum::<F>(g, m), f(n - 1), g(n - 1));
    }
}

/// A common factor moves out of a sum.
pub proof fn lemma_sum_times<F: Field>(a: F::Value, f: spec_fn(int) -> F::Value, n: nat)
    ensures
        sum::<F>(|i: int| F::times(a, f(i)), n) == F::times(a, sum::<F>(f, n)),
    decreases n,
{
    if n == 0 {
        lemma_times_zero::<F>(a);
    } else {
        let m: nat = (n - 1) as nat;
        lemma_sum_times::<F>(a, f, m);
        F::lemma_times_ring(a, sum::<F>(f, m), f(n - 1));
    }
}

/// A sum splits into its first terms and the rest.
pub proof fn lemma_sum_split<F: Field>(f: spec_fn(int) -> F::Value, m: nat, n: nat)
    ensures
        sum::<F>(f, m + n) == F::plus(sum::<F>(f, m), sum::<F>(|i: int| f(m + i), n)),
    decreases n,
{
    let g = |i: int| f(m + i);
    if n == 0 {
        lemma_sum_is_element::<F>(f, m);
        F::lemma_plus_group(sum::<F>(f, m), F::zero_value(), F::zero_value());
        F::lemma_plus_group(F::zero_value(), sum::<F>(f, m), F::zero_value());
    } else {
        lemma_sum_split::<F>(f, m, (n - 1) as nat);
        assert((m + n - 1) as nat == m + (n - 1) as nat);
        assert(g(n - 1) == f(m + n - 1));
        F::lemma_plus_group(sum::<F>(f, m), sum::<F>(g, (n - 1) as nat), g(n - 1));
    }
}

/// Two nested sums can be exchanged.
pub proof fn lemma_sum_exchange<F: Field>(f: spec_fn(int, int) -> F::Value, m: nat, n: nat)
    ensures
        sum::<F>(|i: int| sum::<F>(|j: int| f(i, j), n), m) == sum::<F>(
            |j: int| sum::<F>(|i: int| f(i, j), m),
            n,
        ),
    decreases m,
{
    let cols = |j: int| sum::<F>(|i: int| f(i, j), m);
    if m == 0 {
        lemma_sum_zero::<F>(cols, n);
    } else {
        let k: nat = (m - 1) as nat;
        lemma_sum_exchange::<F>(f, k, n);
        let front = |j: int| sum::<F>(|i: int| f(i, j), k);
        let last = |j: int| f(m - 1, j);
        lemma_sum_plus::<F>(front, last, n);
        lemma_sum_ext::<F>(cols, |j: int| F::plus(front(j), last(j)), n);
        lemma_sum_ext::<F>(|j: int| f(m - 1, j), last, n);
    }
}

/// A sum can be taken block by block.
pub proof fn lemma_sum_blocks<F: Field>(f: spec_fn(int) -> F::Value, n: nat, s: nat)
    ensures
        sum::<F>(f, n * s) == sum::<F>(|m: int| sum::<F>(|p: int| f(m * s + p), s), n),
    decreases n,
{
    if n == 0 {
        assert(n * s == 0) by (nonlinear_arith)
            requires
                n == 0,
        ;
    } else {
        let k: nat = (n - 1) as nat;
        lemma_sum_blocks::<F>(f, k, s);
        assert(n * s == k * s + s) by (nonlinear_arith)
            requires
                n == k + 1,
        ;
        lemma_sum_split::<F>(f, k * s, s);
        lemma_sum_ext::<F>(|i: int| f(k * s + i), |p: int| f((n - 1) * s + p), s);
    }
}

} // verus!
