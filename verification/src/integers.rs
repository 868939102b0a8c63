//! The powers of two in a field and their inverses.

use vstd::prelude::*;
use vstd::arithmetic::power2::*;
use crate::algebra::{lemma_pow_times, lemma_times_zero, pow};
use crate::bits::lemma_pow2_step;
use crate::field::{Field, TwoAdicField};

verus! {

/// Sums of ones add.
pub proof fn lemma_natural_plus<F: Field>(m: nat, n: nat)
    ensures
        F::natural(m + n) == F::plus(F::natural(m), F::natural(n)),
    decreases n,
{
    F::lemma_natural(n);
    if n == 0 {
        lemma_natural_is_element::<F>(m);
        F::lemma_plus_group(F::natural(m), F::zero_value(), F::zero_value());
    } else {
        let p: nat = (n - 1) as nat;
        lemma_natural_plus::<F>(m, p);
        F::lemma_natural(p);
        F::lemma_natural(m + p);
        F::lemma_plus_group(F::natural(m), F::natural(p), F::one_value());
        assert((m + p) + 1 == m + n);
        assert(p + 1 == n);
    }
}

/// Sums of ones are field elements.
pub proof fn lemma_natural_is_element<F: Field>(n: nat)
    ensures
        F::is_element(F::natural(n)),
{
    F::lemma_natural(n);
    F::lemma_closed(F::zero_value(), F::zero_value());
    if n > 0 {
        let p: nat = (n - 1) as nat;
        F::lemma_natural(p);
        F::lemma_closed(F::natural(p), F::one_value());
        assert(p + 1 == n);
    }
}

/// A power of two in the field is a power of one plus one.
pub proof fn lemma_natural_pow2<F: Field>(k: nat)
    ensures
        F::natural(pow2(k)) == pow::<F>(F::plus(F::one_value(), F::one_value()), k),
    decreases k,
{
    let one: F::Value = F::one_value();
    let two: F::Value = F::plus(one, one);
    if k == 0 {
        lemma2_to64();
        F::lemma_natural(0);
        F::lemma_closed(one, one);
        F::lemma_plus_group(one, one, one);
        assert(F::natural(0 + 1) == one);
    } else {
        let p: nat = (k - 1) as nat;
        lemma_pow2_step(p);
        lemma_natural_pow2::<F>(p);
        let x: F::Value = F::natural(pow2(p));
        lemma_natural_plus::<F>(pow2(p), pow2(p));
        // x + x = x * 1 + x * 1 = x * (1 + 1)
        lemma_natural_is_element::<F>(pow2(p));
        F::lemma_times_ring(x, one, one);
        F::lemma_times_ring(x, two, two);
    }
}

/// The embedding of the prime subfield keeps sums of ones.
pub proof fn lemma_embed_natural<F: TwoAdicField>(n: nat)
    ensures
        F::embed(<F::PrimeSubfield as Field>::natural(n)) == F::natural(n),
    decreases n,
{
    if n == 0 {
        F::lemma_natural(0);
        <F::PrimeSubfield as Field>::lemma_natural(0);
        F::lemma_embed(
            <F::PrimeSubfield as Field>::zero_value(),
            <F::PrimeSubfield as Field>::zero_value(),
        );
    } else {
        let p: nat = (n - 1) as nat;
        lemma_embed_natural::<F>(p);
        F::lemma_natural(p);
        <F::PrimeSubfield as Field>::lemma_natural(p);
        F::lemma_embed(
            <F::PrimeSubfield as Field>::natural(p),
            <F::PrimeSubfield as Field>::one_value(),
        );
        assert(p + 1 == n);
    }
}

/// The power `k` of one half is the inverse of `2^k`.
pub proof fn lemma_half_power<F: TwoAdicField>(k: nat)
    requires
        k <= F::two_adicity(),
    ensures
        F::times(F::natural(pow2(k)), pow::<F>(F::half(), k)) == F::one_value(),
{
    let two: F::Value = F::plus(F::one_value(), F::one_value());
    lemma_natural_pow2::<F>(k);
    lemma_pow_times::<F>(two, F::half(), k);
    if k == 0 {
        F::lemma_closed(two, two);
        F::lemma_times_ring(F::one_value(), F::one_value(), two);
    } else {
        F::lemma_half();
        crate::algebra::lemma_pow_one::<F>(k);
    }
}

/// The inverse of `2^k`. It is computed in the prime subfield, where inversion is cheaper.
pub(crate) fn inverse_of_power_of_two<F: TwoAdicField>(
    h: usize,
    Ghost(k): Ghost<nat>,
) -> (r: Option<F>)
    requires
        h == pow2(k),
        k <= F::two_adicity(),
    ensures
        r is Some,
        r->0.value() == pow::<F>(F::half(), k),
{
    let h_subfield: F::PrimeSubfield = F::PrimeSubfield::from_int(h);
    let ghost n: F::Value = F::natural(pow2(k));
    let ghost x: F::Value = pow::<F>(F::half(), k);
    proof {
        lemma_half_power::<F>(k);
        lemma_embed_natural::<F>(pow2(k));
    }
    match h_subfield.try_inverse() {
        Some(h_inv) => {
            let scale: F = F::from_prime_subfield(h_inv);
            proof {
                let y: F::Value = scale.value();
                F::lemma_embed(h_subfield.value(), h_inv.value());
                assert(F::times(n, y) == F::one_value());
                // y = y * (n * x) = (y * n) * x = x
                scale.lemma_value_is_element();
                crate::algebra::lemma_pow_is_element::<F>(F::half(), k);
                F::lemma_times_ring(y, n, x);
                F::lemma_times_ring(n, y, y);
                F::lemma_times_ring(x, y, y);
                F::lemma_times_ring(y, F::one_value(), x);
            }
            Some(scale)
        },
        None => {
            proof {
                F::lemma_embed(h_subfield.value(), h_subfield.value());
                assert(n == F::zero_value());
                lemma_times_zero::<F>(x);
                F::lemma_closed(n, n);
                assert(false);
            }
            None
        },
    }
}

} // verus!
