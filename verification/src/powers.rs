//! The computation of powers.

use vstd::prelude::*;
use vstd::arithmetic::power2::*;
use crate::algebra::{lemma_pow_add, lemma_pow_is_element, lemma_pow_mul, lemma_pow_small, pow};
use crate::bits::lemma_pow2_step;
use crate::field::Field;

verus! {

/// The power `2^k` of an element, by repeated squaring.
pub(crate) fn exp_power_of_2<F: Field>(x: F, k: usize) -> (r: F)
    ensures
        r.value() == pow::<F>(x.value(), pow2(k as nat)),
{
    proof {
        lemma2_to64();
        x.lemma_value_is_element();
        lemma_pow_small::<F>(x.value());
    }
    let mut r: F = x;
    let mut i: usize = 0;
    while i < k
        invariant
            0 <= i <= k,
            r.value() == pow::<F>(x.value(), pow2(i as nat)),
        decreases k - i,
    {
        proof {
            lemma_pow2_step(i as nat);
            lemma_pow_add::<F>(x.value(), pow2(i as nat), pow2(i as nat));
        }
        r = r.mul(r);
        i = i + 1;
    }
    r
}

/// The power `e` of an element, by repeated squaring.
pub(crate) fn exp_u64<F: Field>(x: F, e: u64) -> (r: F)
    ensures
        r.value() == pow::<F>(x.value(), e as nat),
{
    let mut rest: u64 = e;
    let mut current: F = x;
    let mut product: F = F::one();
    proof {
        lemma_pow_is_element::<F>(x.value(), e as nat);
        F::lemma_times_ring(pow::<F>(x.value(), e as nat), x.value(), x.value());
    }
    while rest > 0
        invariant
            F::times(product.value(), pow::<F>(current.value(), rest as nat)) == pow::<F>(
                x.value(),
                e as nat,
            ),
        decreases rest,
    {
        let ghost c: F::Value = current.value();
        let ghost p: F::Value = product.value();
        let ghost half: nat = (rest / 2) as nat;
        proof {
            current.lemma_value_is_element();
            lemma_pow_small::<F>(c);
            lemma_pow_mul::<F>(c, 2, half);
            F::lemma_times_ring(p, c, pow::<F>(c, 2 * half));
        }
        if rest % 2 == 1 {
            assert(rest as nat == 2 * half + 1);
            product = product.mul(current);
        } else {
            assert(rest as nat == 2 * half);
        }
        current = current.mul(current);
        rest = rest / 2;
    }
    proof {
        product.lemma_value_is_element();
        F::lemma_times_ring(product.value(), F::one_value(), F::one_value());
    }
    product
}

/// The first `n` of the values `start`, `start * base`, `start * base^2` and so on.
pub(crate) fn collect_powers<F: Field>(base: F, start: F, n: usize) -> (r: Vec<F>)
    ensures
        r@.len() == n,
        forall|i: int|
            0 <= i < n ==> (#[trigger] r@[i]).value() == F::times(
                start.value(),
                pow::<F>(base.value(), i as nat),
            ),
{
    let mut r: Vec<F> = Vec::new();
    let mut current: F = start;
    proof {
        start.lemma_value_is_element();
        F::lemma_times_ring(start.value(), F::one_value(), F::one_value());
    }
    while r.len() < n
        invariant
            0 <= r@.len() <= n,
            current.value() == F::times(start.value(), pow::<F>(base.value(), r@.len())),
            forall|i: int|
                0 <= i < r@.len() ==> (#[trigger] r@[i]).value() == F::times(
                    start.value(),
                    pow::<F>(base.value(), i as nat),
                ),
        decreases n - r@.len(),
    {
        r.push(current);
        proof {
            let b: F::Value = base.value();
            let p: F::Value = pow::<F>(b, (r@.len() - 1) as nat);
            F::lemma_times_ring(start.value(), p, b);
            F::lemma_times_ring(p, b, b);
        }
        current = current.mul(base);
    }
    r
}

} // verus!
