//! The laws that the transforms obey.

use vstd::prelude::*;
use vstd::arithmetic::power2::*;
use crate::algebra::{
    lemma_pow_add, lemma_pow_is_element, lemma_pow_mul, lemma_pow_one, lemma_pow_times,
    lemma_sum_exchange, lemma_sum_ext, lemma_sum_single, lemma_sum_split, lemma_sum_times,
    lemma_times_zero, pow, sum,
};
use crate::bits::{
    bitrev, bitrev_seq, lemma_bitrev_bound, lemma_bitrev_split, lemma_pow2_step, log2,
};
use crate::chunks::{block, lemma_block_index, lemma_block_of, lemma_block_within};
use crate::field::{Field, TwoAdicField};
use crate::fused::{fused_layers, lemma_fused_layers};
use crate::integers::lemma_half_power;
use crate::layers::{
    butterflied, butterfly_layer, lemma_first_layer, lemma_layer_ext, lemma_listed_layer_full,
    lemma_rev_layer_full, listed_layer, per_block, per_row, rev_layer, uniform,
};
use crate::matrix::{column, entry, is_shaped};
use crate::network::all_elements;
use crate::points::{
    is_root, lemma_generator_is_root, lemma_generator_power, lemma_root_power, point,
};
use crate::polynomial::{eval, lemma_eval_linear, lemma_eval_scaled};
use crate::transform::{coset_lde, dft, dft_on_coset, idft, is_coset_dft_of};
use crate::twiddles::{inverse_generator, lemma_inverse_generator};

verus! {

/// The sum of the first `2^k` powers.
spec fn geometric<F: Field>(z: F::Value, k: nat) -> F::Value {
    sum::<F>(|j: int| pow::<F>(z, j as nat), pow2(k))
}

/// The first powers of `z`, then the same multiplied by a further power.
proof fn lemma_geometric_step<F: Field>(z: F::Value, k: nat)
    ensures
        geometric::<F>(z, k + 1) == F::times(
            F::plus(F::one_value(), pow::<F>(z, pow2(k))),
            geometric::<F>(z, k),
        ),
{
    let n: nat = pow2(k);
    let f = |j: int| pow::<F>(z, j as nat);
    let zn: F::Value = pow::<F>(z, n);
    let s: F::Value = geometric::<F>(z, k);
    lemma_pow2_step(k);
    lemma_sum_split::<F>(f, n, n);
    let rest = |i: int| f(n + i);
    let shifted = |i: int| F::times(zn, f(i));
    assert forall|i: int| 0 <= i < n implies #[trigger] rest(i) == shifted(i) by {
        lemma_pow_add::<F>(z, n, i as nat);
    }
    lemma_sum_ext::<F>(rest, shifted, n);
    lemma_sum_times::<F>(zn, f, n);
    crate::algebra::lemma_sum_is_element::<F>(f, n);
    F::lemma_times_ring(s, F::one_value(), zn);
    F::lemma_times_ring(F::one_value(), s, s);
    F::lemma_times_ring(zn, s, s);
    F::lemma_times_ring(F::plus(F::one_value(), zn), s, s);
}

/// The sum vanishes where one of the factors does.
proof fn lemma_geometric_zero<F: Field>(z: F::Value, k: nat, i: nat)
    requires
        i < k,
        pow::<F>(z, pow2(i)) == F::negate(F::one_value()),
    ensures
        geometric::<F>(z, k) == F::zero_value(),
    decreases k,
{
    let m: nat = (k - 1) as nat;
    lemma_geometric_step::<F>(z, m);
    assert(m + 1 == k);
    if i == m {
        F::lemma_plus_group(F::one_value(), F::one_value(), F::one_value());
        lemma_times_zero::<F>(geometric::<F>(z, m));
    } else {
        lemma_geometric_zero::<F>(z, m, i);
        lemma_times_zero::<F>(F::plus(F::one_value(), pow::<F>(z, pow2(m))));
    }
}

/// Some power of two leads from a power of the root to minus one.
proof fn lemma_power_to_minus_one<F: Field>(root: F::Value, k: nat, d: nat) -> (i: nat)
    requires
        is_root::<F>(root, k),
        0 < d < pow2(k),
    ensures
        i < k,
        pow::<F>(pow::<F>(root, d), pow2(i)) == F::negate(F::one_value()),
    decreases k,
{
    lemma2_to64();
    assert(k > 0);
    let m: nat = (k - 1) as nat;
    lemma_pow2_step(m);
    if d % 2 == 1 {
        let q: int = d as int / 2;
        lemma_root_power::<F>(root, k, q, 1);
        lemma_pow_mul::<F>(root, d, pow2(m));
        assert(q * pow2(k) + 1 * pow2(m) == d * pow2(m)) by (nonlinear_arith)
            requires
                d == 2 * q + 1,
                pow2(k) == 2 * pow2(m),
        ;
        m
    } else {
        let e: nat = d / 2;
        let square: F::Value = pow::<F>(root, 2);
        lemma_pow_mul::<F>(root, 2, pow2(m));
        lemma_pow_is_element::<F>(root, 2);
        if m > 0 {
            lemma_pow2_step((m - 1) as nat);
            lemma_pow_mul::<F>(root, 2, pow2((m - 1) as nat));
        }
        lemma_pow_mul::<F>(root, 2, e);
        lemma_power_to_minus_one::<F>(square, m, e)
    }
}

/// The sum of `2^k` ones.
proof fn lemma_sum_of_ones<F: Field>(n: nat)
    ensures
        sum::<F>(|j: int| pow::<F>(F::one_value(), j as nat), n) == F::natural(n),
    decreases n,
{
    F::lemma_natural(n);
    if n > 0 {
        let m: nat = (n - 1) as nat;
        lemma_sum_of_ones::<F>(m);
        lemma_pow_one::<F>(m);
        F::lemma_natural(m);
        assert(m + 1 == n);
    }
}

/// The powers of the product of a power of a root and a power of its inverse sum up to zero unless
/// the exponents are equal.
proof fn lemma_orthogonal<F: Field>(r: F::Value, s: F::Value, k: nat, i: nat, m: nat)
    requires
        is_root::<F>(r, k),
        is_root::<F>(s, k),
        F::times(r, s) == F::one_value(),
        i < pow2(k),
        m < pow2(k),
    ensures
        geometric::<F>(F::times(pow::<F>(r, i), pow::<F>(s, m)), k) == if i == m {
            F::natural(pow2(k))
        } else {
            F::zero_value()
        },
{
    let z: F::Value = F::times(pow::<F>(r, i), pow::<F>(s, m));
    if m <= i {
        let d: nat = (i - m) as nat;
        let x: F::Value = pow::<F>(r, d);
        lemma_pow_add::<F>(r, d, m);
        lemma_pow_times::<F>(r, s, m);
        lemma_pow_one::<F>(m);
        F::lemma_times_ring(x, pow::<F>(r, m), pow::<F>(s, m));
        lemma_pow_is_element::<F>(r, d);
        F::lemma_times_ring(x, F::one_value(), x);
        assert(z == x);
        if d == 0 {
            lemma_sum_of_ones::<F>(pow2(k));
        } else {
            let e: nat = lemma_power_to_minus_one::<F>(r, k, d);
            lemma_geometric_zero::<F>(z, k, e);
        }
    } else {
        let d: nat = (m - i) as nat;
        let x: F::Value = pow::<F>(s, d);
        lemma_pow_add::<F>(s, i, d);
        lemma_pow_times::<F>(r, s, i);
        lemma_pow_one::<F>(i);
        F::lemma_times_ring(pow::<F>(r, i), pow::<F>(s, i), x);
        lemma_pow_is_element::<F>(s, d);
        F::lemma_times_ring(x, F::one_value(), x);
        assert(z == x);
        let e: nat = lemma_power_to_minus_one::<F>(s, k, d);
        lemma_geometric_zero::<F>(z, k, e);
    }
}

/// A transform with a root followed by one with its inverse multiplies everything by the number of
/// entries.
proof fn lemma_two_transforms<F: Field>(e: Seq<F::Value>, r: F::Value, s: F::Value, k: nat, i: int)
    requires
        is_root::<F>(r, k),
        is_root::<F>(s, k),
        F::times(r, s) == F::one_value(),
        e.len() == pow2(k),
        0 <= i < pow2(k),
    ensures
        dft::<F>(dft::<F>(e, s), r)[i] == F::times(e[i], F::natural(pow2(k))),
{
    let n: nat = pow2(k);
    let d = dft::<F>(e, s);
    let x: F::Value = pow::<F>(r, i as nat);
    let f = |j: int, m: int|
        F::times(pow::<F>(x, j as nat), F::times(e[m], pow::<F>(pow::<F>(s, j as nat), m as nat)));
    let outer = |j: int| F::times(d[j], pow::<F>(x, j as nat));
    let rows = |j: int| sum::<F>(|m: int| f(j, m), n);
    assert forall|j: int| 0 <= j < n implies #[trigger] outer(j) == rows(j) by {
        let p: F::Value = pow::<F>(x, j as nat);
        let inner = |m: int| F::times(e[m], pow::<F>(pow::<F>(s, j as nat), m as nat));
        lemma_sum_times::<F>(p, inner, n);
        lemma_sum_ext::<F>(|m: int| F::times(p, inner(m)), |m: int| f(j, m), n);
        F::lemma_times_ring(d[j], p, p);
    }
    lemma_sum_ext::<F>(outer, rows, n);
    lemma_sum_exchange::<F>(f, n, n);
    let cols = |m: int| sum::<F>(|j: int| f(j, m), n);
    assert forall|m: int| 0 <= m < n implies #[trigger] cols(m) == (if m == i {
        F::times(e[i], F::natural(n))
    } else {
        F::zero_value()
    }) by {
        let y: F::Value = pow::<F>(s, m as nat);
        let z: F::Value = F::times(x, y);
        let g = |j: int| pow::<F>(z, j as nat);
        let fm = |j: int| f(j, m);
        let eg = |j: int| F::times(e[m], g(j));
        assert forall|j: int| 0 <= j < n implies #[trigger] fm(j) == eg(j) by {
            let p: F::Value = pow::<F>(x, j as nat);
            let q: F::Value = pow::<F>(y, j as nat);
            lemma_pow_mul::<F>(s, j as nat, m as nat);
            lemma_pow_mul::<F>(s, m as nat, j as nat);
            assert((j as nat) * (m as nat) == (m as nat) * (j as nat)) by (nonlinear_arith);
            lemma_pow_times::<F>(x, y, j as nat);
            // p * (e * q) = e * (p * q)
            F::lemma_times_ring(p, e[m], q);
            F::lemma_times_ring(e[m], p, q);
        }
        lemma_sum_ext::<F>(fm, eg, n);
        lemma_sum_times::<F>(e[m], g, n);
        lemma_orthogonal::<F>(r, s, k, i as nat, m as nat);
        lemma_times_zero::<F>(e[m]);
    }
    F::lemma_closed(e[i], F::natural(n));
    lemma_sum_single::<F>(cols, n, i);
}

/// Multiplication by `2^k` and then by its inverse changes nothing.
proof fn lemma_divided_back<F: TwoAdicField>(v: F::Value, k: nat)
    requires
        k <= F::two_adicity(),
        F::is_element(v),
    ensures
        F::times(F::times(v, F::natural(pow2(k))), pow::<F>(F::half(), k)) == v,
{
    lemma_half_power::<F>(k);
    F::lemma_times_ring(v, F::natural(pow2(k)), pow::<F>(F::half(), k));
    F::lemma_times_ring(v, F::one_value(), v);
}

/// The inverse transform undoes the transform.
pub proof fn law_idft_inverts_dft<F: TwoAdicField>(coeffs: Seq<F::Value>, k: nat)
    requires
        k <= F::two_adicity(),
        coeffs.len() == pow2(k),
        all_elements::<F>(coeffs),
    ensures
        idft::<F>(dft::<F>(coeffs, F::generator(k)), k) == coeffs,
{
    let g: F::Value = F::generator(k);
    let s: F::Value = inverse_generator::<F>(k);
    lemma_generator_is_root::<F>(k);
    lemma_inverse_generator::<F>(k);
    F::lemma_times_ring(g, s, s);
    let l = idft::<F>(dft::<F>(coeffs, g), k);
    assert forall|i: int| 0 <= i < coeffs.len() implies l[i] == coeffs[i] by {
        lemma_two_transforms::<F>(coeffs, s, g, k, i);
        lemma_divided_back::<F>(coeffs[i], k);
    }
    assert(l =~= coeffs);
}

/// The transform undoes the inverse transform: the inverse transform finds the polynomial with
/// given values at the powers of the generator.
pub proof fn law_dft_inverts_idft<F: TwoAdicField>(evals: Seq<F::Value>, k: nat)
    requires
        k <= F::two_adicity(),
        evals.len() == pow2(k),
        all_elements::<F>(evals),
    ensures
        dft::<F>(idft::<F>(evals, k), F::generator(k)) == evals,
{
    let g: F::Value = F::generator(k);
    let s: F::Value = inverse_generator::<F>(k);
    lemma_generator_is_root::<F>(k);
    lemma_inverse_generator::<F>(k);
    let l = dft::<F>(idft::<F>(evals, k), g);
    assert forall|i: int| 0 <= i < evals.len() implies l[i] == evals[i] by {
        let x: F::Value = pow::<F>(g, i as nat);
        lemma_eval_scaled::<F>(dft::<F>(evals, s), pow::<F>(F::half(), k), x);
        lemma_two_transforms::<F>(evals, g, s, k, i);
        lemma_divided_back::<F>(evals[i], k);
    }
    assert(l =~= evals);
}

/// The extension of the values of a polynomial with at most `2^k` coefficients consists of the
/// values of the same polynomial.
pub proof fn law_extension_of_polynomial<F: TwoAdicField>(
    coeffs: Seq<F::Value>,
    k: nat,
    added: nat,
    shift: F::Value,
)
    requires
        k + added <= F::two_adicity(),
        coeffs.len() == pow2(k),
        all_elements::<F>(coeffs),
    ensures
        coset_lde::<F>(dft::<F>(coeffs, F::generator(k)), k, added, shift) == Seq::new(
            pow2(k + added),
            |i: int| eval::<F>(coeffs, point::<F>(shift, F::generator(k + added), i)),
        ),
{
    law_idft_inverts_dft::<F>(coeffs, k);
}

/// Without a shift, the extension contains the given values: every `2^added`-th of its entries is
/// one of them.
pub proof fn law_extension_interpolates<F: TwoAdicField>(
    evals: Seq<F::Value>,
    k: nat,
    added: nat,
    i: int,
)
    requires
        k + added <= F::two_adicity(),
        evals.len() == pow2(k),
        all_elements::<F>(evals),
        0 <= i < pow2(k),
    ensures
        0 <= i * pow2(added) < pow2(k + added),
        coset_lde::<F>(evals, k, added, F::one_value())[i * pow2(added)] == evals[i],
{
    let big: F::Value = F::generator(k + added);
    let e: int = i * pow2(added);
    lemma_pow2_adds(k, added);
    lemma_pow2_pos(added);
    assert(0 <= e < pow2(k + added)) by (nonlinear_arith)
        requires
            e == i * pow2(added),
            0 <= i < pow2(k),
            0 < pow2(added),
            pow2(k + added) == pow2(k) * pow2(added),
    ;
    lemma_generator_power::<F>(k, added);
    lemma_pow_mul::<F>(big, pow2(added), i as nat);
    assert(pow2(added) * (i as nat) == e as nat) by (nonlinear_arith)
        requires
            e == i * pow2(added),
            0 <= i,
            0 <= e,
    ;
    lemma_pow_is_element::<F>(big, e as nat);
    F::lemma_times_ring(pow::<F>(big, e as nat), big, big);
    law_dft_inverts_idft::<F>(evals, k);
    assert(dft::<F>(idft::<F>(evals, k), F::generator(k))[i] == evals[i]);
}

/// An extension to as many points as there were, without a shift, changes nothing.
pub proof fn law_trivial_extension<F: TwoAdicField>(evals: Seq<F::Value>, k: nat)
    requires
        k <= F::two_adicity(),
        evals.len() == pow2(k),
        all_elements::<F>(evals),
    ensures
        coset_lde::<F>(evals, k, 0, F::one_value()) == evals,
{
    lemma2_to64();
    let l = coset_lde::<F>(evals, k, 0, F::one_value());
    assert forall|i: int| 0 <= i < evals.len() implies l[i] == evals[i] by {
        law_extension_interpolates::<F>(evals, k, 0, i);
        assert(i * pow2(0) == i) by (nonlinear_arith)
            requires
                pow2(0) == 1,
        ;
    }
    assert(l =~= evals);
}

/// Multiplying each coefficient by a power of `s` evaluates at `s` times the point.
proof fn lemma_eval_shifted<F: Field>(coeffs: Seq<F::Value>, s: F::Value, x: F::Value)
    ensures
        eval::<F>(
            Seq::new(coeffs.len(), |j: int| F::times(coeffs[j], pow::<F>(s, j as nat))),
            x,
        ) == eval::<F>(coeffs, F::times(s, x)),
{
    let n: nat = coeffs.len();
    let shifted = Seq::new(n, |j: int| F::times(coeffs[j], pow::<F>(s, j as nat)));
    let f = |j: int| F::times(shifted[j], pow::<F>(x, j as nat));
    let g = |j: int| F::times(coeffs[j], pow::<F>(F::times(s, x), j as nat));
    assert forall|j: int| 0 <= j < n implies #[trigger] f(j) == g(j) by {
        lemma_pow_times::<F>(s, x, j as nat);
        F::lemma_times_ring(coeffs[j], pow::<F>(s, j as nat), pow::<F>(x, j as nat));
    }
    lemma_sum_ext::<F>(f, g, n);
}

/// Going to the coset of one shift and then to that of another is going to the coset of their
/// product. So a shift is undone by its inverse.
pub proof fn law_extensions_compose<F: TwoAdicField>(
    evals: Seq<F::Value>,
    k: nat,
    added: nat,
    s: F::Value,
    t: F::Value,
)
    requires
        k + added <= F::two_adicity(),
        evals.len() == pow2(k),
    ensures
        coset_lde::<F>(coset_lde::<F>(evals, k, 0, s), k, added, t) == coset_lde::<F>(
            evals,
            k,
            added,
            F::times(s, t),
        ),
{
    let g: F::Value = F::generator(k);
    let big: F::Value = F::generator(k + added);
    let coeffs = idft::<F>(evals, k);
    let shifted = Seq::new(coeffs.len(), |j: int| F::times(coeffs[j], pow::<F>(s, j as nat)));
    assert(all_elements::<F>(shifted)) by {
        assert forall|j: int| 0 <= j < shifted.len() implies F::is_element(
            #[trigger] shifted[j],
        ) by {
            F::lemma_closed(coeffs[j], pow::<F>(s, j as nat));
        }
    }
    let once = coset_lde::<F>(evals, k, 0, s);
    assert(k + 0 == k);
    assert(once =~= dft::<F>(shifted, g)) by {
        assert forall|i: int| 0 <= i < pow2(k) implies once[i] == dft::<F>(shifted, g)[i] by {
            lemma_eval_shifted::<F>(coeffs, s, pow::<F>(g, i as nat));
        }
    }
    law_extension_of_polynomial::<F>(shifted, k, added, t);
    let l = coset_lde::<F>(once, k, added, t);
    let r = coset_lde::<F>(evals, k, added, F::times(s, t));
    assert forall|i: int| 0 <= i < pow2(k + added) implies l[i] == r[i] by {
        lemma_eval_shifted::<F>(coeffs, s, point::<F>(t, big, i));
        F::lemma_times_ring(s, t, pow::<F>(big, i as nat));
    }
    assert(l =~= r);
}

/// The first sequence plus the second multiplied by a factor, entry by entry.
pub open spec fn combined<F: Field>(
    a: Seq<F::Value>,
    b: Seq<F::Value>,
    t: F::Value,
) -> Seq<F::Value> {
    Seq::new(a.len(), |i: int| F::plus(a[i], F::times(b[i], t)))
}

/// The transform is linear.
pub proof fn law_dft_linear<F: Field>(
    a: Seq<F::Value>,
    b: Seq<F::Value>,
    t: F::Value,
    root: F::Value,
)
    requires
        a.len() == b.len(),
    ensures
        dft::<F>(combined::<F>(a, b, t), root) == combined::<F>(
            dft::<F>(a, root),
            dft::<F>(b, root),
            t,
        ),
{
    let l = dft::<F>(combined::<F>(a, b, t), root);
    let r = combined::<F>(dft::<F>(a, root), dft::<F>(b, root), t);
    assert forall|i: int| 0 <= i < a.len() implies l[i] == r[i] by {
        let x: F::Value = pow::<F>(root, i as nat);
        lemma_eval_linear::<F>(a, b, t, x);
        F::lemma_times_ring(t, eval::<F>(b, x), t);
    }
    assert(l =~= r);
}

/// The extension is linear.
pub proof fn law_extension_linear<F: TwoAdicField>(
    a: Seq<F::Value>,
    b: Seq<F::Value>,
    t: F::Value,
    k: nat,
    added: nat,
    shift: F::Value,
)
    requires
        a.len() == b.len(),
    ensures
        coset_lde::<F>(combined::<F>(a, b, t), k, added, shift) == combined::<F>(
            coset_lde::<F>(a, k, added, shift),
            coset_lde::<F>(b, k, added, shift),
            t,
        ),
{
    let s: F::Value = inverse_generator::<F>(k);
    let h: F::Value = pow::<F>(F::half(), k);
    let ca = idft::<F>(a, k);
    let cb = idft::<F>(b, k);
    let c = idft::<F>(combined::<F>(a, b, t), k);
    law_dft_linear::<F>(a, b, t, s);
    assert(c =~= combined::<F>(ca, cb, t)) by {
        assert forall|i: int| 0 <= i < a.len() implies c[i] == combined::<F>(ca, cb, t)[i] by {
            crate::algebra::lemma_scaled_butterfly::<F>(
                dft::<F>(a, s)[i],
                dft::<F>(b, s)[i],
                t,
                h,
            );
        }
    }
    let l = coset_lde::<F>(combined::<F>(a, b, t), k, added, shift);
    let r = combined::<F>(
        coset_lde::<F>(a, k, added, shift),
        coset_lde::<F>(b, k, added, shift),
        t,
    );
    assert forall|i: int| 0 <= i < pow2(k + added) implies l[i] == r[i] by {
        let x: F::Value = point::<F>(shift, F::generator(k + added), i);
        lemma_eval_linear::<F>(ca, cb, t, x);
        F::lemma_times_ring(t, eval::<F>(cb, x), t);
    }
    assert(l =~= r);
}

/// In the first layer all butterflies have the same twiddle factor, the first of the list. Where it
/// is one, no multiplications are needed.
pub proof fn law_first_layer_uniform<F: Field>(s: Seq<F::Value>, twiddles: Seq<F>)
    requires
        s.len() % 2 == 0,
        twiddles.len() > 0,
    ensures
        listed_layer::<F>(s, 1, twiddles, 1) == butterfly_layer::<F>(
            s,
            1,
            uniform::<F>(twiddles[0].value()),
        ),
{
    lemma_listed_layer_full::<F>(s, 1, twiddles, 1);
    lemma_first_layer::<F>(s, twiddles, 1);
}

/// The fused pass does what the last two layers do one after the other, each with a twiddle factor
/// for each of its blocks.
pub proof fn law_fused_layers<F: Field>(
    s: Seq<F::Value>,
    twiddles1: Seq<F>,
    twiddles0: Seq<F>,
    factor: Option<F::Value>,
)
    requires
        s.len() as int % 4 == 0,
        s.len() as int / 4 <= twiddles1.len(),
        s.len() as int / 2 <= twiddles0.len(),
    ensures
        fused_layers::<F>(s, twiddles1, twiddles0, factor) == rev_layer::<F>(
            rev_layer::<F>(s, 2, twiddles1, None),
            1,
            twiddles0,
            factor,
        ),
{
    lemma_fused_layers::<F>(s, twiddles1, twiddles0, factor);
    lemma_rev_layer_full::<F>(s, 2, twiddles1, None);
    lemma_rev_layer_full::<F>(
        butterfly_layer::<F>(s, 2, per_block(twiddles1)),
        1,
        twiddles0,
        factor,
    );
}

/// The bit-reversed index of a row, by its parts.
proof fn lemma_reversed_row(k: nat, l: nat, q: int, c: int, p: int)
    requires
        l < k,
        0 <= q < pow2(l),
        0 <= c <= 1,
        0 <= p < pow2((k - 1 - l) as nat),
    ensures
        bitrev((2 * q + c) * pow2((k - 1 - l) as nat) + p, k) == bitrev(p, (k - 1 - l) as nat) * (2
            * pow2(l)) + c * pow2(l) + bitrev(q, l),
{
    let m: nat = (k - 1 - l) as nat;
    lemma_pow2_step(l);
    lemma_bitrev_split(2 * q + c, p, l + 1, m);
    assert((l + 1) + m == k);
    assert((2 * q + c) / 2 == q && (2 * q + c) % 2 == c);
    assert(((l + 1) - 1) as nat == l);
    assert(bitrev(2 * q + c, l + 1) == bitrev(q, l) + c * pow2(l));
}

/// A layer on rows in bit-reversed order, with one twiddle factor for each block, is the layer with
/// one twiddle factor for each row of a block.
proof fn lemma_reversed_layer<F: Field>(
    s: Seq<F::Value>,
    k: nat,
    l: nat,
    f: spec_fn(int) -> F::Value,
)
    requires
        l < k,
        s.len() == pow2(k),
    ensures
        butterfly_layer::<F>(
            bitrev_seq(s, k),
            pow2((k - 1 - l) as nat) as int,
            |q: int, p: int| f(bitrev(q, l)),
        ) == bitrev_seq(butterfly_layer::<F>(s, pow2(l) as int, |b: int, j: int| f(j)), k),
{
    let m: nat = (k - 1 - l) as nat;
    let h: int = pow2(m) as int;
    let g: int = pow2(l) as int;
    let t = |b: int, j: int| f(j);
    let u = |q: int, p: int| f(bitrev(q, l));
    let rev = bitrev_seq(s, k);
    let done = butterfly_layer::<F>(s, g, t);
    let left = butterfly_layer::<F>(rev, h, u);
    let right = bitrev_seq(done, k);
    let n: int = pow2(k) as int;
    lemma_pow2_step(l);
    lemma_pow2_step(m);
    lemma_pow2_adds(l, m + 1);
    lemma_pow2_adds(m, l + 1);
    assert(l + (m + 1) == k && m + (l + 1) == k);
    assert(n == g * (2 * h) && n == h * (2 * g));
    vstd::arithmetic::div_mod::lemma_mod_multiples_basic(g, 2 * h);
    vstd::arithmetic::div_mod::lemma_div_by_multiple(g, 2 * h);
    vstd::arithmetic::div_mod::lemma_mod_multiples_basic(h, 2 * g);
    vstd::arithmetic::div_mod::lemma_div_by_multiple(h, 2 * g);
    assert forall|r: int| 0 <= r < n implies left[r] == right[r] by {
        let q: int = r / (2 * h);
        let o: int = r % (2 * h);
        lemma_block_index(n, 2 * h, r);
        lemma_block_within(n, 2 * h, q);
        let c: int = if o < h {
            0
        } else {
            1
        };
        let ch: int = if o < h {
            0
        } else {
            h
        };
        let p: int = o - ch;
        assert(r == (2 * q + c) * h + p && q * (2 * h) + p == (2 * q + 0) * h + p && q * (2 * h) + h
            + p == (2 * q + 1) * h + p) by (nonlinear_arith)
            requires
                r == q * (2 * h) + o,
                o == ch + p,
                (c == 0 && ch == 0) || (c == 1 && ch == h),
        ;
        let b: int = bitrev(p, m);
        let j: int = bitrev(q, l);
        lemma_bitrev_bound(p, m);
        lemma_bitrev_bound(q, l);
        lemma_reversed_row(k, l, q, 0, p);
        lemma_reversed_row(k, l, q, 1, p);
        let lo: int = b * (2 * g) + j;
        let hi: int = b * (2 * g) + g + j;
        assert(bitrev(q * (2 * h) + p, k) == lo && bitrev(q * (2 * h) + h + p, k) == hi);
        lemma_block_within(n, 2 * g, b);
        // the pair of rows in bit-reversed order
        let rblk = block(rev, 2 * h, q);
        assert(rblk[p] == s[lo] && rblk[h + p] == s[hi]);
        assert(left[r] == butterflied::<F>(rblk, h, q, u)[o]);
        // the same pair in the natural order
        let blk = block(s, 2 * g, b);
        assert(blk[j] == s[lo] && blk[g + j] == s[hi]);
        if c == 0 {
            lemma_block_of(lo, 2 * g, b, j);
            assert(done[lo] == butterflied::<F>(blk, g, b, t)[j]);
        } else {
            lemma_block_of(hi, 2 * g, b, g + j);
            assert(done[hi] == butterflied::<F>(blk, g, b, t)[g + j]);
        }
        lemma_bitrev_bound(r, k);
    }
    assert(left =~= right);
}

/// A layer on rows in bit-reversed order, with its twiddle factors in bit-reversed order as well,
/// is the layer of the same network in the natural order.
pub proof fn law_reversed_layer<F: Field>(s: Seq<F::Value>, k: nat, l: nat, twiddles: Seq<F>)
    requires
        l < k,
        s.len() == pow2(k),
        twiddles.len() == pow2(l),
    ensures
        rev_layer::<F>(
            bitrev_seq(s, k),
            pow2((k - 1 - l) as nat) as int,
            bitrev_seq(twiddles, l),
            None,
        ) == bitrev_seq(listed_layer::<F>(s, pow2(l) as int, twiddles, 1), k),
{
    let m: nat = (k - 1 - l) as nat;
    let h: int = pow2(m) as int;
    let g: int = pow2(l) as int;
    let rev = bitrev_seq(s, k);
    let tw_rev = bitrev_seq(twiddles, l);
    let f = |j: int| twiddles[j].value();
    let t = |b: int, j: int| f(j);
    let u = |q: int, p: int| f(bitrev(q, l));
    lemma_pow2_step(l);
    lemma_pow2_step(m);
    lemma_pow2_adds(l, m + 1);
    lemma_pow2_adds(m, l + 1);
    assert(l + (m + 1) == k && m + (l + 1) == k);
    vstd::arithmetic::div_mod::lemma_mod_multiples_basic(g, 2 * h);
    vstd::arithmetic::div_mod::lemma_div_by_multiple(g, 2 * h);
    vstd::arithmetic::div_mod::lemma_mod_multiples_basic(h, 2 * g);
    lemma_rev_layer_full::<F>(rev, h, tw_rev, None);
    lemma_layer_ext::<F>(rev, h, per_block(tw_rev), u);
    lemma_listed_layer_full::<F>(s, g, twiddles, 1);
    assert forall|b: int, j: int| 0 <= j < g implies #[trigger] per_row(twiddles, 1)(b, j) == t(
        b,
        j,
    ) by {
        assert(j * 1 == j);
    }
    lemma_layer_ext::<F>(s, g, per_row(twiddles, 1), t);
    lemma_reversed_layer::<F>(s, k, l, f);
}

/// The columns of a matrix determine its entries. So where two functions make the same columns of a
/// matrix, in place or out of place, they make the same matrix of it.
pub proof fn law_columns_determine_entries<F: Field>(a: Seq<F>, b: Seq<F>, width: int)
    requires
        is_shaped(a.len() as int, width),
        b.len() == a.len(),
        forall|c: int| 0 <= c < width ==> #[trigger] column(a, width, c) == column(b, width, c),
    ensures
        forall|i: int| 0 <= i < a.len() ==> (#[trigger] a[i]).value() == b[i].value(),
{
    assert forall|i: int| 0 <= i < a.len() implies (#[trigger] a[i]).value() == b[i].value() by {
        let r: int = i / width;
        let c: int = i % width;
        lemma_block_index(a.len() as int, width, i);
        assert(column(a, width, c) == column(b, width, c));
        assert(column(a, width, c)[r] == entry(a, width, r, c));
        assert(column(b, width, c)[r] == entry(b, width, r, c));
    }
}

/// Evaluating on a coset out of place gives what it gives in place: two matrices that hold the
/// values on the same coset of the same polynomials have the same entries. So
/// [`coset_dft_oop`](crate::radix_2_dit_parallel::coset_dft_oop) stores in its second matrix,
/// whatever that held before, what [`coset_dft`](crate::radix_2_dit_parallel::coset_dft) makes of a
/// copy of the first.
pub proof fn law_out_of_place<F: TwoAdicField>(
    src: Seq<F>,
    in_place: Seq<F>,
    out_of_place: Seq<F>,
    width: int,
    shift: F::Value,
)
    requires
        is_shaped(src.len() as int, width),
        is_coset_dft_of::<F>(src, in_place, width, shift),
        is_coset_dft_of::<F>(src, out_of_place, width, shift),
    ensures
        out_of_place.len() == in_place.len(),
        forall|i: int|
            0 <= i < in_place.len() ==> (#[trigger] out_of_place[i]).value()
                == in_place[i].value(),
{
    assert forall|c: int| 0 <= c < width implies #[trigger] column(out_of_place, width, c)
        == column(in_place, width, c) by {
        let k: nat = log2(src.len() as int / width);
        assert(column(in_place, width, c) == bitrev_seq(
            dft_on_coset::<F>(bitrev_seq(column(src, width, c), k), shift, F::generator(k)),
            k,
        ));
    }
    law_columns_determine_entries::<F>(out_of_place, in_place, width);
}

} // verus!
