//! The evaluation of polynomials that are given by their coefficients.

use vstd::prelude::*;
use vstd::arithmetic::power2::*;
use crate::algebra::{
    lemma_minus_times, lemma_pow_add, lemma_pow_mul, lemma_sum_blocks, lemma_sum_exchange,
    lemma_sum_ext, lemma_sum_plus, lemma_sum_split, lemma_sum_times, minus, pow, sum,
};
use crate::bits::{bitrev, lemma_pow2_step};
use crate::field::Field;

verus! {

/// The value at `x` of the polynomial whose coefficients are given, the constant one first.
pub open spec fn eval<F: Field>(coeffs: Seq<F::Value>, x: F::Value) -> F::Value {
    sum::<F>(|i: int| F::times(coeffs[i], pow::<F>(x, i as nat)), coeffs.len())
}

/// The entries of `s` multiplied by a factor, where there is one.
pub open spec fn scaled<F: Field>(s: Seq<F::Value>, factor: Option<F::Value>) -> Seq<F::Value> {
    match factor {
        Some(a) => Seq::new(s.len(), |i: int| F::times(s[i], a)),
        None => s,
    }
}

/// A constant polynomial.
pub proof fn lemma_eval_constant<F: Field>(coeffs: Seq<F::Value>, x: F::Value)
    requires
        coeffs.len() == 1,
        F::is_element(coeffs[0]),
    ensures
        eval::<F>(coeffs, x) == coeffs[0],
{
    reveal_with_fuel(sum, 2);
    reveal_with_fuel(pow, 1);
    let f = |i: int| F::times(coeffs[i], pow::<F>(x, i as nat));
    assert(f(0) == F::times(coeffs[0], F::one_value()));
    F::lemma_times_ring(coeffs[0], F::one_value(), x);
    F::lemma_plus_group(coeffs[0], x, x);
}

/// The coefficients can be split into the lower and the higher ones.
pub proof fn lemma_eval_concat<F: Field>(lo: Seq<F::Value>, hi: Seq<F::Value>, x: F::Value)
    ensures
        eval::<F>(lo + hi, x) == F::plus(
            eval::<F>(lo, x),
            F::times(pow::<F>(x, lo.len()), eval::<F>(hi, x)),
        ),
{
    let n: nat = lo.len();
    let m: nat = hi.len();
    let all = lo + hi;
    let f = |i: int| F::times(all[i], pow::<F>(x, i as nat));
    lemma_sum_split::<F>(f, n, m);
    lemma_sum_ext::<F>(f, |i: int| F::times(lo[i], pow::<F>(x, i as nat)), n);
    let g = |i: int| F::times(hi[i], pow::<F>(x, i as nat));
    let shifted = |i: int| F::times(pow::<F>(x, n), g(i));
    let rest = |i: int| f(n + i);
    assert forall|i: int| 0 <= i < m implies #[trigger] rest(i) == shifted(i) by {
        lemma_pow_add::<F>(x, n, i as nat);
        let a: F::Value = hi[i];
        let p: F::Value = pow::<F>(x, n);
        let q: F::Value = pow::<F>(x, i as nat);
        F::lemma_times_ring(a, p, q);
        F::lemma_times_ring(p, a, q);
    }
    lemma_sum_ext::<F>(rest, shifted, m);
    lemma_sum_times::<F>(pow::<F>(x, n), g, m);
}

/// Evaluation is linear in the coefficients.
pub proof fn lemma_eval_linear<F: Field>(
    a: Seq<F::Value>,
    b: Seq<F::Value>,
    t: F::Value,
    x: F::Value,
)
    requires
        a.len() == b.len(),
    ensures
        eval::<F>(Seq::new(a.len(), |i: int| F::plus(a[i], F::times(b[i], t))), x) == F::plus(
            eval::<F>(a, x),
            F::times(t, eval::<F>(b, x)),
        ),
{
    let n: nat = a.len();
    let c = Seq::new(n, |i: int| F::plus(a[i], F::times(b[i], t)));
    let f = |i: int| F::times(a[i], pow::<F>(x, i as nat));
    let g = |i: int| F::times(b[i], pow::<F>(x, i as nat));
    let tg = |i: int| F::times(t, g(i));
    let h = |i: int| F::times(c[i], pow::<F>(x, i as nat));
    let fg = |i: int| F::plus(f(i), tg(i));
    assert forall|i: int| 0 <= i < n implies #[trigger] h(i) == fg(i) by {
        let p: F::Value = pow::<F>(x, i as nat);
        let bt: F::Value = F::times(b[i], t);
        F::lemma_times_ring(p, a[i], bt);
        F::lemma_times_ring(c[i], p, p);
        F::lemma_times_ring(a[i], p, p);
        F::lemma_times_ring(bt, p, p);
        F::lemma_times_ring(t, b[i], p);
    }
    lemma_sum_ext::<F>(h, fg, n);
    lemma_sum_plus::<F>(f, tg, n);
    lemma_sum_times::<F>(t, g, n);
}

/// Evaluation is linear in the coefficients, with a difference in place of a sum.
pub proof fn lemma_eval_linear_minus<F: Field>(
    a: Seq<F::Value>,
    b: Seq<F::Value>,
    t: F::Value,
    x: F::Value,
)
    requires
        a.len() == b.len(),
    ensures
        eval::<F>(Seq::new(a.len(), |i: int| minus::<F>(a[i], F::times(b[i], t))), x) == F::plus(
            eval::<F>(a, x),
            F::times(F::negate(t), eval::<F>(b, x)),
        ),
{
    let c = Seq::new(a.len(), |i: int| minus::<F>(a[i], F::times(b[i], t)));
    let d = Seq::new(a.len(), |i: int| F::plus(a[i], F::times(b[i], F::negate(t))));
    assert forall|i: int| 0 <= i < a.len() implies c[i] == d[i] by {
        lemma_minus_times::<F>(a[i], b[i], t);
    }
    assert(c =~= d);
    lemma_eval_linear::<F>(a, b, F::negate(t), x);
}

/// A common factor of the coefficients is a factor of the value.
pub proof fn lemma_eval_scaled<F: Field>(a: Seq<F::Value>, s: F::Value, x: F::Value)
    ensures
        eval::<F>(scaled::<F>(a, Some(s)), x) == F::times(eval::<F>(a, x), s),
{
    let n: nat = a.len();
    let b = scaled::<F>(a, Some(s));
    let f = |i: int| F::times(a[i], pow::<F>(x, i as nat));
    let g = |i: int| F::times(b[i], pow::<F>(x, i as nat));
    let sf = |i: int| F::times(s, f(i));
    assert forall|i: int| 0 <= i < n implies #[trigger] g(i) == sf(i) by {
        F::lemma_times_ring(a[i], s, s);
        F::lemma_times_ring(s, a[i], pow::<F>(x, i as nat));
    }
    lemma_sum_ext::<F>(g, sf, n);
    lemma_sum_times::<F>(s, f, n);
    F::lemma_times_ring(s, eval::<F>(a, x), s);
}

/// A polynomial is the sum of its even part and its odd part.
pub proof fn lemma_eval_even_odd<F: Field>(c: Seq<F::Value>, n: nat, x: F::Value)
    requires
        c.len() == 2 * n,
    ensures
        eval::<F>(c, x) == F::plus(
            eval::<F>(Seq::new(n, |i: int| c[2 * i]), F::times(x, x)),
            F::times(x, eval::<F>(Seq::new(n, |i: int| c[2 * i + 1]), F::times(x, x))),
        ),
{
    let y: F::Value = F::times(x, x);
    let f = |i: int| F::times(c[i], pow::<F>(x, i as nat));
    assert(2 * n == n * 2);
    lemma_sum_blocks::<F>(f, n, 2);
    let pairs = |m: int| sum::<F>(|p: int| f(m * 2 + p), 2);
    let ev = Seq::new(n, |i: int| c[2 * i]);
    let od = Seq::new(n, |i: int| c[2 * i + 1]);
    let e = |i: int| F::times(ev[i], pow::<F>(y, i as nat));
    let o = |i: int| F::times(od[i], pow::<F>(y, i as nat));
    let xo = |i: int| F::times(x, o(i));
    let eo = |i: int| F::plus(e(i), xo(i));
    assert forall|m: int| 0 <= m < n implies #[trigger] pairs(m) == eo(m) by {
        let k: nat = m as nat;
        let p: F::Value = pow::<F>(y, k);
        lemma_even_power::<F>(x, k);
        assert(f(2 * m) == e(m));
        F::lemma_times_ring(c[2 * m + 1], x, p);
        F::lemma_times_ring(x, c[2 * m + 1], p);
        assert(f(2 * m + 1) == xo(m));
        let g = |p: int| f(m * 2 + p);
        reveal_with_fuel(sum, 3);
        assert(g(0) == f(2 * m) && g(1) == f(2 * m + 1));
        F::lemma_closed(ev[m], p);
        F::lemma_plus_group(f(2 * m), f(2 * m + 1), f(2 * m));
    }
    lemma_sum_ext::<F>(pairs, eo, n);
    lemma_sum_plus::<F>(e, xo, n);
    lemma_sum_times::<F>(x, o, n);
}

/// Even and odd powers by way of the square.
proof fn lemma_even_power<F: Field>(x: F::Value, k: nat)
    ensures
        pow::<F>(x, 2 * k) == pow::<F>(F::times(x, x), k),
        pow::<F>(x, 2 * k + 1) == F::times(x, pow::<F>(F::times(x, x), k)),
    decreases k,
{
    if k > 0 {
        lemma_even_power::<F>(x, (k - 1) as nat);
        let p: F::Value = pow::<F>(F::times(x, x), (k - 1) as nat);
        assert((2 * k - 1) as nat == 2 * ((k - 1) as nat) + 1);
        F::lemma_times_ring(x, x, p);
    }
}

/// The value at `x` of the polynomial with `2^l` coefficients that are stored in bit-reversed
/// order in `s`, from `start` on.
pub open spec fn eval_bitrev<F: Field>(
    s: Seq<F::Value>,
    start: int,
    l: nat,
    x: F::Value,
) -> F::Value {
    eval::<F>(Seq::new(pow2(l), |m: int| s[start + bitrev(m, l)]), x)
}

/// A single coefficient.
pub proof fn lemma_eval_bitrev_constant<F: Field>(s: Seq<F::Value>, start: int, x: F::Value)
    requires
        F::is_element(s[start]),
    ensures
        eval_bitrev::<F>(s, start, 0, x) == s[start],
{
    lemma2_to64();
    let c = Seq::new(pow2(0), |m: int| s[start + bitrev(m, 0)]);
    assert(c[0] == s[start]);
    lemma_eval_constant::<F>(c, x);
}

/// The even coefficients are stored before the odd ones.
pub proof fn lemma_eval_bitrev_step<F: Field>(s: Seq<F::Value>, start: int, l: nat, x: F::Value)
    ensures
        eval_bitrev::<F>(s, start, l + 1, x) == F::plus(
            eval_bitrev::<F>(s, start, l, F::times(x, x)),
            F::times(x, eval_bitrev::<F>(s, start + pow2(l), l, F::times(x, x))),
        ),
{
    let n: nat = pow2(l);
    lemma_pow2_step(l);
    let c = Seq::new(pow2(l + 1), |m: int| s[start + bitrev(m, l + 1)]);
    let ev = Seq::new(n, |m: int| s[start + bitrev(m, l)]);
    let od = Seq::new(n, |m: int| s[start + n + bitrev(m, l)]);
    lemma_eval_even_odd::<F>(c, n, x);
    assert forall|i: int| 0 <= i < n implies c[2 * i] == ev[i] && c[2 * i + 1] == od[i] by {
        assert((2 * i) / 2 == i && (2 * i) % 2 == 0);
        assert((2 * i + 1) / 2 == i && (2 * i + 1) % 2 == 1);
        assert(((l + 1) - 1) as nat == l);
        assert(bitrev(2 * i, l + 1) == bitrev(i, l) + 0 * pow2(l));
        assert(bitrev(2 * i + 1, l + 1) == bitrev(i, l) + 1 * pow2(l));
    }
    assert(Seq::new(n, |i: int| c[2 * i]) =~= ev);
    assert(Seq::new(n, |i: int| c[2 * i + 1]) =~= od);
}

/// Groups the terms of a polynomial by their exponents modulo `s`.
pub proof fn lemma_eval_strided<F: Field>(a: Seq<F::Value>, n: nat, s: nat, x: F::Value)
    requires
        a.len() == n * s,
    ensures
        eval::<F>(a, x) == eval::<F>(
            Seq::new(
                s,
                |p: int| eval::<F>(Seq::new(n, |m: int| a[m * s + p]), pow::<F>(x, s)),
            ),
            x,
        ),
{
    let y: F::Value = pow::<F>(x, s);
    let f = |i: int| F::times(a[i], pow::<F>(x, i as nat));
    let parts = Seq::new(s, |p: int| eval::<F>(Seq::new(n, |m: int| a[m * s + p]), y));
    lemma_sum_blocks::<F>(f, n, s);
    let grid = |m: int, p: int| f(m * s + p);
    let by_rows = |m: int| sum::<F>(|p: int| grid(m, p), s);
    let by_cols = |p: int| sum::<F>(|m: int| grid(m, p), n);
    let blocks = |m: int| sum::<F>(|p: int| f(m * s + p), s);
    assert forall|m: int| 0 <= m < n implies #[trigger] blocks(m) == by_rows(m) by {
        lemma_sum_ext::<F>(|p: int| f(m * s + p), |p: int| grid(m, p), s);
    }
    lemma_sum_ext::<F>(blocks, by_rows, n);
    lemma_sum_exchange::<F>(grid, n, s);
    let g = |p: int| F::times(parts[p], pow::<F>(x, p as nat));
    assert forall|p: int| 0 <= p < s implies #[trigger] by_cols(p) == g(p) by {
        let xp: F::Value = pow::<F>(x, p as nat);
        let part = Seq::new(n, |m: int| a[m * s + p]);
        let h = |m: int| F::times(part[m], pow::<F>(y, m as nat));
        let xh = |m: int| F::times(xp, h(m));
        let gp = |m: int| grid(m, p);
        assert forall|m: int| 0 <= m < n implies #[trigger] gp(m) == xh(m) by {
            assert(0 <= m * s && m * s + p < n * s) by (nonlinear_arith)
                requires
                    0 <= m < n,
                    0 <= p < s,
            ;
            lemma_pow_add::<F>(x, (m * s) as nat, p as nat);
            lemma_pow_mul::<F>(x, s, m as nat);
            assert((s * m) as nat == (m * s) as nat) by (nonlinear_arith)
                requires
                    0 <= m,
            ;
            let c: F::Value = a[m * s + p];
            let ym: F::Value = pow::<F>(y, m as nat);
            F::lemma_times_ring(c, ym, xp);
            F::lemma_times_ring(xp, F::times(c, ym), xp);
        }
        lemma_sum_ext::<F>(gp, xh, n);
        lemma_sum_times::<F>(xp, h, n);
        F::lemma_times_ring(xp, parts[p], xp);
    }
    lemma_sum_ext::<F>(by_cols, g, s);
}

} // verus!
