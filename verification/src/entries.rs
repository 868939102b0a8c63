//! What the contracts say of single entries.
//!
//! The functions of this library are specified by columns, layers and polynomials. The laws here
//! trace these back to the entries as they are stored and to the operations of the field.

use vstd::prelude::*;
use vstd::arithmetic::power2::*;
use crate::algebra::{lemma_pow_small, minus, pow, sum};
use crate::bits::{
    bitrev, bitrev_seq, is_pow2, lemma_bitrev_bound, lemma_bitrev_involution, lemma_log2_pow2,
    lemma_pow2_step, log2,
};
use crate::field::{Field, TwoAdicField};
use crate::laws::law_extension_of_polynomial;
use crate::matrix::{
    column, entry, is_shaped, lemma_height, lemma_shape, BitReversedMatrixView,
    RowMajorMatrix,
};
use crate::polynomial::{eval, lemma_eval_concat, lemma_eval_constant, scaled};
use crate::transform::{coset_lde, dft, dft_on_coset, is_coset_dft_of};

verus! {

/// The digit with index `j` of a reversed index of `k` digits is the one with index `k - 1 - j` of
/// the index, and there are no others.
pub proof fn law_reversed_digits(i: int, k: nat, j: nat)
    requires
        0 <= i < pow2(k),
        j < k,
    ensures
        0 <= bitrev(i, k) < pow2(k),
        (bitrev(i, k) / pow2(j) as int) % 2 == (i / pow2((k - 1 - j) as nat) as int) % 2,
    decreases k,
{
    let m: nat = (k - 1) as nat;
    let low: int = bitrev(i / 2, m);
    let top: int = i % 2;
    lemma2_to64();
    lemma_pow2_step(m);
    lemma_bitrev_bound(i, k);
    lemma_bitrev_bound(i / 2, m);
    if j == m {
        lemma_digit_of_sum(low, top, pow2(m) as int);
        assert(pow2((k - 1 - j) as nat) == 1);
        assert(i / 1 == i);
    } else {
        law_reversed_digits(i / 2, m, j);
        let e: nat = (m - 1 - j) as nat;
        lemma_pow2_adds(j + 1, e);
        lemma_pow2_step(j);
        lemma_pow2_step(e);
        let d: int = pow2(j) as int;
        let u: int = top * pow2(e);
        assert(top * pow2(m) == 2 * u * d) by (nonlinear_arith)
            requires
                pow2(m) == 2 * d * pow2(e),
                u == top * pow2(e),
        ;
        vstd::arithmetic::div_mod::lemma_hoist_over_denominator(low, 2 * u, d as nat);
        assert(bitrev(i, k) / d == low / d + 2 * u);
        vstd::arithmetic::div_mod::lemma_div_denominator(i, 2, pow2(e) as int);
        assert((k - 1 - j) as nat == e + 1);
        assert((low / d) % 2 == ((i / 2) / pow2(e) as int) % 2);
    }
}

/// The quotient of a number below `d` plus a multiple of `d`.
proof fn lemma_digit_of_sum(low: int, top: int, d: int)
    requires
        0 <= low < d,
    ensures
        (low + top * d) / d == top,
{
    vstd::arithmetic::div_mod::lemma_fundamental_div_mod_converse(low + top * d, d, top, low);
}

/// Reversing an index twice gives it back, so that no two indices have the same reversed one.
pub proof fn law_reversal_is_one_to_one(i: int, j: int, k: nat)
    requires
        0 <= i < pow2(k),
        0 <= j < pow2(k),
    ensures
        bitrev(bitrev(i, k), k) == i,
        bitrev(i, k) == bitrev(j, k) ==> i == j,
{
    lemma_bitrev_involution(i, k);
    lemma_bitrev_involution(j, k);
}

/// The entry with each index of a reordered sequence is found at the reversed index.
pub proof fn law_reordered_entry<T>(s: Seq<T>, k: nat, i: int)
    requires
        s.len() == pow2(k),
        0 <= i < pow2(k),
    ensures
        bitrev_seq(s, k).len() == pow2(k),
        bitrev_seq(s, k)[i] == s[bitrev(i, k)],
        bitrev_seq(s, k)[bitrev(i, k)] == s[i],
{
    lemma_bitrev_bound(i, k);
    lemma_bitrev_involution(i, k);
}

/// The powers of two are what their name says, and the logarithm is their exponent.
pub proof fn law_powers_of_two(n: int, k: nat)
    ensures
        is_pow2(n) <==> exists|e: nat| n == #[trigger] pow2(e),
        is_pow2(pow2(k) as int),
        log2(pow2(k) as int) == k,
        n == pow2(k) ==> log2(n) == k,
{
    lemma_log2_pow2(k);
    if exists|e: nat| n == #[trigger] pow2(e) {
        let e: nat = choose|e: nat| n == #[trigger] pow2(e);
        lemma_log2_pow2(e);
    }
}

/// Powers begin with one, and each is the one before multiplied by the base.
pub proof fn law_powers<F: Field>(a: F::Value, n: nat)
    ensures
        pow::<F>(a, 0) == F::one_value(),
        pow::<F>(a, n + 1) == F::times(a, pow::<F>(a, n)),
{
}

/// Sums begin with zero, and each is the one before plus a further term.
pub proof fn law_sums<F: Field>(f: spec_fn(int) -> F::Value, n: nat)
    ensures
        sum::<F>(f, 0) == F::zero_value(),
        sum::<F>(f, n + 1) == F::plus(sum::<F>(f, n), f(n as int)),
{
}

/// A difference is what gives back the first value when the second is added.
pub proof fn law_differences<F: Field>(a: F::Value, b: F::Value)
    requires
        F::is_element(a),
    ensures
        minus::<F>(a, b) == F::plus(a, F::negate(b)),
        F::plus(minus::<F>(a, b), b) == a,
{
    F::lemma_plus_group(a, F::negate(b), b);
    F::lemma_plus_group(b, F::negate(b), b);
    F::lemma_plus_group(F::negate(b), b, b);
    F::lemma_plus_group(a, F::zero_value(), b);
}

/// The value of a polynomial is found by Horner's rule: from the last coefficient on, each partial
/// result is multiplied by the point and the next coefficient is added.
pub proof fn law_horner<F: Field>(coeffs: Seq<F::Value>, x: F::Value, h: Seq<F::Value>)
    requires
        F::is_element(x),
        forall|j: int| 0 <= j < coeffs.len() ==> F::is_element(#[trigger] coeffs[j]),
        h.len() == coeffs.len() + 1,
        h[coeffs.len() as int] == F::zero_value(),
        forall|j: int|
            0 <= j < coeffs.len() ==> #[trigger] h[j] == F::plus(
                coeffs[j],
                F::times(x, h[j + 1]),
            ),
    ensures
        eval::<F>(coeffs, x) == h[0],
    decreases coeffs.len(),
{
    if coeffs.len() > 0 {
        let first = seq![coeffs[0]];
        let rest = coeffs.skip(1);
        let tail = h.skip(1);
        assert forall|j: int| 0 <= j < rest.len() implies #[trigger] tail[j] == F::plus(
            rest[j],
            F::times(x, tail[j + 1]),
        ) by {
            assert(h[j + 1] == F::plus(coeffs[j + 1], F::times(x, h[j + 1 + 1])));
        }
        law_horner::<F>(rest, x, tail);
        assert(coeffs =~= first + rest);
        lemma_eval_concat::<F>(first, rest, x);
        lemma_eval_constant::<F>(first, x);
        lemma_pow_small::<F>(x);
        assert(h[0] == F::plus(coeffs[0], F::times(x, h[1])));
    }
}

/// The entries of a column that is multiplied by a factor, or not.
pub proof fn law_scaled_entry<F: Field>(s: Seq<F::Value>, a: F::Value, i: int)
    requires
        0 <= i < s.len(),
    ensures
        scaled::<F>(s, None) == s,
        scaled::<F>(s, Some(a)).len() == s.len(),
        scaled::<F>(s, Some(a))[i] == F::times(s[i], a),
{
}

/// In storage that is made of `h` rows, the entry in row `r` and column `c` is found `r` rows and
/// `c` places from the start.
pub proof fn law_stored_entry<F: Field>(values: Seq<F>, width: int, h: int, r: int, c: int)
    requires
        0 < width,
        values.len() == h * width,
        0 <= r < h,
        0 <= c < width,
    ensures
        is_shaped(values.len() as int, width),
        column(values, width, c).len() == h,
        column(values, width, c)[r] == values[r * width + c].value(),
        entry(values, width, r, c) == values[r * width + c].value(),
{
    lemma_height(h, width);
}

/// Storage is made of whole rows where its length is a number of rows times the width.
pub proof fn law_whole_rows(len: int, width: int)
    requires
        0 <= len,
    ensures
        is_shaped(len, width) <==> 0 < width && exists|h: int| len == #[trigger] (h * width),
{
    if is_shaped(len, width) {
        lemma_shape(len, width);
        let h: int = len / width;
        assert(len == h * width);
    }
    if 0 < width && exists|h: int| len == #[trigger] (h * width) {
        let h: int = choose|h: int| len == #[trigger] (h * width);
        vstd::arithmetic::div_mod::lemma_mod_multiples_basic(h, width);
    }
}

/// A matrix of `h` rows is stored row by row: each column consists of the entries at its place in
/// the rows.
pub proof fn law_matrix_entry<F: Field>(mat: RowMajorMatrix<F>, h: int, r: int, c: int)
    requires
        0 < mat.width,
        mat.values@.len() == h * mat.width,
        0 <= r < h,
        0 <= c < mat.width,
    ensures
        mat.wf(),
        mat.spec_height() == h,
        mat.col(c).len() == h,
        mat.col(c)[r] == mat.values@[r * mat.width + c].value(),
{
    law_stored_entry(mat.values@, mat.width as int, h, r, c);
    lemma_height(h, mat.width as int);
}

/// A well-formed matrix has as many entries as its height times its width.
pub proof fn law_matrix_size<F: Field>(mat: RowMajorMatrix<F>)
    ensures
        mat.wf() <==> 0 < mat.width && exists|h: int|
            mat.values@.len() == #[trigger] (h * mat.width),
        mat.wf() ==> mat.values@.len() == mat.spec_height() * mat.width,
{
    law_whole_rows(mat.values@.len() as int, mat.width as int);
    if mat.wf() {
        lemma_shape(mat.values@.len() as int, mat.width as int);
    }
}

/// A view of `2^k` rows reorders the rows and nothing else: each of its entries is stored in the
/// row with the reversed index, in the same column.
pub proof fn law_view_entry<F: Field>(view: BitReversedMatrixView<F>, k: nat, r: int, c: int)
    requires
        0 < view.inner.width,
        view.inner.values@.len() == pow2(k) * view.inner.width,
        0 <= r < pow2(k),
        0 <= c < view.inner.width,
    ensures
        view.wf(),
        view.spec_height() == pow2(k),
        view.col(c).len() == pow2(k),
        view.col(c)[r] == view.inner.values@[bitrev(r, k) * view.inner.width + c].value(),
{
    lemma_log2_pow2(k);
    lemma_bitrev_bound(r, k);
    law_matrix_entry(view.inner, pow2(k) as int, r, c);
    law_matrix_entry(view.inner, pow2(k) as int, bitrev(r, k), c);
}

/// A well-formed view has a power of two of rows, all of them whole.
pub proof fn law_view_size<F: Field>(view: BitReversedMatrixView<F>)
    ensures
        view.wf() <==> 0 < view.inner.width && exists|k: nat|
            view.inner.values@.len() == #[trigger] pow2(k) * view.inner.width,
        view.wf() ==> view.inner.values@.len() == view.spec_height() * view.inner.width,
{
    let w: int = view.inner.width as int;
    law_matrix_size(view.inner);
    if view.wf() {
        law_powers_of_two(view.spec_height(), 0);
    }
    if 0 < w && exists|k: nat| view.inner.values@.len() == #[trigger] pow2(k) * w {
        let k: nat = choose|k: nat| view.inner.values@.len() == #[trigger] pow2(k) * w;
        lemma_height(pow2(k) as int, w);
        lemma_log2_pow2(k);
    }
}

/// The storage behind a view whose shape is that of a matrix of `2^k` rows.
proof fn lemma_view_shape<F: Field>(view: BitReversedMatrixView<F>, width: int, k: nat)
    requires
        0 < width,
        view.wf(),
        view.inner.width == width,
        view.spec_height() == pow2(k),
    ensures
        view.inner.values@.len() == pow2(k) * width,
{
    lemma_shape(view.inner.values@.len() as int, width);
}

/// What `dft_batch` stores: for a matrix of `2^k` rows, the entry in column `c` of the row whose
/// index is `i` reversed is the value at the `i`-th power of the generator of the polynomial whose
/// coefficients are the entries of column `c` of the argument, from the first row to the last.
pub proof fn law_dft_batch_entry<F: TwoAdicField>(
    mat: RowMajorMatrix<F>,
    result: BitReversedMatrixView<F>,
    k: nat,
    i: int,
    c: int,
)
    requires
        0 < mat.width,
        mat.values@.len() == pow2(k) * mat.width,
        0 <= i < pow2(k),
        0 <= c < mat.width,
        // what `dft_batch` ensures
        result.wf(),
        result.inner.width == mat.width,
        result.spec_height() == mat.spec_height(),
        forall|c: int|
            0 <= c < mat.width ==> #[trigger] result.col(c) == dft::<F>(
                mat.col(c),
                F::generator(log2(mat.spec_height())),
            ),
    ensures
        result.inner.values@.len() == mat.values@.len(),
        result.inner.values@[bitrev(i, k) * mat.width + c].value() == eval::<F>(
            Seq::new(pow2(k), |j: int| mat.values@[j * mat.width + c].value()),
            pow::<F>(F::generator(k), i as nat),
        ),
{
    let w: int = mat.width as int;
    let coeffs = Seq::new(pow2(k), |j: int| mat.values@[j * mat.width + c].value());
    lemma_log2_pow2(k);
    lemma_height(pow2(k) as int, w);
    lemma_view_shape(result, w, k);
    law_view_entry(result, k, i, c);
    assert(mat.col(c) =~= coeffs);
    assert(result.col(c) == dft::<F>(mat.col(c), F::generator(k)));
}

/// What `coset_lde_batch` stores: where the entries of column `c` of a matrix of `2^k` rows are the
/// values of some polynomial at the powers of the generator, the entry in column `c` of the row
/// whose index is `i` reversed is the value of that polynomial at the point with index `i` of the
/// larger coset.
pub proof fn law_coset_lde_batch_entry<F: TwoAdicField>(
    mat: RowMajorMatrix<F>,
    added: nat,
    shift: F,
    result: BitReversedMatrixView<F>,
    k: nat,
    coeffs: Seq<F::Value>,
    i: int,
    c: int,
)
    requires
        0 < mat.width,
        mat.values@.len() == pow2(k) * mat.width,
        k + added <= F::two_adicity(),
        0 <= i < pow2(k + added),
        0 <= c < mat.width,
        coeffs.len() == pow2(k),
        forall|j: int| 0 <= j < pow2(k) ==> F::is_element(#[trigger] coeffs[j]),
        forall|r: int|
            0 <= r < pow2(k) ==> #[trigger] mat.values@[r * mat.width + c].value() == eval::<F>(
                coeffs,
                pow::<F>(F::generator(k), r as nat),
            ),
        // what `coset_lde_batch` ensures
        result.wf(),
        result.inner.width == mat.width,
        result.spec_height() == mat.spec_height() * pow2(added),
        forall|c: int|
            0 <= c < mat.width ==> #[trigger] result.col(c) == coset_lde::<F>(
                mat.col(c),
                log2(mat.spec_height()),
                added,
                shift.value(),
            ),
    ensures
        result.inner.values@.len() == mat.values@.len() * pow2(added),
        result.inner.values@[bitrev(i, k + added) * mat.width + c].value() == eval::<F>(
            coeffs,
            F::times(shift.value(), pow::<F>(F::generator(k + added), i as nat)),
        ),
{
    let w: int = mat.width as int;
    lemma_log2_pow2(k);
    lemma_height(pow2(k) as int, w);
    lemma_pow2_adds(k, added);
    lemma_view_shape(result, w, k + added);
    assert((pow2(k) * pow2(added)) * w == (pow2(k) * w) * pow2(added)) by (nonlinear_arith);
    law_view_entry(result, k + added, i, c);
    let d = dft::<F>(coeffs, F::generator(k));
    assert forall|r: int| 0 <= r < pow2(k) implies mat.col(c)[r] == d[r] by {
        assert(mat.values@[r * mat.width + c].value() == d[r]);
    }
    assert(mat.col(c) =~= d);
    assert(result.col(c) == coset_lde::<F>(mat.col(c), k, added, shift.value()));
    law_extension_of_polynomial::<F>(coeffs, k, added, shift.value());
}

/// There is such a polynomial for every column: the inverse transform finds one with the given
/// values at the powers of the generator.
pub proof fn law_interpolation<F: TwoAdicField>(evals: Seq<F::Value>, k: nat) -> (coeffs: Seq<
    F::Value,
>)
    requires
        k <= F::two_adicity(),
        evals.len() == pow2(k),
        forall|r: int| 0 <= r < pow2(k) ==> F::is_element(#[trigger] evals[r]),
    ensures
        coeffs.len() == pow2(k),
        forall|j: int| 0 <= j < pow2(k) ==> F::is_element(#[trigger] coeffs[j]),
        forall|r: int|
            0 <= r < pow2(k) ==> #[trigger] evals[r] == eval::<F>(
                coeffs,
                pow::<F>(F::generator(k), r as nat),
            ),
{
    let coeffs = crate::transform::idft::<F>(evals, k);
    crate::laws::law_dft_inverts_idft::<F>(evals, k);
    assert forall|j: int| 0 <= j < pow2(k) implies F::is_element(#[trigger] coeffs[j]) by {
        let s = dft::<F>(evals, crate::twiddles::inverse_generator::<F>(k));
        F::lemma_closed(s[j], pow::<F>(F::half(), k));
    }
    let d = dft::<F>(coeffs, F::generator(k));
    assert forall|r: int| 0 <= r < pow2(k) implies #[trigger] evals[r] == eval::<F>(
        coeffs,
        pow::<F>(F::generator(k), r as nat),
    ) by {
        assert(d[r] == evals[r]);
    }
    coeffs
}

/// What `coset_dft` and `coset_dft_oop` store: the entry in column `c` of the row whose index is
/// `i` reversed is the value at `shift` times the `i`-th power of the generator of the polynomial
/// whose coefficient with index `j` is the entry of the row whose index is `j` reversed.
pub proof fn law_coset_dft_entry<F: TwoAdicField>(
    before: Seq<F>,
    after: Seq<F>,
    width: int,
    shift: F::Value,
    k: nat,
    i: int,
    c: int,
)
    requires
        0 < width,
        before.len() == pow2(k) * width,
        0 <= i < pow2(k),
        0 <= c < width,
        is_coset_dft_of::<F>(before, after, width, shift),
    ensures
        after.len() == before.len(),
        after[bitrev(i, k) * width + c].value() == eval::<F>(
            Seq::new(pow2(k), |j: int| before[bitrev(j, k) * width + c].value()),
            F::times(shift, pow::<F>(F::generator(k), i as nat)),
        ),
{
    let coeffs = Seq::new(pow2(k), |j: int| before[bitrev(j, k) * width + c].value());
    let col = column(before, width, c);
    lemma_log2_pow2(k);
    lemma_height(pow2(k) as int, width);
    lemma_bitrev_bound(i, k);
    lemma_bitrev_involution(i, k);
    assert(bitrev_seq(col, k) =~= coeffs) by {
        assert forall|j: int| 0 <= j < pow2(k) implies bitrev_seq(col, k)[j] == coeffs[j] by {
            lemma_bitrev_bound(j, k);
        }
    }
    law_stored_entry(after, width, pow2(k) as int, bitrev(i, k), c);
    assert(column(after, width, c) == bitrev_seq(
        dft_on_coset::<F>(bitrev_seq(col, k), shift, F::generator(k)),
        k,
    ));
}

} // verus!
