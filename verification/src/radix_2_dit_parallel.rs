//! The transform.

use std::sync::Arc;
use vstd::prelude::*;
use vstd::arithmetic::power2::*;
use crate::algebra::{lemma_pow_add, lemma_pow_is_element, lemma_pow_mul, pow};
use crate::bits::{
    bitrev, bitrev_seq, is_pow2, lemma_bitrev_bound, lemma_bitrev_involution,
    lemma_bitrev_seq_involution, lemma_bitrev_split, lemma_bitrev_zero, lemma_log2_fits,
    lemma_log2_pow2, lemma_pow2_step, log2, two_to_the,
};
use crate::chunks::{block, blockwise, lemma_block_index, lemma_block_within};
use crate::composition::{layers_dit, layers_rev, list_of_layer, one_list, power_steps, unit_steps};
use crate::entries::{law_coset_dft_entry, law_reordered_entry, law_stored_entry};
use crate::evaluation::{
    are_coset_twiddles, lemma_column_elements, lemma_coset_twiddles_are_factors,
    lemma_first_half_evaluates, lemma_powers_are_factors, lemma_reversed_powers_are_factors,
    lemma_second_half_evaluates,
};
use crate::field::{Field, TwoAdicField};
use crate::halves::{
    cover_first_layers, cover_last_layers, first_half, first_half_general, first_half_general_oop,
    second_half, second_half_general,
};
use crate::integers::inverse_of_power_of_two;
use crate::layers::factor_value;
use crate::lock::new_lock;
use crate::matrix::{
    column, is_shaped, lemma_entry_of_rows, lemma_height, lemma_position, lemma_reversed_columns,
    lemma_shape, reverse_matrix_index_bits, BitReversedMatrixView, RowMajorMatrix,
};
use crate::network::{all_elements, first_half_image, lemma_network, second_half_image};
use crate::points::{is_root, lemma_generator_is_root, lemma_generator_power, point};
use crate::polynomial::{eval, lemma_eval_constant, scaled};
use crate::powers::exp_u64;
use crate::transform::{coset_lde, dft, dft_on_coset, idft, is_coset_dft_of};
use crate::twiddles::{
    are_twiddles_for, first_half_layers, get_or_compute, get_or_compute_coset, is_pair_for,
    CosetTwiddleCache, Forward, Inverse, RootOfUnity, TwiddleCache, VectorPair,
};

verus! {

/// An FFT algorithm which divides a butterfly network's layers into two halves.
///
/// In the first half, the blocks are small in the earlier layers. Then the rows are put in
/// bit-reversed order, and the second half continues with the same network in that order. So the
/// blocks are always small, and within each half the chunks of rows do not depend on each other.
/// They are processed one after the other.
///
/// The twiddle factors are kept for later transforms of the same size. Clones share them.
#[verifier::reject_recursive_types(F)]
#[derive(Debug)]
pub struct Radix2DitParallel<F: TwoAdicField> {
    /// Twiddle factors based on roots of unity, used in the forward transform.
    twiddles: Arc<spin::RwLock<TwiddleCache<F, Forward>>>,
    /// Twiddle factors for a height and a coset shift, with the shift baked in.
    coset_twiddles: Arc<spin::RwLock<CosetTwiddleCache<F>>>,
    /// Twiddle factors based on inverse roots of unity, used in the inverse transform.
    inverse_twiddles: Arc<spin::RwLock<TwiddleCache<F, Inverse>>>,
}

impl<F: TwoAdicField> Default for Radix2DitParallel<F> {
    /// A transform without any twiddle factors yet.
    fn default() -> (r: Self) {
        Radix2DitParallel {
            twiddles: Arc::new(new_lock(TwiddleCache::new())),
            coset_twiddles: Arc::new(new_lock(CosetTwiddleCache::new())),
            inverse_twiddles: Arc::new(new_lock(TwiddleCache::new())),
        }
    }
}

impl<F: TwoAdicField> Clone for Radix2DitParallel<F> {
    /// A transform that shares the twiddle factors.
    fn clone(&self) -> (r: Self)
        ensures
            r == *self,
    {
        Radix2DitParallel {
            twiddles: self.twiddles.clone(),
            coset_twiddles: self.coset_twiddles.clone(),
            inverse_twiddles: self.inverse_twiddles.clone(),
        }
    }
}

/// Puts the rows of a matrix of `2^k` rows in bit-reversed order.
fn reverse_rows<F: Field>(mat: &mut [F], width: usize)
    requires
        is_shaped(old(mat)@.len() as int, width as int),
        is_pow2(old(mat)@.len() as int / width as int),
    ensures
        final(mat)@.len() == old(mat)@.len(),
        forall|c: int|
            0 <= c < width ==> #[trigger] column(final(mat)@, width as int, c) == bitrev_seq(
                column(old(mat)@, width as int, c),
                log2(old(mat)@.len() as int / width as int),
            ),
{
    let ghost before = mat@;
    reverse_matrix_index_bits(mat, width);
    proof {
        lemma_reversed_columns(
            before,
            mat@,
            width as int,
            log2(before.len() as int / width as int),
        );
    }
}

/// Transforms a matrix in place with the powers of a root, and multiplies the results by a factor
/// where there is one. The results are in bit-reversed order.
fn transform_reversed<F: TwoAdicField, R: RootOfUnity<F>>(
    mat: &mut [F],
    width: usize,
    twiddles: &VectorPair<F>,
    scale: Option<F>,
)
    requires
        is_shaped(old(mat)@.len() as int, width as int),
        is_pow2(old(mat)@.len() as int / width as int),
        log2(old(mat)@.len() as int / width as int) <= F::two_adicity(),
        forall|log_h: usize|
            log_h == log2(old(mat)@.len() as int / width as int) ==> #[trigger] is_pair_for::<F, R>(
                *twiddles,
                log_h,
            ),
    ensures
        final(mat)@.len() == old(mat)@.len(),
        forall|c: int|
            0 <= c < width ==> #[trigger] column(final(mat)@, width as int, c) == bitrev_seq(
                scaled::<F>(
                    dft::<F>(
                        column(old(mat)@, width as int, c),
                        R::root(log2(old(mat)@.len() as int / width as int)),
                    ),
                    factor_value(scale),
                ),
                log2(old(mat)@.len() as int / width as int),
            ),
{
    let height: usize = mat.len() / width;
    let log_h: usize = p3_util::log2_strict_usize(height);
    let ghost k: nat = log_h as nat;
    let ghost w: int = width as int;
    let ghost root: F::Value = R::root(k);
    let ghost before = mat@;
    proof {
        lemma_shape(mat@.len() as int, w);
        R::lemma_root(k);
        assert(is_pair_for::<F, R>(*twiddles, log_h));
        if k > 0 {
            lemma_pow2_step((k - 1) as nat);
        }
    }
    let mid: usize = first_half_layers(log_h);
    // The first half looks like a usual network.
    reverse_rows(mat, width);
    let ghost reversed = mat@;
    proof {
        lemma_pow2_pos((k - mid) as nat);
        assert(mid > 0 ==> twiddles.twiddles@[0].value() == pow::<F>(root, 0));
    }
    first_half(mat, width, mid, twiddles.twiddles.as_slice());
    let ghost halfway = mat@;
    // The second half works in bit-reversed order.
    reverse_rows(mat, width);
    let ghost reordered = mat@;
    second_half(mat, width, mid, twiddles.bitrev_twiddles.as_slice(), scale);
    proof {
        let tw = one_list::<F>(twiddles.twiddles@);
        let tw_rev = one_list::<F>(twiddles.bitrev_twiddles@);
        lemma_powers_are_factors::<F>(twiddles.twiddles@, root, mid as nat, k);
        lemma_reversed_powers_are_factors::<F>(twiddles.bitrev_twiddles@, root, mid as nat, k);
        assert forall|c: int| 0 <= c < w implies #[trigger] column(mat@, w, c) == bitrev_seq(
            scaled::<F>(dft::<F>(column(before, w, c), root), factor_value(scale)),
            k,
        ) by {
            let one: F::Value = F::one_value();
            let col = column(before, w, c);
            let s = column(reversed, w, c);
            assert(s == bitrev_seq(col, k));
            lemma_bitrev_seq_involution(col, k);
            let f = |b: int, blk: Seq<F::Value>|
                first_half_image::<F>(blk, mid as nat, k, one, root);
            lemma_column_elements(reversed, w, c);
            lemma_column_elements(reordered, w, c);
            assert(column(halfway, w, c) == layers_dit::<F>(s, tw, power_steps(k), 0, mid as nat));
            lemma_first_half_evaluates::<F>(s, tw, power_steps(k), mid as nat, k, one, root);
            assert(column(halfway, w, c) == blockwise(s, pow2(mid as nat) as int, f));
            assert(column(reordered, w, c) == bitrev_seq(column(halfway, w, c), k));
            let g = |q: int, blk: Seq<F::Value>|
                second_half_image::<F>(blk, q, (k - mid) as nat, k, one, root);
            let result = layers_rev::<F>(column(reordered, w, c), tw_rev, mid as nat, k);
            lemma_second_half_evaluates::<F>(
                column(reordered, w, c),
                tw_rev,
                mid as nat,
                k,
                one,
                root,
            );
            assert(result == blockwise(
                column(reordered, w, c),
                pow2((k - mid) as nat) as int,
                g,
            ));
            assert(column(mat@, w, c) == scaled::<F>(result, factor_value(scale)));
            lemma_network::<F>(
                s,
                mid as nat,
                k,
                one,
                root,
                column(halfway, w, c),
                column(reordered, w, c),
                result,
            );
            let l = column(mat@, w, c);
            let r = bitrev_seq(scaled::<F>(dft::<F>(col, root), factor_value(scale)), k);
            assert forall|i: int| 0 <= i < pow2(k) implies l[i] == r[i] by {
                lemma_bitrev_bound(i, k);
                let p: F::Value = pow::<F>(root, bitrev(i, k) as nat);
                lemma_pow_is_element::<F>(root, bitrev(i, k) as nat);
                F::lemma_times_ring(p, p, p);
                assert(point::<F>(one, root, bitrev(i, k)) == p);
            }
            assert(l =~= r);
        }
    }
}

impl<F: TwoAdicField> Radix2DitParallel<F> {
    /// The twiddle factors of the forward transform of `2^log_h` rows.
    fn get_or_compute_twiddles(&self, log_h: usize) -> (r: Arc<VectorPair<F>>)
        requires
            log_h <= F::two_adicity(),
            pow2(log_h as nat) <= usize::MAX,
        ensures
            is_pair_for::<F, Forward>(*r, log_h),
    {
        get_or_compute(&self.twiddles, log_h)
    }

    /// The twiddle factors of the transform of `2^log_h` rows on the coset of `shift`.
    fn get_or_compute_coset_twiddles(&self, log_h: usize, shift: F) -> (r: Arc<Vec<Vec<F>>>)
        requires
            log_h <= F::two_adicity(),
            pow2(log_h as nat) <= usize::MAX,
        ensures
            are_twiddles_for::<F>(r@, log_h, shift.value()),
    {
        get_or_compute_coset(&self.coset_twiddles, log_h, shift)
    }

    /// The twiddle factors of the inverse transform of `2^log_h` rows.
    fn get_or_compute_inverse_twiddles(&self, log_h: usize) -> (r: Arc<VectorPair<F>>)
        requires
            log_h <= F::two_adicity(),
            pow2(log_h as nat) <= usize::MAX,
        ensures
            is_pair_for::<F, Inverse>(*r, log_h),
    {
        get_or_compute(&self.inverse_twiddles, log_h)
    }

    /// The discrete Fourier transform of each column of a matrix.
    pub fn dft_batch(&self, mat: RowMajorMatrix<F>) -> (r: BitReversedMatrixView<F>)
        requires
            mat.wf(),
            is_pow2(mat.spec_height()),
            log2(mat.spec_height()) <= F::two_adicity(),
        ensures
            r.wf(),
            r.inner.width == mat.width,
            r.spec_height() == mat.spec_height(),
            forall|c: int|
                0 <= c < mat.width ==> #[trigger] r.col(c) == dft::<F>(
                    mat.col(c),
                    F::generator(log2(mat.spec_height())),
                ),
            r.inner.values@.len() == mat.values@.len(),
            forall|i: int, c: int|
                0 <= i < mat.spec_height() && 0 <= c < mat.width
                    ==> #[trigger] r.inner.values@[bitrev(i, log2(mat.spec_height())) * mat.width
                    + c].value() == eval::<F>(
                    Seq::new(
                        mat.spec_height() as nat,
                        |j: int| mat.values@[j * mat.width + c].value(),
                    ),
                    pow::<F>(F::generator(log2(mat.spec_height())), i as nat),
                ),
    {
        let ghost k: nat = log2(mat.spec_height());
        let h: usize = mat.height();
        let log_h: usize = p3_util::log2_strict_usize(h);
        let twiddles: Arc<VectorPair<F>> = self.get_or_compute_twiddles(log_h);
        let width: usize = mat.width;
        let mut values: Vec<F> = mat.values;
        transform_reversed::<F, Forward>(values.as_mut_slice(), width, &*twiddles, None);
        proof {
            lemma_shape(mat.values@.len() as int, width as int);
            assert forall|i: int, c: int|
                0 <= i < mat.spec_height() && 0 <= c < width implies #[trigger] values@[bitrev(i, k)
                * width + c].value() == eval::<F>(
                Seq::new(mat.spec_height() as nat, |j: int| mat.values@[j * width + c].value()),
                pow::<F>(F::generator(k), i as nat),
            ) by {
                let coeffs = Seq::new(
                    mat.spec_height() as nat,
                    |j: int| mat.values@[j * width + c].value(),
                );
                assert(column(mat.values@, width as int, c) =~= coeffs);
                lemma_bitrev_bound(i, k);
                law_stored_entry(values@, width as int, pow2(k) as int, bitrev(i, k), c);
                law_reordered_entry(dft::<F>(coeffs, F::generator(k)), k, i);
            }
        }
        let result = RowMajorMatrix { values, width };
        proof {
            assert forall|c: int| 0 <= c < width implies #[trigger] bitrev_seq(result.col(c), k)
                == dft::<F>(mat.col(c), F::generator(k)) by {
                lemma_bitrev_seq_involution(dft::<F>(mat.col(c), F::generator(k)), k);
            }
        }
        result.bit_reverse_rows()
    }

    /// The low-degree extension of each column of a matrix: the columns are the values of
    /// polynomials at the powers of a generator, and the results are their values on the coset of
    /// `shift` with `2^added_bits` times as many points.
    pub fn coset_lde_batch(&self, mat: RowMajorMatrix<F>, added_bits: usize, shift: F) -> (r:
        BitReversedMatrixView<F>)
        requires
            mat.wf(),
            is_pow2(mat.spec_height()),
            log2(mat.spec_height()) + added_bits <= F::two_adicity(),
            mat.values@.len() * pow2(added_bits as nat) <= usize::MAX,
        ensures
            r.wf(),
            r.inner.width == mat.width,
            r.spec_height() == mat.spec_height() * pow2(added_bits as nat),
            forall|c: int|
                0 <= c < mat.width ==> #[trigger] r.col(c) == coset_lde::<F>(
                    mat.col(c),
                    log2(mat.spec_height()),
                    added_bits as nat,
                    shift.value(),
                ),
            r.inner.values@.len() == mat.values@.len() * pow2(added_bits as nat),
            forall|i: int, c: int|
                0 <= i < mat.spec_height() * pow2(added_bits as nat) && 0 <= c < mat.width
                    ==> #[trigger] r.inner.values@[bitrev(
                    i,
                    log2(mat.spec_height()) + added_bits as nat,
                ) * mat.width + c].value() == coset_lde::<F>(
                    Seq::new(
                        mat.spec_height() as nat,
                        |j: int| mat.values@[j * mat.width + c].value(),
                    ),
                    log2(mat.spec_height()),
                    added_bits as nat,
                    shift.value(),
                )[i],
    {
        let ghost k: nat = log2(mat.spec_height());
        let ghost a: nat = added_bits as nat;
        let ghost x: F::Value = shift.value();
        let w: usize = mat.width;
        let h: usize = mat.height();
        let log_h: usize = p3_util::log2_strict_usize(h);
        let inverse_twiddles: Arc<VectorPair<F>> = self.get_or_compute_inverse_twiddles(log_h);
        let mut values: Vec<F> = mat.values;
        let size: usize = values.len();
        // The inverse transform includes the division by the height.
        let scale: Option<F> = inverse_of_power_of_two::<F>(h, Ghost(k));
        transform_reversed::<F, Inverse>(values.as_mut_slice(), w, &*inverse_twiddles, scale);
        // The result is left in bit-reversed order, as the next transform expects it.
        let ghost reversed = values@;
        proof {
            lemma_shape(size as int, w as int);
            lemma_pow2_pos(k);
            lemma_lde_sizes(size as int, w as int, k, a);
            lemma_log2_fits(h);
            lemma_pow2_pos(a);
            assert forall|c: int| 0 <= c < w implies #[trigger] column(reversed, w as int, c)
                == bitrev_seq(idft::<F>(mat.col(c), k), k) by {}
        }
        let cosets: usize = two_to_the(added_bits);
        let lde_elems: usize = size * cosets;
        extend_with_zeros(&mut values, lde_elems);
        let g_big: F = F::two_adic_generator(log_h + added_bits);
        let ghost big: F::Value = g_big.value();
        proof {
            assert(block(values@, size as int, 0) =~= reversed);
            assert forall|q: int| 0 < q < cosets implies #[trigger] bitrev(q, a) >= 1 by {
                lemma_bitrev_bound(q, a);
                lemma_bitrev_involution(q, a);
                lemma_bitrev_zero(a);
            }
        }
        let mut coset_idx: usize = 1;
        while coset_idx < cosets
            invariant
                k == log_h,
                a == added_bits,
                added_bits < usize::BITS,
                x == shift.value(),
                big == g_big.value(),
                size == reversed.len(),
                size > 0,
                is_shaped(size as int, w as int),
                size as int / w as int == pow2(k),
                is_pow2(pow2(k) as int),
                log2(pow2(k) as int) == k,
                k + a <= F::two_adicity(),
                pow2(k) <= usize::MAX,
                cosets == pow2(a),
                values@.len() == size * cosets,
                size * cosets <= usize::MAX,
                1 <= coset_idx <= cosets,
                block(values@, size as int, 0) == reversed,
                forall|q: int, c: int|
                    0 < q < cosets && bitrev(q, a) < coset_idx && 0 <= c < w ==> #[trigger] column(
                        block(values@, size as int, q),
                        w as int,
                        c,
                    ) == bitrev_seq(
                        dft_on_coset::<F>(
                            bitrev_seq(column(reversed, w as int, c), k),
                            F::times(pow::<F>(big, bitrev(q, a) as nat), x),
                            F::generator(k),
                        ),
                        k,
                    ),
            decreases cosets - coset_idx,
        {
            let total_shift: F = exp_u64(g_big, coset_idx as u64).mul(shift);
            let dest_idx: usize = p3_util::reverse_bits_len(coset_idx, added_bits);
            let ghost before = values@;
            proof {
                lemma_bitrev_bound(coset_idx as int, a);
                lemma_bitrev_involution(coset_idx as int, a);
                if dest_idx == 0 {
                    lemma_bitrev_zero(a);
                }
                lemma_position(cosets as int, size as int, dest_idx as int, 0);
                assert((dest_idx - 1) * size + size == dest_idx * size) by (nonlinear_arith);
                lemma_position(cosets as int, size as int, dest_idx - 1, 0);
            }
            let all: &mut [F] = values.as_mut_slice();
            let (first_coset, rest): (&mut [F], &mut [F]) = all.split_at_mut(size);
            // The first coset is not part of the rest.
            let (_, tail): (&mut [F], &mut [F]) = rest.split_at_mut((dest_idx - 1) * size);
            let (dest, _): (&mut [F], &mut [F]) = tail.split_at_mut(size);
            coset_dft_oop(self, first_coset, dest, w, total_shift);
            let ghost done = dest@;
            proof {
                let d: int = dest_idx * size;
                assert(values@ =~= before.subrange(0, d) + done + before.subrange(
                    d + size,
                    before.len() as int,
                ));
                lemma_block_replaced(before, done, values@, size as int, dest_idx as int);
                assert forall|q: int, c: int|
                    0 < q < cosets && bitrev(q, a) < coset_idx + 1 && 0 <= c
                        < w implies #[trigger] column(block(values@, size as int, q), w as int, c)
                    == bitrev_seq(
                    dft_on_coset::<F>(
                        bitrev_seq(column(reversed, w as int, c), k),
                        F::times(pow::<F>(big, bitrev(q, a) as nat), x),
                        F::generator(k),
                    ),
                    k,
                ) by {
                    lemma_position(cosets as int, size as int, q, 0);
                    lemma_bitrev_involution(q, a);
                    if q != dest_idx {
                        assert(block(values@, size as int, q) == block(before, size as int, q));
                    }
                }
            }
            coset_idx = coset_idx + 1;
        }
        // The first coset comes last, as the others read it.
        let ghost before = values@;
        let (first_coset, _): (&mut [F], &mut [F]) = values.as_mut_slice().split_at_mut(size);
        coset_dft(self, first_coset, w, shift);
        let ghost done = first_coset@;
        proof {
            assert(values@ =~= before.subrange(0, 0) + done + before.subrange(
                size as int,
                before.len() as int,
            ));
            lemma_position(cosets as int, size as int, 0, 0);
            lemma_block_replaced(before, done, values@, size as int, 0);
            shift.lemma_value_is_element();
            F::lemma_times_ring(x, x, x);
            lemma_bitrev_zero(a);
            assert forall|q: int, c: int| 0 <= q < cosets && 0 <= c < w implies #[trigger] column(
                block(values@, size as int, q),
                w as int,
                c,
            ) == bitrev_seq(
                dft_on_coset::<F>(
                    idft::<F>(mat.col(c), k),
                    F::times(pow::<F>(big, bitrev(q, a) as nat), x),
                    F::generator(k),
                ),
                k,
            ) by {
                let coeffs = idft::<F>(mat.col(c), k);
                assert(column(reversed, w as int, c) == bitrev_seq(coeffs, k));
                lemma_bitrev_seq_involution(coeffs, k);
                lemma_position(cosets as int, size as int, q, 0);
                lemma_bitrev_bound(q, a);
                if q != 0 {
                    assert(block(values@, size as int, q) == block(before, size as int, q));
                }
            }
            lemma_extended_sizes(size as int, w as int, k, a);
            assert forall|c: int| 0 <= c < w implies #[trigger] bitrev_seq(
                column(values@, w as int, c),
                k + a,
            ) == coset_lde::<F>(mat.col(c), k, a, x) by {
                lemma_extended_column(values@, size as int, w as int, c, mat.col(c), k, a, x);
            }
        }
        proof {
            assert forall|i: int, c: int|
                0 <= i < mat.spec_height() * pow2(a) && 0 <= c < w implies #[trigger] values@[bitrev(
                i,
                k + a,
            ) * w + c].value() == coset_lde::<F>(
                Seq::new(mat.spec_height() as nat, |j: int| mat.values@[j * w + c].value()),
                k,
                a,
                x,
            )[i] by {
                assert(mat.col(c) =~= Seq::new(
                    mat.spec_height() as nat,
                    |j: int| mat.values@[j * w + c].value(),
                ));
                lemma_bitrev_bound(i, k + a);
                law_stored_entry(values@, w as int, pow2(k + a) as int, bitrev(i, k + a), c);
                law_reordered_entry(column(values@, w as int, c), k + a, i);
                assert(bitrev_seq(column(values@, w as int, c), k + a) == coset_lde::<F>(
                    mat.col(c),
                    k,
                    a,
                    x,
                ));
            }
        }
        RowMajorMatrix { values, width: w }.bit_reverse_rows()
    }
}

/// Appends zeros up to the given length.
fn extend_with_zeros<F: Field>(values: &mut Vec<F>, len: usize)
    requires
        old(values)@.len() <= len,
    ensures
        final(values)@.len() == len,
        final(values)@.subrange(0, old(values)@.len() as int) == old(values)@,
        forall|i: int|
            old(values)@.len() <= i < len ==> (#[trigger] final(values)@[i]).value()
                == F::zero_value(),
{
    let ghost before = values@;
    while values.len() < len
        invariant
            before.len() <= values@.len() <= len,
            values@.subrange(0, before.len() as int) == before,
            forall|i: int|
                before.len() <= i < values@.len() ==> (#[trigger] values@[i]).value()
                    == F::zero_value(),
        decreases len - values@.len(),
    {
        let ghost now = values@;
        values.push(F::zero());
        proof {
            assert(values@.subrange(0, before.len() as int) =~= now.subrange(
                0,
                before.len() as int,
            ));
        }
    }
}

/// Copies all entries of a matrix to another one of the same size.
fn copy_values<F: Field>(src: &[F], dst: &mut [F])
    requires
        old(dst)@.len() == src@.len(),
    ensures
        final(dst)@ == src@,
{
    let mut i: usize = 0;
    while i < src.len()
        invariant
            dst@.len() == src@.len(),
            0 <= i <= src@.len(),
            forall|j: int| 0 <= j < i ==> #[trigger] dst@[j] == src@[j],
        decreases src@.len() - i,
    {
        dst[i] = src[i];
        i = i + 1;
    }
    proof {
        assert(dst@ =~= src@);
    }
}

/// What the two halves with the twiddle factors of a coset make of a column whose rows are in
/// bit-reversed order.
proof fn lemma_coset_network<F: Field>(
    s: Seq<F::Value>,
    tw: Seq<Vec<F>>,
    mid: nat,
    k: nat,
    shift: F::Value,
    root: F::Value,
    reordered: Seq<F::Value>,
)
    requires
        mid <= k,
        s.len() == pow2(k),
        all_elements::<F>(s),
        all_elements::<F>(reordered),
        is_root::<F>(root, k),
        are_coset_twiddles::<F>(tw, mid, k, shift, root),
        reordered == bitrev_seq(
            layers_dit::<F>(s, list_of_layer::<F>(tw, k), unit_steps(), 0, mid),
            k,
        ),
    ensures
        layers_rev::<F>(reordered, list_of_layer::<F>(tw, k), mid, k) == bitrev_seq(
            dft_on_coset::<F>(bitrev_seq(s, k), shift, root),
            k,
        ),
{
    let lists = list_of_layer::<F>(tw, k);
    let halfway = layers_dit::<F>(s, lists, unit_steps(), 0, mid);
    let result = layers_rev::<F>(reordered, lists, mid, k);
    lemma_coset_twiddles_are_factors::<F>(tw, shift, root, mid, k);
    lemma_first_half_evaluates::<F>(s, lists, unit_steps(), mid, k, shift, root);
    lemma_second_half_evaluates::<F>(reordered, lists, mid, k, shift, root);
    lemma_network::<F>(s, mid, k, shift, root, halfway, reordered, result);
    let r = bitrev_seq(dft_on_coset::<F>(bitrev_seq(s, k), shift, root), k);
    assert forall|i: int| 0 <= i < pow2(k) implies result[i] == r[i] by {
        lemma_bitrev_bound(i, k);
    }
    assert(result =~= r);
}

/// The lists for a coset have enough twiddle factors for all layers.
proof fn lemma_coset_twiddles_cover<F: Field>(
    tw: Seq<Vec<F>>,
    mid: nat,
    k: nat,
    shift: F::Value,
    root: F::Value,
)
    requires
        mid <= k,
        are_coset_twiddles::<F>(tw, mid, k, shift, root),
    ensures
        cover_first_layers(tw, mid, k),
        cover_last_layers(tw, mid, k),
{
    assert forall|l: int| 0 <= l < k implies pow2(l as nat) <= (
    #[trigger] tw[k - 1 - l])@.len() by {
        let e: int = k - 1 - l;
        assert((k - 1 - e) as nat == l);
        assert(tw[e]@.len() == pow2(l as nat));
    }
}

/// The entries of a matrix that holds the values on a coset.
proof fn lemma_coset_entries<F: TwoAdicField>(
    before: Seq<F>,
    after: Seq<F>,
    width: int,
    shift: F::Value,
    k: nat,
)
    requires
        0 < width,
        before.len() == pow2(k) * width,
        is_coset_dft_of::<F>(before, after, width, shift),
    ensures
        forall|i: int, c: int|
            0 <= i < pow2(k) && 0 <= c < width ==> #[trigger] after[bitrev(i, k) * width
                + c].value() == eval::<F>(
                Seq::new(pow2(k), |j: int| before[bitrev(j, k) * width + c].value()),
                F::times(shift, pow::<F>(F::generator(k), i as nat)),
            ),
{
    assert forall|i: int, c: int|
        0 <= i < pow2(k) && 0 <= c < width implies #[trigger] after[bitrev(i, k) * width
        + c].value() == eval::<F>(
        Seq::new(pow2(k), |j: int| before[bitrev(j, k) * width + c].value()),
        F::times(shift, pow::<F>(F::generator(k), i as nat)),
    ) by {
        law_coset_dft_entry::<F>(before, after, width, shift, k, i, c);
    }
}

/// Evaluates the polynomials whose coefficients are the columns of a matrix, in bit-reversed order,
/// on the coset of `shift`. The values are in bit-reversed order as well.
pub fn coset_dft<F: TwoAdicField>(
    dft: &Radix2DitParallel<F>,
    mat: &mut [F],
    width: usize,
    shift: F,
)
    requires
        is_shaped(old(mat)@.len() as int, width as int),
        is_pow2(old(mat)@.len() as int / width as int),
        log2(old(mat)@.len() as int / width as int) <= F::two_adicity(),
    ensures
        is_coset_dft_of::<F>(old(mat)@, final(mat)@, width as int, shift.value()),
        final(mat)@.len() == old(mat)@.len(),
        forall|i: int, c: int|
            0 <= i < old(mat)@.len() as int / width as int && 0 <= c < width ==> #[trigger] final(mat)@[bitrev(i, log2(old(mat)@.len() as int / width as int)) * width + c].value()
                == eval::<F>(
                Seq::new(
                    (old(mat)@.len() as int / width as int) as nat,
                    |j: int|
                        old(mat)@[bitrev(j, log2(old(mat)@.len() as int / width as int)) * width
                            + c].value(),
                ),
                F::times(
                    shift.value(),
                    pow::<F>(
                        F::generator(log2(old(mat)@.len() as int / width as int)),
                        i as nat,
                    ),
                ),
            ),
{
    let height: usize = mat.len() / width;
    let log_h: usize = p3_util::log2_strict_usize(height);
    let ghost k: nat = log_h as nat;
    let ghost w: int = width as int;
    let ghost x: F::Value = shift.value();
    let ghost root: F::Value = F::generator(k);
    let ghost before = mat@;
    proof {
        lemma_shape(mat@.len() as int, w);
        lemma_generator_is_root::<F>(k);
    }
    let mid: usize = first_half_layers(log_h);
    let twiddles: Arc<Vec<Vec<F>>> = dft.get_or_compute_coset_twiddles(log_h, shift);
    // The first half looks like a usual network.
    proof {
        lemma_coset_twiddles_cover::<F>(twiddles@, mid as nat, k, x, root);
    }
    first_half_general(mat, width, mid, twiddles.as_slice());
    let ghost halfway = mat@;
    // The second half works in bit-reversed order.
    reverse_rows(mat, width);
    let ghost reordered = mat@;
    second_half_general(mat, width, mid, twiddles.as_slice());
    proof {
        assert forall|c: int| 0 <= c < w implies #[trigger] column(mat@, w, c) == bitrev_seq(
            dft_on_coset::<F>(bitrev_seq(column(before, w, c), k), x, root),
            k,
        ) by {
            let ro = column(reordered, w, c);
            lemma_column_elements(before, w, c);
            lemma_column_elements(reordered, w, c);
            assert(ro == bitrev_seq(column(halfway, w, c), k));
            lemma_coset_network::<F>(
                column(before, w, c),
                twiddles@,
                mid as nat,
                k,
                x,
                root,
                ro,
            );
        }
        lemma_coset_entries::<F>(before, mat@, w, x, k);
    }
}

/// Like [`coset_dft`], except that the coefficients are read from one matrix and the values are
/// stored in another.
pub fn coset_dft_oop<F: TwoAdicField>(
    dft: &Radix2DitParallel<F>,
    src: &[F],
    dst: &mut [F],
    width: usize,
    shift: F,
)
    requires
        is_shaped(src@.len() as int, width as int),
        old(dst)@.len() == src@.len(),
        is_pow2(src@.len() as int / width as int),
        log2(src@.len() as int / width as int) <= F::two_adicity(),
    ensures
        is_coset_dft_of::<F>(src@, final(dst)@, width as int, shift.value()),
        final(dst)@.len() == src@.len(),
        forall|i: int, c: int|
            0 <= i < src@.len() as int / width as int && 0 <= c < width ==> #[trigger] final(dst)@[bitrev(i, log2(src@.len() as int / width as int)) * width + c].value() == eval::<F>(
                Seq::new(
                    (src@.len() as int / width as int) as nat,
                    |j: int|
                        src@[bitrev(j, log2(src@.len() as int / width as int)) * width
                            + c].value(),
                ),
                F::times(
                    shift.value(),
                    pow::<F>(F::generator(log2(src@.len() as int / width as int)), i as nat),
                ),
            ),
{
    let height: usize = src.len() / width;
    let log_h: usize = p3_util::log2_strict_usize(height);
    let ghost k: nat = log_h as nat;
    let ghost w: int = width as int;
    let ghost x: F::Value = shift.value();
    let ghost root: F::Value = F::generator(k);
    proof {
        lemma_shape(src@.len() as int, w);
        lemma_generator_is_root::<F>(k);
    }
    if log_h == 0 {
        // There are no layers, and a constant polynomial has its coefficient as its value.
        copy_values(src, dst);
        proof {
            lemma2_to64();
            assert forall|c: int| 0 <= c < w implies #[trigger] column(dst@, w, c) == bitrev_seq(
                dft_on_coset::<F>(bitrev_seq(column(src@, w, c), k), x, root),
                k,
            ) by {
                let s = column(src@, w, c);
                lemma_column_elements(src@, w, c);
                assert(bitrev_seq(s, k) =~= s);
                lemma_eval_constant::<F>(s, point::<F>(x, root, 0));
                assert(s =~= bitrev_seq(dft_on_coset::<F>(s, x, root), k));
            }
            lemma_coset_entries::<F>(src@, dst@, w, x, k);
        }
        return ;
    }
    let mid: usize = first_half_layers(log_h);
    let twiddles: Arc<Vec<Vec<F>>> = dft.get_or_compute_coset_twiddles(log_h, shift);
    // The first half looks like a usual network.
    proof {
        lemma_coset_twiddles_cover::<F>(twiddles@, mid as nat, k, x, root);
    }
    first_half_general_oop(src, dst, width, mid, twiddles.as_slice());
    let ghost halfway = dst@;
    // The second half works in bit-reversed order.
    reverse_rows(dst, width);
    let ghost reordered = dst@;
    second_half_general(dst, width, mid, twiddles.as_slice());
    proof {
        assert forall|c: int| 0 <= c < w implies #[trigger] column(dst@, w, c) == bitrev_seq(
            dft_on_coset::<F>(bitrev_seq(column(src@, w, c), k), x, root),
            k,
        ) by {
            let ro = column(reordered, w, c);
            lemma_column_elements(src@, w, c);
            lemma_column_elements(reordered, w, c);
            assert(ro == bitrev_seq(column(halfway, w, c), k));
            lemma_coset_network::<F>(
                column(src@, w, c),
                twiddles@,
                mid as nat,
                k,
                x,
                root,
                ro,
            );
        }
        lemma_coset_entries::<F>(src@, dst@, w, x, k);
    }
}

/// The sizes of the cosets of an extension.
proof fn lemma_lde_sizes(size: int, width: int, k: nat, a: nat)
    requires
        0 <= size,
        0 < width,
        size == pow2(k) * width,
    ensures
        is_shaped(size, width),
        size / width == pow2(k),
        is_pow2(pow2(k) as int),
        log2(pow2(k) as int) == k,
        pow2(a) <= size * pow2(a),
        size <= size * pow2(a),
        0 < size,
{
    lemma_height(pow2(k) as int, width);
    lemma_log2_pow2(k);
    lemma_pow2_pos(k);
    lemma_pow2_pos(a);
    assert(0 < size) by (nonlinear_arith)
        requires
            size == pow2(k) * width,
            0 < pow2(k),
            0 < width,
    ;
    assert(pow2(a) <= size * pow2(a) && size <= size * pow2(a)) by (nonlinear_arith)
        requires
            0 < size,
            0 < pow2(a),
    ;
}

/// The height of an extension.
proof fn lemma_extended_sizes(size: int, width: int, k: nat, a: nat)
    requires
        0 < width,
        size == pow2(k) * width,
    ensures
        is_shaped(size * pow2(a), width),
        size * pow2(a) == pow2(k + a) * width,
        (size * pow2(a)) / width == pow2(k + a),
        pow2(k + a) == pow2(k) * pow2(a),
        is_pow2(pow2(k + a) as int),
        log2(pow2(k + a) as int) == k + a,
{
    lemma_pow2_adds(k, a);
    lemma_log2_pow2(k + a);
    lemma_height(pow2(k + a) as int, width);
    assert(size * pow2(a) == pow2(k + a) * width) by (nonlinear_arith)
        requires
            size == pow2(k) * width,
            pow2(k + a) == pow2(k) * pow2(a),
    ;
}

/// Replacing one block leaves the others unchanged.
proof fn lemma_block_replaced<V>(before: Seq<V>, middle: Seq<V>, after: Seq<V>, size: int, d: int)
    requires
        0 < size,
        0 <= d,
        d * size + size <= before.len(),
        middle.len() == size,
        after == before.subrange(0, d * size) + middle + before.subrange(
            d * size + size,
            before.len() as int,
        ),
    ensures
        block(after, size, d) == middle,
        forall|q: int|
            0 <= q && q != d && q * size + size <= before.len() ==> #[trigger] block(after, size, q)
                == block(before, size, q),
{
    assert(0 <= d * size) by (nonlinear_arith)
        requires
            0 <= d,
            0 < size,
    ;
    assert(block(after, size, d) =~= middle);
    assert forall|q: int| 0 <= q && q != d && q * size + size
        <= before.len() implies #[trigger] block(after, size, q) == block(before, size, q) by {
        if q < d {
            assert(0 <= q * size && q * size + size <= d * size) by (nonlinear_arith)
                requires
                    0 <= q < d,
                    0 < size,
            ;
        } else {
            assert(d * size + size <= q * size) by (nonlinear_arith)
                requires
                    d < q,
                    0 < size,
            ;
        }
        assert(block(after, size, q) =~= block(before, size, q));
    }
}

/// The blocks of an extension are the values on cosets, and together they are the values on one
/// coset of the larger group.
proof fn lemma_extended_column<F: TwoAdicField>(
    values: Seq<F>,
    size: int,
    width: int,
    c: int,
    evals: Seq<F::Value>,
    k: nat,
    a: nat,
    x: F::Value,
)
    requires
        0 <= c < width,
        size == pow2(k) * width,
        values.len() == size * pow2(a),
        k + a <= F::two_adicity(),
        evals.len() == pow2(k),
        forall|q: int|
            0 <= q < pow2(a) ==> #[trigger] column(block(values, size, q), width, c) == bitrev_seq(
                dft_on_coset::<F>(
                    idft::<F>(evals, k),
                    F::times(pow::<F>(F::generator(k + a), bitrev(q, a) as nat), x),
                    F::generator(k),
                ),
                k,
            ),
    ensures
        bitrev_seq(column(values, width, c), k + a) == coset_lde::<F>(evals, k, a, x),
{
    let coeffs = idft::<F>(evals, k);
    let big: F::Value = F::generator(k + a);
    let g: F::Value = F::generator(k);
    let rows: int = pow2(k) as int;
    let l = bitrev_seq(column(values, width, c), k + a);
    let r = coset_lde::<F>(evals, k, a, x);
    lemma_extended_sizes(size, width, k, a);
    lemma_pow2_pos(k);
    assert((k + a) as nat == (a + k) as nat);
    assert(pow2(a) * rows == pow2(k + a)) by (nonlinear_arith)
        requires
            pow2(k + a) == rows * pow2(a),
    ;
    vstd::arithmetic::div_mod::lemma_mod_multiples_basic(pow2(a) as int, rows);
    vstd::arithmetic::div_mod::lemma_div_by_multiple(pow2(a) as int, rows);
    lemma_generator_power::<F>(k, a);
    assert forall|i: int| 0 <= i < pow2(k + a) implies l[i] == r[i] by {
        let row: int = bitrev(i, k + a);
        lemma_bitrev_bound(i, k + a);
        lemma_bitrev_involution(i, k + a);
        lemma_block_index(pow2(k + a) as int, rows, row);
        let q: int = row / rows;
        let p: int = row % rows;
        let j: int = bitrev(q, a);
        let b: int = bitrev(p, k);
        lemma_bitrev_bound(q, a);
        lemma_bitrev_bound(p, k);
        lemma_bitrev_split(q, p, a, k);
        assert(i == b * pow2(a) + j);
        // the place of the row in its coset
        lemma_block_within(pow2(k + a) as int, rows, q);
        assert((q * rows) * width == q * size && (q * rows + rows) * width == q * size + size
            && (q * rows + rows) * width <= values.len()) by (nonlinear_arith)
            requires
                size == rows * width,
                q * rows + rows <= pow2(k + a),
                values.len() == pow2(k + a) * width,
                0 < width,
        ;
        lemma_entry_of_rows(values, width, q * rows, q * rows + rows, p, c);
        lemma_height(rows, width);
        let blk = block(values, size, q);
        assert(blk.len() == size);
        assert(column(blk, width, c)[p] == column(values, width, c)[row]);
        // the point that belongs to it
        let y: F::Value = F::times(pow::<F>(big, j as nat), x);
        assert(l[i] == eval::<F>(coeffs, point::<F>(y, g, b)));
        lemma_pow_mul::<F>(big, pow2(a), b as nat);
        lemma_pow_add::<F>(big, j as nat, pow2(a) * (b as nat));
        assert(j as nat + pow2(a) * (b as nat) == i as nat) by (nonlinear_arith)
            requires
                i == b * pow2(a) + j,
                0 <= j,
                0 <= b,
                0 <= i,
        ;
        let u: F::Value = pow::<F>(big, j as nat);
        let v: F::Value = pow::<F>(g, b as nat);
        F::lemma_times_ring(u, x, v);
        F::lemma_times_ring(x, u, v);
        assert(point::<F>(y, g, b) == point::<F>(x, big, i));
    }
    assert(l =~= r);
}

} // verus!
