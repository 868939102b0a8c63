//! What the transforms compute, column by column.

use vstd::prelude::*;
use vstd::arithmetic::power2::*;
use crate::algebra::pow;
use crate::bits::{bitrev_seq, log2};
use crate::field::{Field, TwoAdicField};
use crate::matrix::column;
use crate::points::point;
use crate::polynomial::{eval, scaled};
use crate::twiddles::inverse_generator;

verus! {

/// The discrete Fourier transform: the values of the polynomial with the given coefficients at the
/// powers of `root`, as many as there are coefficients.
pub open spec fn dft<F: Field>(coeffs: Seq<F::Value>, root: F::Value) -> Seq<F::Value> {
    Seq::new(coeffs.len(), |i: int| eval::<F>(coeffs, pow::<F>(root, i as nat)))
}

/// The values of the polynomial with the given coefficients at the points of the coset
/// `shift * <root>`, as many as there are coefficients.
pub open spec fn dft_on_coset<F: Field>(
    coeffs: Seq<F::Value>,
    shift: F::Value,
    root: F::Value,
) -> Seq<F::Value> {
    Seq::new(coeffs.len(), |i: int| eval::<F>(coeffs, point::<F>(shift, root, i)))
}

/// Whether the columns of one matrix are the values on the coset of `shift` of the polynomials
/// whose coefficients are the columns of another. The rows of both are in bit-reversed order.
pub open spec fn is_coset_dft_of<F: TwoAdicField>(
    before: Seq<F>,
    after: Seq<F>,
    width: int,
    shift: F::Value,
) -> bool {
    let k: nat = log2(before.len() as int / width);
    &&& after.len() == before.len()
    &&& forall|c: int|
        0 <= c < width ==> #[trigger] column(after, width, c) == bitrev_seq(
            dft_on_coset::<F>(bitrev_seq(column(before, width, c), k), shift, F::generator(k)),
            k,
        )
}

/// The inverse transform of `2^k` values: the transform with the inverse of the generator, divided
/// by `2^k`.
pub open spec fn idft<F: TwoAdicField>(evals: Seq<F::Value>, k: nat) -> Seq<F::Value> {
    scaled::<F>(dft::<F>(evals, inverse_generator::<F>(k)), Some(pow::<F>(F::half(), k)))
}

/// The low-degree extension of `2^k` values to a coset with `2^added` times as many points: the
/// values there of the polynomial that the inverse transform gives.
pub open spec fn coset_lde<F: TwoAdicField>(
    evals: Seq<F::Value>,
    k: nat,
    added: nat,
    shift: F::Value,
) -> Seq<F::Value> {
    Seq::new(
        pow2(k + added),
        |i: int| eval::<F>(idft::<F>(evals, k), point::<F>(shift, F::generator(k + added), i)),
    )
}

} // verus!
