//! The two-point operations that butterfly networks are made of.

use vstd::prelude::*;
use crate::algebra::minus;
use crate::field::Field;

verus! {

/// An operation that turns two values into two others.
pub trait Butterfly<F: Field>: Copy + Send + Sync {
    /// The first of the two results.
    spec fn first(&self, x_1: F::Value, x_2: F::Value) -> F::Value;

    /// The second of the two results.
    spec fn second(&self, x_1: F::Value, x_2: F::Value) -> F::Value;

    /// Applies the operation to two elements.
    fn apply(&self, x_1: F, x_2: F) -> (r: (F, F))
        ensures
            r.0.value() == self.first(x_1.value(), x_2.value()),
            r.1.value() == self.second(x_1.value(), x_2.value()),
    ;

    /// Applies the operation in place to the corresponding entries of two rows.
    fn apply_to_rows(&self, row_1: &mut [F], row_2: &mut [F])
        requires
            old(row_1)@.len() == old(row_2)@.len(),
        ensures
            final(row_1)@.len() == old(row_1)@.len(),
            final(row_2)@.len() == old(row_2)@.len(),
            forall|i: int|
                0 <= i < old(row_1)@.len() ==> (#[trigger] final(row_1)@[i]).value() == self.first(
                    old(row_1)@[i].value(),
                    old(row_2)@[i].value(),
                ),
            forall|i: int|
                0 <= i < old(row_1)@.len() ==> (#[trigger] final(row_2)@[i]).value() == self.second(
                    old(row_1)@[i].value(),
                    old(row_2)@[i].value(),
                ),
    {
        let n: usize = row_1.len();
        let mut i: usize = 0;
        while i < n
            invariant
                n == old(row_1)@.len(),
                n == old(row_2)@.len(),
                row_1@.len() == n,
                row_2@.len() == n,
                0 <= i <= n,
                forall|j: int|
                    0 <= j < i ==> (#[trigger] row_1@[j]).value() == self.first(
                        old(row_1)@[j].value(),
                        old(row_2)@[j].value(),
                    ),
                forall|j: int|
                    0 <= j < i ==> (#[trigger] row_2@[j]).value() == self.second(
                        old(row_1)@[j].value(),
                        old(row_2)@[j].value(),
                    ),
                forall|j: int| i <= j < n ==> #[trigger] row_1@[j] == old(row_1)@[j],
                forall|j: int| i <= j < n ==> #[trigger] row_2@[j] == old(row_2)@[j],
            decreases n - i,
        {
            let (y_1, y_2): (F, F) = self.apply(row_1[i], row_2[i]);
            row_1[i] = y_1;
            row_2[i] = y_2;
            i = i + 1;
        }
    }

    /// Applies the operation to the corresponding entries of two source rows, and stores the
    /// results in two other rows.
    fn apply_to_rows_oop(&self, src_1: &[F], dst_1: &mut [F], src_2: &[F], dst_2: &mut [F])
        requires
            src_1@.len() == src_2@.len(),
            old(dst_1)@.len() == src_1@.len(),
            old(dst_2)@.len() == src_1@.len(),
        ensures
            final(dst_1)@.len() == src_1@.len(),
            final(dst_2)@.len() == src_1@.len(),
            forall|i: int|
                0 <= i < src_1@.len() ==> (#[trigger] final(dst_1)@[i]).value() == self.first(
                    src_1@[i].value(),
                    src_2@[i].value(),
                ),
            forall|i: int|
                0 <= i < src_1@.len() ==> (#[trigger] final(dst_2)@[i]).value() == self.second(
                    src_1@[i].value(),
                    src_2@[i].value(),
                ),
    {
        let n: usize = src_1.len();
        let mut i: usize = 0;
        while i < n
            invariant
                n == src_1@.len(),
                n == src_2@.len(),
                dst_1@.len() == n,
                dst_2@.len() == n,
                0 <= i <= n,
                forall|j: int|
                    0 <= j < i ==> (#[trigger] dst_1@[j]).value() == self.first(
                        src_1@[j].value(),
                        src_2@[j].value(),
                    ),
                forall|j: int|
                    0 <= j < i ==> (#[trigger] dst_2@[j]).value() == self.second(
                        src_1@[j].value(),
                        src_2@[j].value(),
                    ),
            decreases n - i,
        {
            let (y_1, y_2): (F, F) = self.apply(src_1[i], src_2[i]);
            dst_1[i] = y_1;
            dst_2[i] = y_2;
            i = i + 1;
        }
    }
}

/// The decimation-in-time butterfly: `(x_1 + x_2 * t, x_1 - x_2 * t)` for the twiddle factor `t`.
#[derive(Copy, Clone)]
pub struct DitButterfly<F>(pub F);

impl<F: Field> Butterfly<F> for DitButterfly<F> {
    open spec fn first(&self, x_1: F::Value, x_2: F::Value) -> F::Value {
        F::plus(x_1, F::times(x_2, self.0.value()))
    }

    open spec fn second(&self, x_1: F::Value, x_2: F::Value) -> F::Value {
        minus::<F>(x_1, F::times(x_2, self.0.value()))
    }

    fn apply(&self, x_1: F, x_2: F) -> (r: (F, F)) {
        let x_2_twiddle = x_2.mul(self.0);
        (x_1.add(x_2_twiddle), x_1.sub(x_2_twiddle))
    }
}

/// The butterfly without a twiddle factor: `(x_1 + x_2, x_1 - x_2)`.
#[derive(Copy, Clone)]
pub struct TwiddleFreeButterfly;

impl<F: Field> Butterfly<F> for TwiddleFreeButterfly {
    open spec fn first(&self, x_1: F::Value, x_2: F::Value) -> F::Value {
        F::plus(x_1, x_2)
    }

    open spec fn second(&self, x_1: F::Value, x_2: F::Value) -> F::Value {
        minus::<F>(x_1, x_2)
    }

    fn apply(&self, x_1: F, x_2: F) -> (r: (F, F)) {
        (x_1.add(x_2), x_1.sub(x_2))
    }
}

/// The decimation-in-time butterfly with its results multiplied by a scale factor, which is
/// folded into the twiddle factor beforehand.
#[derive(Copy, Clone)]
pub struct ScaledDitButterfly<F> {
    scale: F,
    twiddle_times_scale: F,
}

impl<F: Field> ScaledDitButterfly<F> {
    /// The factor that the results are multiplied by.
    pub closed spec fn scale(self) -> F::Value {
        self.scale.value()
    }

    /// The product of the twiddle factor and the scale factor.
    pub closed spec fn twiddle_times_scale(self) -> F::Value {
        self.twiddle_times_scale.value()
    }

    /// The butterfly for a twiddle factor and a scale factor.
    pub fn new(twiddle: F, scale: F) -> (r: Self)
        ensures
            r.scale() == scale.value(),
            r.twiddle_times_scale() == F::times(twiddle.value(), scale.value()),
    {
        ScaledDitButterfly { scale, twiddle_times_scale: twiddle.mul(scale) }
    }
}

impl<F: Field> Butterfly<F> for ScaledDitButterfly<F> {
    open spec fn first(&self, x_1: F::Value, x_2: F::Value) -> F::Value {
        F::plus(F::times(x_1, self.scale()), F::times(x_2, self.twiddle_times_scale()))
    }

    open spec fn second(&self, x_1: F::Value, x_2: F::Value) -> F::Value {
        minus::<F>(F::times(x_1, self.scale()), F::times(x_2, self.twiddle_times_scale()))
    }

    fn apply(&self, x_1: F, x_2: F) -> (r: (F, F)) {
        let x_1_scaled = x_1.mul(self.scale);
        let x_2_scaled = x_2.mul(self.twiddle_times_scale);
        (x_1_scaled.add(x_2_scaled), x_1_scaled.sub(x_2_scaled))
    }
}

} // verus!
