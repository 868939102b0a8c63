//! Matrices stored row by row, and the reordering of their rows.

use vstd::prelude::*;
use vstd::arithmetic::power2::*;
use crate::bits::{
    bitrev, bitrev_seq, is_pow2, lemma_bitrev_bound, lemma_log2_fits, lemma_pow2_above, log2,
};
use crate::field::Field;

verus! {

/// Whether `len` entries form whole rows of the given width.
pub open spec fn is_shaped(len: int, width: int) -> bool {
    width > 0 && len % width == 0
}

/// The entry in row `r` and column `c` of a matrix stored row by row.
pub open spec fn entry<F: Field>(values: Seq<F>, width: int, r: int, c: int) -> F::Value {
    values[r * width + c].value()
}

/// Column `c` of a matrix stored row by row.
pub open spec fn column<F: Field>(values: Seq<F>, width: int, c: int) -> Seq<F::Value> {
    Seq::new((values.len() / width as nat) as nat, |r: int| entry(values, width, r, c))
}

/// The position of an entry lies within the storage, and `h` whole rows divide into `h` rows.
pub proof fn lemma_position(h: int, width: int, r: int, c: int)
    requires
        0 <= r < h,
        0 <= c < width,
    ensures
        0 <= r * width + c < h * width,
        (r + 1) * width <= h * width,
        0 <= r * width,
        (r + 1) * width == r * width + width,
{
    assert(0 <= r * width + c < h * width && (r + 1) * width <= h * width && 0 <= r * width
        && (r + 1) * width == r * width + width) by (nonlinear_arith)
        requires
            0 <= r < h,
            0 <= c < width,
    ;
}

/// The height of `h` rows of a positive width is `h`.
pub proof fn lemma_height(h: int, width: int)
    requires
        0 <= h,
        0 < width,
    ensures
        (h * width) / width == h,
        is_shaped(h * width, width),
        0 <= h * width,
{
    vstd::arithmetic::div_mod::lemma_div_by_multiple(h, width);
    vstd::arithmetic::div_mod::lemma_mod_multiples_basic(h, width);
    assert(0 <= h * width) by (nonlinear_arith)
        requires
            0 <= h,
            0 < width,
    ;
}

/// Storage that is made of whole rows is as long as its height times its width.
pub proof fn lemma_shape(len: int, width: int)
    requires
        0 <= len,
        is_shaped(len, width),
    ensures
        len == (len / width) * width,
        0 <= len / width <= len,
{
    vstd::arithmetic::div_mod::lemma_fundamental_div_mod(len, width);
    vstd::arithmetic::mul::lemma_mul_is_commutative(width, len / width);
    vstd::arithmetic::div_mod::lemma_div_pos_is_pos(len, width);
    let h: int = len / width;
    assert(h <= h * width) by (nonlinear_arith)
        requires
            0 <= h,
            0 < width,
    ;
}

/// The entries of the rows from `a` on, taken by themselves.
pub proof fn lemma_entry_of_rows<F: Field>(
    values: Seq<F>,
    width: int,
    a: int,
    b: int,
    r: int,
    c: int,
)
    requires
        0 <= a <= b,
        b * width <= values.len(),
        0 <= r < b - a,
        0 <= c < width,
    ensures
        0 <= a * width <= b * width,
        entry(values.subrange(a * width, b * width), width, r, c) == entry(values, width, a + r, c),
{
    assert(0 <= a * width <= b * width && a * width + (r * width + c) == (a + r) * width + c && 0
        <= r * width + c < b * width - a * width) by (nonlinear_arith)
        requires
            0 <= a <= b,
            0 <= r < b - a,
            0 <= c < width,
    ;
}

/// Replacing the rows from `a` to `b` changes the entries of these rows and no others.
pub proof fn lemma_entry_of_replaced<F: Field>(
    before: Seq<F>,
    middle: Seq<F>,
    after: Seq<F>,
    width: int,
    a: int,
    b: int,
    r: int,
    c: int,
)
    requires
        0 <= a <= b,
        b * width <= before.len(),
        middle.len() == b * width - a * width,
        after == before.subrange(0, a * width) + middle + before.subrange(
            b * width,
            before.len() as int,
        ),
        0 <= r,
        0 <= c < width,
        r * width + c < before.len(),
    ensures
        entry(after, width, r, c) == if a <= r < b {
            entry(middle, width, r - a, c)
        } else {
            entry(before, width, r, c)
        },
{
    let e: int = r * width + c;
    assert(0 <= e && 0 <= a * width <= b * width) by (nonlinear_arith)
        requires
            0 <= r,
            0 <= c < width,
            e == r * width + c,
            0 <= a <= b,
    ;
    if r < a {
        assert(e < a * width) by (nonlinear_arith)
            requires
                r < a,
                0 <= c < width,
                e == r * width + c,
        ;
    } else if r >= b {
        assert(e >= b * width) by (nonlinear_arith)
            requires
                r >= b,
                0 <= c < width,
                e == r * width + c,
        ;
    } else {
        assert(a * width <= e < b * width && (r - a) * width + c == e - a * width)
            by (nonlinear_arith)
            requires
                a <= r < b,
                0 <= c < width,
                e == r * width + c,
        ;
    }
}

/// Rearranges the rows of a matrix: row `r` of the result is the row of the argument whose
/// index is `r` with its bits reversed.
///
/// This is `p3_matrix::util::reverse_matrix_index_bits`, called on a view of the storage. It
/// panics unless the height is a power of two.
#[verifier::external_body]
pub(crate) fn reverse_matrix_index_bits<F: Copy + Send + Sync>(values: &mut [F], width: usize)
    requires
        is_shaped(old(values)@.len() as int, width as int),
        is_pow2(old(values)@.len() as int / width as int),
    ensures
        final(values)@.len() == old(values)@.len(),
        forall|r: int, c: int|
            0 <= r < old(values)@.len() as int / width as int && 0 <= c < width
                ==> #[trigger] final(values)@[r * width + c] == old(values)@[bitrev(
                r,
                log2(old(values)@.len() as int / width as int),
            ) * width + c],
{
    p3_matrix::util::reverse_matrix_index_bits(
        &mut p3_matrix::dense::RowMajorMatrixViewMut::new(values, width),
    );
}

/// Reordering the rows reorders each column.
pub(crate) proof fn lemma_reversed_columns<F: Field>(
    before: Seq<F>,
    after: Seq<F>,
    width: int,
    k: nat,
)
    requires
        is_shaped(before.len() as int, width),
        before.len() as int / width == pow2(k),
        after.len() == before.len(),
        forall|r: int, c: int|
            0 <= r < before.len() as int / width && 0 <= c < width ==> #[trigger] after[r * width
                + c] == before[bitrev(r, k) * width + c],
    ensures
        forall|c: int|
            0 <= c < width ==> #[trigger] column(after, width, c) == bitrev_seq(
                column(before, width, c),
                k,
            ),
{
    assert forall|c: int| 0 <= c < width implies #[trigger] column(after, width, c) == bitrev_seq(
        column(before, width, c),
        k,
    ) by {
        let l = column(after, width, c);
        let m = bitrev_seq(column(before, width, c), k);
        assert forall|r: int| 0 <= r < pow2(k) implies l[r] == m[r] by {
            lemma_bitrev_bound(r, k);
            assert(after[r * width + c] == before[bitrev(r, k) * width + c]);
        }
        assert(l =~= m);
    }
}

/// A dense matrix, stored row by row.
#[derive(Debug)]
pub struct RowMajorMatrix<F> {
    pub values: Vec<F>,
    pub width: usize,
}

impl<F: Field> RowMajorMatrix<F> {
    /// Whether the storage is made of whole rows.
    pub open spec fn wf(self) -> bool {
        is_shaped(self.values@.len() as int, self.width as int)
    }

    /// The number of rows.
    pub open spec fn spec_height(self) -> int {
        self.values@.len() as int / self.width as int
    }

    /// The values in column `c`, from the first row to the last.
    pub open spec fn col(self, c: int) -> Seq<F::Value> {
        column(self.values@, self.width as int, c)
    }

    /// A matrix with the given entries, row by row.
    pub fn new(values: Vec<F>, width: usize) -> (r: Self)
        requires
            is_shaped(values@.len() as int, width as int),
        ensures
            r.wf(),
            r.values == values,
            r.width == width,
            forall|c: int|
                0 <= c < width ==> (#[trigger] r.col(c)).len() == values@.len() as int
                    / width as int,
            forall|c: int, i: int|
                0 <= c < width && 0 <= i < values@.len() as int / width as int
                    ==> #[trigger] r.col(c)[i] == values@[i * width + c].value(),
    {
        RowMajorMatrix { values, width }
    }

    /// The number of rows.
    pub fn height(&self) -> (h: usize)
        requires
            self.wf(),
        ensures
            h == self.spec_height(),
            h * self.width == self.values@.len(),
    {
        proof {
            lemma_shape(self.values@.len() as int, self.width as int);
        }
        self.values.len() / self.width
    }

    /// The same rows, with the one at each index found at the reversed index. No rows are moved.
    pub fn bit_reverse_rows(self) -> (r: BitReversedMatrixView<F>)
        ensures
            r.inner == self,
    {
        BitReversedMatrixView { inner: self }
    }
}

/// A view of a matrix in which each row is found at the index of its position in the matrix with
/// the bits reversed.
#[derive(Debug)]
pub struct BitReversedMatrixView<F> {
    pub inner: RowMajorMatrix<F>,
}

impl<F: Field> BitReversedMatrixView<F> {
    /// Whether the matrix has a power of two of rows, so that its indices can be reversed.
    pub open spec fn wf(self) -> bool {
        self.inner.wf() && is_pow2(self.inner.spec_height())
    }

    /// The number of rows.
    pub open spec fn spec_height(self) -> int {
        self.inner.spec_height()
    }

    /// The values in column `c`, from the first row of the view to the last.
    pub open spec fn col(self, c: int) -> Seq<F::Value> {
        bitrev_seq(self.inner.col(c), log2(self.spec_height()))
    }

    /// The number of rows.
    pub fn height(&self) -> (h: usize)
        requires
            self.wf(),
        ensures
            h == self.spec_height(),
            h * self.inner.width == self.inner.values@.len(),
    {
        self.inner.height()
    }

    /// The number of columns.
    pub fn width(&self) -> (w: usize)
        ensures
            w == self.inner.width,
    {
        self.inner.width
    }

    /// The entry in row `r` and column `c` of the view.
    pub fn get(&self, r: usize, c: usize) -> (x: F)
        requires
            self.wf(),
            r < self.spec_height(),
            c < self.inner.width,
        ensures
            x.value() == self.col(c as int)[r as int],
            x == self.inner.values@[bitrev(r as int, log2(self.spec_height())) * self.inner.width
                + c],
    {
        let h: usize = self.height();
        let log_h: usize = p3_util::log2_strict_usize(h);
        proof {
            lemma_pow2_above(log_h as nat);
            lemma_log2_fits(h);
            lemma_bitrev_bound(r as int, log_h as nat);
            lemma_shape(self.inner.values@.len() as int, self.inner.width as int);
        }
        let row: usize = p3_util::reverse_bits_len(r, log_h);
        let len: usize = self.inner.values.len();
        proof {
            lemma_position(h as int, self.inner.width as int, row as int, c as int);
            assert(h * self.inner.width == len);
        }
        self.inner.values[row * self.inner.width + c]
    }

    /// The rows in the order in which they are stored.
    pub fn bit_reverse_rows(self) -> (r: RowMajorMatrix<F>)
        ensures
            r == self.inner,
    {
        self.inner
    }
}

} // verus!
