//! Work that is done on the chunks of consecutive rows of a matrix, each by itself.

use vstd::prelude::*;
use crate::field::Field;
use crate::matrix::{
    column, entry, is_shaped, lemma_entry_of_replaced, lemma_entry_of_rows, lemma_height,
    lemma_position, lemma_shape,
};

verus! {

/// A computation on one chunk of rows, which treats each column by itself.
pub(crate) trait ChunkOp<F: Field> {
    /// What becomes of the entries `s` of column `c` in the chunk with index `b`.
    spec fn image(&self, b: int, c: int, s: Seq<F::Value>) -> Seq<F::Value>;

    /// Whether the computation can be done on the chunk with index `b`, of the given height and
    /// width.
    spec fn accepts(&self, b: int, rows: int, width: int) -> bool;

    /// Does the computation on the chunk with index `b`.
    fn process(&self, b: usize, chunk: &mut [F], width: usize)
        requires
            is_shaped(old(chunk)@.len() as int, width as int),
            self.accepts(b as int, old(chunk)@.len() as int / width as int, width as int),
        ensures
            final(chunk)@.len() == old(chunk)@.len(),
            forall|c: int|
                0 <= c < width ==> #[trigger] column(final(chunk)@, width as int, c) == self.image(
                    b as int,
                    c,
                    column(old(chunk)@, width as int, c),
                ),
    ;
}

/// The sequence that results when each block of `size` entries is replaced by its image, which
/// depends on the index of the block.
pub open spec fn blockwise<V>(s: Seq<V>, size: int, f: spec_fn(int, Seq<V>) -> Seq<V>) -> Seq<V> {
    Seq::new(s.len(), |r: int| f(r / size, block(s, size, r / size))[r % size])
}

/// The block of `size` entries with index `b`.
pub open spec fn block<V>(s: Seq<V>, size: int, b: int) -> Seq<V> {
    s.subrange(b * size, b * size + size)
}

/// The index of an entry determines its block and its place in the block.
pub proof fn lemma_block_of(r: int, size: int, b: int, j: int)
    requires
        r == b * size + j,
        0 <= j < size,
    ensures
        r / size == b,
        r % size == j,
{
    vstd::arithmetic::div_mod::lemma_fundamental_div_mod_converse(r, size, b, j);
}

/// A block of a sequence that is made of whole blocks lies within it.
pub proof fn lemma_block_within(len: int, size: int, b: int)
    requires
        0 < size,
        0 <= len,
        len % size == 0,
        0 <= b < len / size,
    ensures
        0 <= b * size,
        b * size + size <= len,
        (b + 1) * size == b * size + size,
{
    lemma_shape(len, size);
    lemma_position(len / size, size, b, 0);
}

/// Each entry of a sequence that is made of whole blocks lies in one of them.
pub proof fn lemma_block_index(len: int, size: int, r: int)
    requires
        0 < size,
        len % size == 0,
        0 <= r < len,
    ensures
        0 <= r / size < len / size,
        0 <= r % size < size,
        r == (r / size) * size + r % size,
{
    lemma_shape(len, size);
    vstd::arithmetic::div_mod::lemma_fundamental_div_mod(r, size);
    vstd::arithmetic::mul::lemma_mul_is_commutative(size, r / size);
    let q: int = r / size;
    let n: int = len / size;
    let j: int = r % size;
    assert(q < n) by (nonlinear_arith)
        requires
            q * size + j < n * size,
            0 <= j,
            0 < size,
    ;
    vstd::arithmetic::div_mod::lemma_div_pos_is_pos(r, size);
}

/// Whether the `n` chunks that are processed first include the one with index `b`.
spec fn is_done(b: int, n: int, total: int, backwards: bool) -> bool {
    if backwards {
        b >= total - n
    } else {
        b < n
    }
}

/// Processes the chunks of `rows` consecutive rows of a matrix one by one, from the first to the
/// last or, if `backwards` is set, from the last to the first.
pub(crate) fn for_each_row_chunk<F: Field, P: ChunkOp<F>>(
    op: &P,
    mat: &mut [F],
    width: usize,
    rows: usize,
    backwards: bool,
)
    requires
        is_shaped(old(mat)@.len() as int, width as int),
        rows > 0,
        (old(mat)@.len() as int / width as int) % (rows as int) == 0,
        forall|b: int|
            0 <= b < (old(mat)@.len() as int / width as int) / rows as int
                ==> #[trigger] op.accepts(b, rows as int, width as int),
    ensures
        final(mat)@.len() == old(mat)@.len(),
        forall|c: int|
            0 <= c < width ==> #[trigger] column(final(mat)@, width as int, c) == blockwise(
                column(old(mat)@, width as int, c),
                rows as int,
                |b: int, s: Seq<F::Value>| op.image(b, c, s),
            ),
{
    let ghost f = |c: int| (|b: int, s: Seq<F::Value>| op.image(b, c, s));
    let ghost w: int = width as int;
    let height: usize = mat.len() / width;
    let total: usize = height / rows;
    proof {
        lemma_shape(mat@.len() as int, w);
        lemma_shape(height as int, rows as int);
        assert forall|r: int| 0 <= r < height implies !is_done(
            #[trigger] (r / rows as int),
            0,
            total as int,
            backwards,
        ) by {
            lemma_block_index(height as int, rows as int, r);
        }
    }
    let mut n: usize = 0;
    while n < total
        invariant
            w == width,
            width > 0,
            rows > 0,
            f == (|c: int| (|b: int, s: Seq<F::Value>| op.image(b, c, s))),
            height == old(mat)@.len() as int / w,
            old(mat)@.len() == height * w,
            old(mat)@.len() <= usize::MAX,
            height == total * rows,
            height as int % rows as int == 0,
            total == height as int / rows as int,
            mat@.len() == old(mat)@.len(),
            0 <= n <= total,
            forall|b: int| 0 <= b < total ==> #[trigger] op.accepts(b, rows as int, w),
            forall|r: int, c: int|
                0 <= r < height && 0 <= c < w ==> #[trigger] entry(mat@, w, r, c) == if is_done(
                    r / rows as int,
                    n as int,
                    total as int,
                    backwards,
                ) {
                    blockwise(column(old(mat)@, w, c), rows as int, f(c))[r]
                } else {
                    entry(old(mat)@, w, r, c)
                },
        decreases total - n,
    {
        let b: usize = if backwards {
            total - 1 - n
        } else {
            n
        };
        let ghost before = mat@;
        let ghost a: int = b * rows;
        let ghost e: int = a + rows;
        proof {
            lemma_position(total as int, rows as int, b as int, 0);
            assert(e <= height);
            assert(0 <= a * w <= e * w && e * w <= height * w && e * w - a * w == rows * w && (b
                * (rows * w)) == a * w) by (nonlinear_arith)
                requires
                    0 <= a,
                    e == a + rows,
                    e <= height,
                    0 < w,
                    a == b * rows,
                    0 <= rows,
            ;
            lemma_height(rows as int, w);
        }
        let size: usize = rows * width;
        let (_, rest): (&mut [F], &mut [F]) = mat.split_at_mut(b * size);
        let (chunk, _): (&mut [F], &mut [F]) = rest.split_at_mut(size);
        let ghost chunk_before = chunk@;
        op.process(b, chunk, width);
        let ghost chunk_after = chunk@;
        proof {
            assert(chunk_before =~= before.subrange(a * w, e * w));
            assert(mat@ =~= before.subrange(0, a * w) + chunk_after + before.subrange(
                e * w,
                before.len() as int,
            ));
            assert forall|r: int, c: int| 0 <= r < height && 0 <= c < w implies #[trigger] entry(
                mat@,
                w,
                r,
                c,
            ) == if is_done(r / rows as int, n + 1, total as int, backwards) {
                blockwise(column(old(mat)@, w, c), rows as int, f(c))[r]
            } else {
                entry(old(mat)@, w, r, c)
            } by {
                lemma_position(height as int, w, r, c);
                lemma_entry_of_replaced(before, chunk_after, mat@, w, a, e, r, c);
                lemma_block_index(height as int, rows as int, r);
                let q: int = r / rows as int;
                assert(!is_done(q, n as int, total as int, backwards) ==> entry(before, w, r, c)
                    == entry(old(mat)@, w, r, c));
                if a <= r < e {
                    lemma_block_of(r, rows as int, b as int, r - a);
                    let col = column(old(mat)@, w, c);
                    assert(column(chunk_before, w, c) =~= block(col, rows as int, b as int)) by {
                        assert forall|i: int| 0 <= i < rows implies column(chunk_before, w, c)[i]
                            == col[a + i] by {
                            lemma_entry_of_rows(before, w, a, e, i, c);
                            lemma_block_of(a + i, rows as int, b as int, i);
                            assert(entry(before, w, a + i, c) == entry(old(mat)@, w, a + i, c));
                        }
                    }
                    assert(column(chunk_after, w, c)[r - a] == entry(chunk_after, w, r - a, c));
                } else {
                    assert(q != b) by {
                        if q == b {
                            assert(r == b * rows + r % rows as int);
                        }
                    }
                }
            }
        }
        n = n + 1;
    }
    proof {
        assert forall|c: int| 0 <= c < width implies #[trigger] column(mat@, w, c) == blockwise(
            column(old(mat)@, w, c),
            rows as int,
            f(c),
        ) by {
            let col = column(mat@, w, c);
            let img = blockwise(column(old(mat)@, w, c), rows as int, f(c));
            assert forall|r: int| 0 <= r < height implies col[r] == img[r] by {
                lemma_block_index(height as int, rows as int, r);
                assert(col[r] == entry(mat@, w, r, c));
            }
            assert(col =~= img);
        }
    }
}

} // verus!
