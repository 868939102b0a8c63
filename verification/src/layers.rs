//! The layers of a decimation-in-time butterfly network.
//!
//! A layer divides the rows of a matrix into blocks, and the rows of each block into a lower and
//! an upper half. It combines each row of the lower half with the corresponding row of the upper
//! half by a butterfly. The layers differ in where they find the twiddle factors.

use vstd::prelude::*;
use vstd::arithmetic::power2::*;
use vstd::slice::slice_subrange;
use crate::algebra::{lemma_scaled_butterfly, minus};
use crate::bits::{lemma_pow2_step, two_to_the};
use crate::butterflies::{Butterfly, DitButterfly, ScaledDitButterfly, TwiddleFreeButterfly};
use crate::chunks::{
    block, blockwise, for_each_row_chunk, lemma_block_index, lemma_block_of, lemma_block_within,
    ChunkOp,
};
use crate::field::Field;
use crate::matrix::{
    column, entry, is_shaped, lemma_entry_of_replaced, lemma_entry_of_rows, lemma_position,
    lemma_shape,
};
use crate::polynomial::scaled;

verus! {

/// The entries of a block of which each in the lower half, `x`, and the one `half` places
/// further on, `y`, are replaced by `x + y * t` and `x - y * t`. The twiddle factor `t` depends
/// on the index of the block and on the place of `x` in it.
pub open spec fn butterflied<F: Field>(
    s: Seq<F::Value>,
    half: int,
    b: int,
    t: spec_fn(int, int) -> F::Value,
) -> Seq<F::Value> {
    Seq::new(
        s.len(),
        |r: int|
            if r < half {
                F::plus(s[r], F::times(s[r + half], t(b, r)))
            } else {
                minus::<F>(s[r - half], F::times(s[r], t(b, r - half)))
            },
    )
}

/// The result of a layer with blocks of `2 * half` entries.
pub open spec fn butterfly_layer<F: Field>(
    s: Seq<F::Value>,
    half: int,
    t: spec_fn(int, int) -> F::Value,
) -> Seq<F::Value> {
    blockwise(s, 2 * half, |b: int, blk: Seq<F::Value>| butterflied::<F>(blk, half, b, t))
}

/// The same twiddle factors in each block: every `step`-th of a list.
pub open spec fn per_row<F: Field>(twiddles: Seq<F>, step: int) -> spec_fn(int, int) -> F::Value {
    |b: int, j: int| twiddles[j * step].value()
}

/// One twiddle factor for each block.
pub open spec fn per_block<F: Field>(twiddles: Seq<F>) -> spec_fn(int, int) -> F::Value {
    |b: int, j: int| twiddles[b].value()
}

/// One twiddle factor for all butterflies.
pub open spec fn uniform<F: Field>(t: F::Value) -> spec_fn(int, int) -> F::Value {
    |b: int, j: int| t
}

/// The value of the factor, where there is one.
pub open spec fn factor_value<F: Field>(scale: Option<F>) -> Option<F::Value> {
    match scale {
        Some(s) => Some(s.value()),
        None => None,
    }
}

/// The entries of a block whose butterflies take every `step`-th twiddle factor of a list, one
/// after the other. Entries for which the list is too short are left as they are.
pub open spec fn butterflied_listed<F: Field>(
    s: Seq<F::Value>,
    half: int,
    twiddles: Seq<F>,
    step: int,
) -> Seq<F::Value> {
    let t = per_row(twiddles, step);
    Seq::new(
        s.len(),
        |r: int|
            if (if r < half { r } else { r - half }) * step >= twiddles.len() {
                s[r]
            } else {
                butterflied::<F>(s, half, 0, t)[r]
            },
    )
}

/// The result of a layer with blocks of `2 * half` entries, each of which takes every `step`-th
/// twiddle factor of a list.
pub open spec fn listed_layer<F: Field>(
    s: Seq<F::Value>,
    half: int,
    twiddles: Seq<F>,
    step: int,
) -> Seq<F::Value> {
    blockwise(
        s,
        2 * half,
        |b: int, blk: Seq<F::Value>| butterflied_listed::<F>(blk, half, twiddles, step),
    )
}

/// With a list that is long enough, no entry is left as it is.
pub proof fn lemma_listed_layer_full<F: Field>(
    s: Seq<F::Value>,
    half: int,
    twiddles: Seq<F>,
    step: int,
)
    requires
        0 < half,
        0 <= step,
        s.len() as int % (2 * half) == 0,
        (half - 1) * step < twiddles.len(),
    ensures
        listed_layer::<F>(s, half, twiddles, step) == butterfly_layer::<F>(
            s,
            half,
            per_row(twiddles, step),
        ),
{
    let l = listed_layer::<F>(s, half, twiddles, step);
    let r = butterfly_layer::<F>(s, half, per_row(twiddles, step));
    assert forall|i: int| 0 <= i < s.len() implies l[i] == r[i] by {
        lemma_block_index(s.len() as int, 2 * half, i);
        lemma_block_within(s.len() as int, 2 * half, i / (2 * half));
        let o: int = i % (2 * half);
        let j: int = if o < half {
            o
        } else {
            o - half
        };
        assert(j * step <= (half - 1) * step) by (nonlinear_arith)
            requires
                0 <= j <= half - 1,
                0 <= step,
        ;
    }
    assert(l =~= r);
}

/// The result of a layer on rows in bit-reversed order: each block of `2 * half` entries for which
/// there is a twiddle factor goes through its butterflies and is multiplied by the common factor,
/// where there is one. The other blocks are left as they are.
pub open spec fn rev_layer<F: Field>(
    s: Seq<F::Value>,
    half: int,
    twiddles: Seq<F>,
    factor: Option<F::Value>,
) -> Seq<F::Value> {
    blockwise(
        s,
        2 * half,
        |b: int, blk: Seq<F::Value>|
            if b < twiddles.len() {
                scaled::<F>(butterflied::<F>(blk, half, b, per_block(twiddles)), factor)
            } else {
                blk
            },
    )
}

/// With a twiddle factor for each block, no block is left as it is.
pub proof fn lemma_rev_layer_full<F: Field>(
    s: Seq<F::Value>,
    half: int,
    twiddles: Seq<F>,
    factor: Option<F::Value>,
)
    requires
        0 < half,
        s.len() as int % (2 * half) == 0,
        s.len() as int / (2 * half) <= twiddles.len(),
    ensures
        rev_layer::<F>(s, half, twiddles, factor) == scaled::<F>(
            butterfly_layer::<F>(s, half, per_block(twiddles)),
            factor,
        ),
{
    let l = rev_layer::<F>(s, half, twiddles, factor);
    let r = scaled::<F>(butterfly_layer::<F>(s, half, per_block(twiddles)), factor);
    assert forall|i: int| 0 <= i < s.len() implies l[i] == r[i] by {
        lemma_block_index(s.len() as int, 2 * half, i);
        lemma_block_within(s.len() as int, 2 * half, i / (2 * half));
    }
    assert(l =~= r);
}

/// A layer depends on the twiddle factors of its butterflies only.
pub proof fn lemma_layer_ext<F: Field>(
    s: Seq<F::Value>,
    half: int,
    t: spec_fn(int, int) -> F::Value,
    u: spec_fn(int, int) -> F::Value,
)
    requires
        0 < half,
        s.len() as int % (2 * half) == 0,
        forall|b: int, j: int|
            0 <= b < s.len() as int / (2 * half) && 0 <= j < half ==> #[trigger] t(b, j) == u(b, j),
    ensures
        butterfly_layer::<F>(s, half, t) == butterfly_layer::<F>(s, half, u),
{
    let l = butterfly_layer::<F>(s, half, t);
    let r = butterfly_layer::<F>(s, half, u);
    assert forall|i: int| 0 <= i < s.len() implies l[i] == r[i] by {
        lemma_block_index(s.len() as int, 2 * half, i);
        lemma_block_within(s.len() as int, 2 * half, i / (2 * half));
        let b: int = i / (2 * half);
        let j: int = i % (2 * half);
        if j < half {
            assert(t(b, j) == u(b, j));
        } else {
            assert(t(b, j - half) == u(b, j - half));
        }
    }
    assert(l =~= r);
}

/// In the first layer all butterflies have the same twiddle factor.
pub proof fn lemma_first_layer<F: Field>(s: Seq<F::Value>, twiddles: Seq<F>, step: int)
    requires
        s.len() % 2 == 0,
    ensures
        butterfly_layer::<F>(s, 1, per_row(twiddles, step)) == butterfly_layer::<F>(
            s,
            1,
            uniform::<F>(twiddles[0].value()),
        ),
{
    assert forall|b: int, j: int| 0 <= j < 1 implies #[trigger] per_row(twiddles, step)(b, j)
        == uniform::<F>(twiddles[0].value())(b, j) by {
        assert(0 * step == 0);
    }
    lemma_layer_ext::<F>(s, 1, per_row(twiddles, step), uniform::<F>(twiddles[0].value()));
}

/// A layer works on each chunk of whole blocks by itself. The chunk with index `q` has its own
/// twiddle factors, from those of the block with index `q * m` on.
pub proof fn lemma_layer_chunk<F: Field>(
    s: Seq<F::Value>,
    half: int,
    t: spec_fn(int, int) -> F::Value,
    m: int,
    q: int,
    u: spec_fn(int, int) -> F::Value,
)
    requires
        0 < half,
        0 < m,
        s.len() as int % (m * (2 * half)) == 0,
        0 <= q < s.len() as int / (m * (2 * half)),
        forall|b: int, j: int|
            0 <= b < m && 0 <= j < half ==> #[trigger] u(b, j) == t(q * m + b, j),
    ensures
        block(butterfly_layer::<F>(s, half, t), m * (2 * half), q) == butterfly_layer::<F>(
            block(s, m * (2 * half), q),
            half,
            u,
        ),
{
    let d: int = 2 * half;
    let size: int = m * d;
    let n: int = s.len() as int;
    assert(0 < size) by (nonlinear_arith)
        requires
            size == m * d,
            0 < m,
            0 < d,
    ;
    lemma_block_within(n, size, q);
    let chunk = block(s, size, q);
    let l = block(butterfly_layer::<F>(s, half, t), size, q);
    let r = butterfly_layer::<F>(chunk, half, u);
    vstd::arithmetic::div_mod::lemma_mod_multiples_basic(m, d);
    vstd::arithmetic::div_mod::lemma_div_by_multiple(m, d);
    assert forall|i: int| 0 <= i < size implies l[i] == r[i] by {
        lemma_block_index(size, d, i);
        let b: int = i / d;
        let j: int = i % d;
        lemma_block_within(size, d, b);
        let g: int = q * m + b;
        assert(q * size + i == g * d + j && g * d == q * size + b * d) by (nonlinear_arith)
            requires
                size == m * d,
                g == q * m + b,
                i == b * d + j,
        ;
        lemma_block_of(q * size + i, d, g, j);
        assert(block(s, d, g) =~= block(chunk, d, b));
        if j < half {
            assert(u(b, j) == t(q * m + b, j));
        } else {
            assert(u(b, j - half) == t(q * m + b, j - half));
        }
    }
    assert(l =~= r);
}

/// A common factor goes through a layer.
pub proof fn lemma_layer_of_scaled<F: Field>(
    s: Seq<F::Value>,
    half: int,
    t: spec_fn(int, int) -> F::Value,
    factor: Option<F::Value>,
)
    requires
        0 < half,
        s.len() as int % (2 * half) == 0,
    ensures
        butterfly_layer::<F>(scaled::<F>(s, factor), half, t) == scaled::<F>(
            butterfly_layer::<F>(s, half, t),
            factor,
        ),
{
    if factor is Some {
        let a: F::Value = factor->0;
        let d: int = 2 * half;
        let u = scaled::<F>(s, factor);
        let l = butterfly_layer::<F>(u, half, t);
        let r = scaled::<F>(butterfly_layer::<F>(s, half, t), factor);
        assert forall|i: int| 0 <= i < s.len() implies l[i] == r[i] by {
            lemma_block_index(s.len() as int, d, i);
            let b: int = i / d;
            lemma_block_within(s.len() as int, d, b);
            let blk = block(s, d, b);
            assert(block(u, d, b) =~= scaled::<F>(blk, factor));
            let j: int = if i % d < half {
                i % d
            } else {
                i % d - half
            };
            lemma_scaled_butterfly::<F>(blk[j], blk[j + half], t(b, j), a);
        }
        assert(l =~= r);
    }
}

/// The entries of two stacked matrices.
proof fn lemma_entry_of_halves<F: Field>(
    lo: Seq<F>,
    hi: Seq<F>,
    width: int,
    half: int,
    j: int,
    c: int,
)
    requires
        0 <= j < half,
        0 <= c < width,
        lo.len() == half * width,
        hi.len() == half * width,
    ensures
        entry(lo + hi, width, j, c) == entry(lo, width, j, c),
        entry(lo + hi, width, half + j, c) == entry(hi, width, j, c),
        0 <= j * width + c < half * width,
{
    lemma_position(half, width, j, c);
    assert((half + j) * width + c == half * width + (j * width + c)) by (nonlinear_arith);
}

/// A matrix of `2 * half` rows consists of a lower and an upper half.
proof fn lemma_halves(len: int, width: int, half: int)
    requires
        is_shaped(len, width),
        0 <= len,
        len / width == 2 * half,
        0 < half,
    ensures
        len == 2 * (half * width),
        0 < half * width,
{
    lemma_shape(len, width);
    assert((2 * half) * width == 2 * (half * width) && 0 < half * width) by (nonlinear_arith)
        requires
            0 < half,
            0 < width,
    ;
}

/// Applies one butterfly to all pairs of rows of a block.
fn apply_to_block<F: Field, B: Butterfly<F>>(
    butterfly: &B,
    chunk: &mut [F],
    width: usize,
    half: usize,
)
    requires
        is_shaped(old(chunk)@.len() as int, width as int),
        old(chunk)@.len() as int / width as int == 2 * half,
        half > 0,
    ensures
        final(chunk)@.len() == old(chunk)@.len(),
        forall|j: int, c: int|
            0 <= j < half && 0 <= c < width ==> #[trigger] entry(final(chunk)@, width as int, j, c)
                == butterfly.first(
                entry(old(chunk)@, width as int, j, c),
                entry(old(chunk)@, width as int, half + j, c),
            ),
        forall|j: int, c: int|
            #![trigger entry(final(chunk)@, width as int, half + j, c)]
            0 <= j < half && 0 <= c < width ==> entry(final(chunk)@, width as int, half + j, c)
                == butterfly.second(
                entry(old(chunk)@, width as int, j, c),
                entry(old(chunk)@, width as int, half + j, c),
            ),
{
    let ghost w: int = width as int;
    let len: usize = chunk.len();
    proof {
        lemma_halves(len as int, w, half as int);
    }
    let ghost before = chunk@;
    let (lo, hi): (&mut [F], &mut [F]) = chunk.split_at_mut(half * width);
    let ghost lo_before = lo@;
    let ghost hi_before = hi@;
    butterfly.apply_to_rows(lo, hi);
    let ghost lo_after = lo@;
    let ghost hi_after = hi@;
    proof {
        assert(before =~= lo_before + hi_before);
        assert(chunk@ =~= lo_after + hi_after);
        assert forall|j: int, c: int| 0 <= j < half && 0 <= c < width implies #[trigger] entry(
            chunk@,
            w,
            j,
            c,
        ) == butterfly.first(entry(before, w, j, c), entry(before, w, half + j, c)) by {
            lemma_entry_of_halves(lo_before, hi_before, w, half as int, j, c);
            lemma_entry_of_halves(lo_after, hi_after, w, half as int, j, c);
        }
        assert forall|j: int, c: int|
            #![trigger entry(chunk@, w, half + j, c)]
            0 <= j < half && 0 <= c < width implies entry(chunk@, w, half + j, c)
            == butterfly.second(entry(before, w, j, c), entry(before, w, half + j, c)) by {
            lemma_entry_of_halves(lo_before, hi_before, w, half as int, j, c);
            lemma_entry_of_halves(lo_after, hi_after, w, half as int, j, c);
        }
    }
}

/// A value multiplied by a factor, where there is one.
spec fn times_factor<F: Field>(v: F::Value, factor: Option<F::Value>) -> F::Value {
    match factor {
        Some(a) => F::times(v, a),
        None => v,
    }
}

/// Gathers what is known of the entries of a column of a block.
proof fn lemma_butterflied_column<F: Field>(
    before: Seq<F>,
    after: Seq<F>,
    w: int,
    half: int,
    b: int,
    t: spec_fn(int, int) -> F::Value,
    factor: Option<F::Value>,
    c: int,
)
    requires
        is_shaped(before.len() as int, w),
        before.len() as int / w == 2 * half,
        after.len() == before.len(),
        0 <= c < w,
        forall|j: int|
            0 <= j < half ==> #[trigger] entry(after, w, j, c) == times_factor::<F>(
                F::plus(entry(before, w, j, c), F::times(entry(before, w, half + j, c), t(b, j))),
                factor,
            ),
        forall|j: int|
            #![trigger entry(after, w, half + j, c)]
            0 <= j < half ==> entry(after, w, half + j, c) == times_factor::<F>(
                minus::<F>(
                    entry(before, w, j, c),
                    F::times(entry(before, w, half + j, c), t(b, j)),
                ),
                factor,
            ),
    ensures
        column(after, w, c) == scaled::<F>(
            butterflied::<F>(column(before, w, c), half, b, t),
            factor,
        ),
{
    let l = column(after, w, c);
    let r = scaled::<F>(butterflied::<F>(column(before, w, c), half, b, t), factor);
    assert forall|i: int| 0 <= i < 2 * half implies l[i] == r[i] by {
        if i >= half {
            let j: int = i - half;
            assert(entry(after, w, half + j, c) == l[i]);
        } else {
            assert(entry(after, w, i, c) == l[i]);
        }
    }
    assert(l =~= r);
}

/// A layer whose blocks are processed with one twiddle factor each.
struct RevBlocks<'a, F> {
    twiddles: &'a [F],
    half: usize,
}

impl<'a, F: Field> ChunkOp<F> for RevBlocks<'a, F> {
    closed spec fn image(&self, b: int, c: int, s: Seq<F::Value>) -> Seq<F::Value> {
        if b < self.twiddles@.len() {
            scaled::<F>(butterflied::<F>(s, self.half as int, b, per_block(self.twiddles@)), None)
        } else {
            s
        }
    }

    closed spec fn accepts(&self, b: int, rows: int, width: int) -> bool {
        &&& self.half > 0
        &&& rows == 2 * self.half
    }

    fn process(&self, b: usize, chunk: &mut [F], width: usize) {
        let ghost before = chunk@;
        if b >= self.twiddles.len() {
            return ;
        }
        apply_to_block(&DitButterfly(self.twiddles[b]), chunk, width, self.half);
        proof {
            assert forall|c: int| 0 <= c < width implies #[trigger] column(chunk@, width as int, c)
                == self.image(b as int, c, column(before, width as int, c)) by {
                lemma_butterflied_column(
                    before,
                    chunk@,
                    width as int,
                    self.half as int,
                    b as int,
                    per_block(self.twiddles@),
                    None,
                    c,
                );
            }
        }
    }
}

/// A layer whose blocks are processed with one twiddle factor each and a common scale factor.
struct ScaledRevBlocks<'a, F> {
    twiddles: &'a [F],
    half: usize,
    scale: F,
}

impl<'a, F: Field> ChunkOp<F> for ScaledRevBlocks<'a, F> {
    closed spec fn image(&self, b: int, c: int, s: Seq<F::Value>) -> Seq<F::Value> {
        if b < self.twiddles@.len() {
            scaled::<F>(
                butterflied::<F>(s, self.half as int, b, per_block(self.twiddles@)),
                Some(self.scale.value()),
            )
        } else {
            s
        }
    }

    closed spec fn accepts(&self, b: int, rows: int, width: int) -> bool {
        &&& self.half > 0
        &&& rows == 2 * self.half
    }

    fn process(&self, b: usize, chunk: &mut [F], width: usize) {
        let ghost before = chunk@;
        if b >= self.twiddles.len() {
            return ;
        }
        let butterfly = ScaledDitButterfly::new(self.twiddles[b], self.scale);
        apply_to_block(&butterfly, chunk, width, self.half);
        proof {
            let w: int = width as int;
            let h: int = self.half as int;
            let t = per_block(self.twiddles@);
            assert forall|c: int| 0 <= c < width implies #[trigger] column(chunk@, w, c)
                == self.image(b as int, c, column(before, w, c)) by {
                assert forall|j: int| 0 <= j < h implies #[trigger] entry(chunk@, w, j, c)
                    == times_factor::<F>(
                    F::plus(
                        entry(before, w, j, c),
                        F::times(entry(before, w, h + j, c), t(b as int, j)),
                    ),
                    Some(self.scale.value()),
                ) by {
                    lemma_scaled_butterfly::<F>(
                        entry(before, w, j, c),
                        entry(before, w, h + j, c),
                        t(b as int, j),
                        self.scale.value(),
                    );
                }
                assert forall|j: int|
                    #![trigger entry(chunk@, w, h + j, c)]
                    0 <= j < h implies entry(chunk@, w, h + j, c) == times_factor::<F>(
                    minus::<F>(
                        entry(before, w, j, c),
                        F::times(entry(before, w, h + j, c), t(b as int, j)),
                    ),
                    Some(self.scale.value()),
                ) by {
                    lemma_scaled_butterfly::<F>(
                        entry(before, w, j, c),
                        entry(before, w, h + j, c),
                        t(b as int, j),
                        self.scale.value(),
                    );
                }
                lemma_butterflied_column(
                    before,
                    chunk@,
                    w,
                    h,
                    b as int,
                    t,
                    Some(self.scale.value()),
                    c,
                );
            }
        }
    }
}

/// A layer whose butterflies all have the same twiddle factor.
struct UniformBlocks<F> {
    twiddle: F,
    half: usize,
}

impl<F: Field> ChunkOp<F> for UniformBlocks<F> {
    closed spec fn image(&self, b: int, c: int, s: Seq<F::Value>) -> Seq<F::Value> {
        butterflied::<F>(s, self.half as int, b, uniform::<F>(self.twiddle.value()))
    }

    closed spec fn accepts(&self, b: int, rows: int, width: int) -> bool {
        &&& self.half > 0
        &&& rows == 2 * self.half
    }

    fn process(&self, b: usize, chunk: &mut [F], width: usize) {
        let ghost before = chunk@;
        apply_to_block(&DitButterfly(self.twiddle), chunk, width, self.half);
        proof {
            assert forall|c: int| 0 <= c < width implies #[trigger] column(chunk@, width as int, c)
                == self.image(b as int, c, column(before, width as int, c)) by {
                lemma_butterflied_column(
                    before,
                    chunk@,
                    width as int,
                    self.half as int,
                    b as int,
                    uniform::<F>(self.twiddle.value()),
                    None,
                    c,
                );
            }
        }
    }
}

/// A layer whose twiddle factors are all one.
struct TwiddleFreeBlocks {
    half: usize,
}

impl<F: Field> ChunkOp<F> for TwiddleFreeBlocks {
    closed spec fn image(&self, b: int, c: int, s: Seq<F::Value>) -> Seq<F::Value> {
        butterflied::<F>(s, self.half as int, b, uniform::<F>(F::one_value()))
    }

    closed spec fn accepts(&self, b: int, rows: int, width: int) -> bool {
        &&& self.half > 0
        &&& rows == 2 * self.half
    }

    fn process(&self, b: usize, chunk: &mut [F], width: usize) {
        let ghost before = chunk@;
        apply_to_block(&TwiddleFreeButterfly, chunk, width, self.half);
        proof {
            let w: int = width as int;
            let h: int = self.half as int;
            assert forall|c: int| 0 <= c < width implies #[trigger] column(chunk@, w, c)
                == <Self as ChunkOp<F>>::image(self, b as int, c, column(before, w, c)) by {
                assert forall|j: int| 0 <= j < h implies F::times(
                    #[trigger] entry(before, w, h + j, c),
                    F::one_value(),
                ) == entry(before, w, h + j, c) by {
                    lemma_times_one(before[(h + j) * w + c]);
                }
                lemma_butterflied_column(
                    before,
                    chunk@,
                    w,
                    h,
                    b as int,
                    uniform::<F>(F::one_value()),
                    None,
                    c,
                );
            }
        }
    }
}

/// One is neutral.
proof fn lemma_times_one<F: Field>(v: F)
    ensures
        F::times(v.value(), F::one_value()) == v.value(),
{
    v.lemma_value_is_element();
    F::lemma_times_ring(v.value(), F::one_value(), F::one_value());
}

/// Applies a butterfly to one pair of rows of a block.
fn apply_to_pair<F: Field, B: Butterfly<F>>(
    butterfly: &B,
    chunk: &mut [F],
    width: usize,
    half: usize,
    j: usize,
)
    requires
        is_shaped(old(chunk)@.len() as int, width as int),
        old(chunk)@.len() as int / width as int == 2 * half,
        j < half,
    ensures
        final(chunk)@.len() == old(chunk)@.len(),
        forall|i: int, c: int|
            0 <= i < half && 0 <= c < width ==> #[trigger] entry(final(chunk)@, width as int, i, c)
                == if i == j {
                butterfly.first(
                    entry(old(chunk)@, width as int, i, c),
                    entry(old(chunk)@, width as int, half + i, c),
                )
            } else {
                entry(old(chunk)@, width as int, i, c)
            },
        forall|i: int, c: int|
            #![trigger entry(final(chunk)@, width as int, half + i, c)]
            0 <= i < half && 0 <= c < width ==> entry(final(chunk)@, width as int, half + i, c)
                == if i == j {
                butterfly.second(
                    entry(old(chunk)@, width as int, i, c),
                    entry(old(chunk)@, width as int, half + i, c),
                )
            } else {
                entry(old(chunk)@, width as int, half + i, c)
            },
{
    let ghost w: int = width as int;
    let ghost h: int = half as int;
    let ghost a: int = j as int;
    let ghost before = chunk@;
    let len: usize = chunk.len();
    proof {
        lemma_halves(len as int, w, h);
        lemma_position(h, w, a, 0);
    }
    let (lows, highs): (&mut [F], &mut [F]) = chunk.split_at_mut(half * width);
    let ghost lows_before = lows@;
    let ghost highs_before = highs@;
    let (_, lows_rest): (&mut [F], &mut [F]) = lows.split_at_mut(j * width);
    let (lo, _): (&mut [F], &mut [F]) = lows_rest.split_at_mut(width);
    let (_, highs_rest): (&mut [F], &mut [F]) = highs.split_at_mut(j * width);
    let (hi, _): (&mut [F], &mut [F]) = highs_rest.split_at_mut(width);
    let ghost lo_before = lo@;
    let ghost hi_before = hi@;
    butterfly.apply_to_rows(lo, hi);
    let ghost lo_after = lo@;
    let ghost hi_after = hi@;
    proof {
        let lows_after = lows_before.subrange(0, a * w) + lo_after + lows_before.subrange(
            (a + 1) * w,
            h * w,
        );
        let highs_after = highs_before.subrange(0, a * w) + hi_after + highs_before.subrange(
            (a + 1) * w,
            h * w,
        );
        assert(before =~= lows_before + highs_before);
        assert(chunk@ =~= lows_after + highs_after);
        assert(lo_before =~= lows_before.subrange(a * w, (a + 1) * w));
        assert(hi_before =~= highs_before.subrange(a * w, (a + 1) * w));
        assert forall|i: int, c: int| 0 <= i < half && 0 <= c < w implies #[trigger] entry(
            chunk@,
            w,
            i,
            c,
        ) == if i == a {
            butterfly.first(entry(before, w, i, c), entry(before, w, half + i, c))
        } else {
            entry(before, w, i, c)
        } by {
            lemma_entry_of_halves(lows_before, highs_before, w, h, i, c);
            lemma_entry_of_halves(lows_after, highs_after, w, h, i, c);
            lemma_entry_of_replaced(lows_before, lo_after, lows_after, w, a, a + 1, i, c);
            if i == a {
                lemma_entry_of_rows(lows_before, w, a, a + 1, 0, c);
                lemma_entry_of_rows(highs_before, w, a, a + 1, 0, c);
                assert(entry(lo_after, w, 0, c) == lo_after[c].value());
            }
        }
        assert forall|i: int, c: int|
            #![trigger entry(chunk@, w, half + i, c)]
            0 <= i < half && 0 <= c < w implies entry(chunk@, w, half + i, c) == if i == a {
            butterfly.second(entry(before, w, i, c), entry(before, w, half + i, c))
        } else {
            entry(before, w, half + i, c)
        } by {
            lemma_entry_of_halves(lows_before, highs_before, w, h, i, c);
            lemma_entry_of_halves(lows_after, highs_after, w, h, i, c);
            lemma_entry_of_replaced(highs_before, hi_after, highs_after, w, a, a + 1, i, c);
            if i == a {
                lemma_entry_of_rows(lows_before, w, a, a + 1, 0, c);
                lemma_entry_of_rows(highs_before, w, a, a + 1, 0, c);
                assert(entry(hi_after, w, 0, c) == hi_after[c].value());
            }
        }
    }
}

/// The number of pairs of rows that find a twiddle factor when they take every `step`-th of `len`.
fn listed_count(len: usize, step: usize) -> (n: usize)
    requires
        step > 0,
    ensures
        forall|j: int| 0 <= j ==> (j < n <==> #[trigger] (j * step) < len),
{
    let n: usize = if len == 0 {
        0
    } else {
        (len - 1) / step + 1
    };
    proof {
        let d: int = step as int;
        assert forall|j: int| 0 <= j implies (j < n <==> #[trigger] (j * step) < len) by {
            if len == 0 {
                assert(0 <= j * d) by (nonlinear_arith)
                    requires
                        0 <= j,
                        0 < d,
                ;
            } else {
                let q: int = (len - 1) as int / d;
                let o: int = (len - 1) as int % d;
                vstd::arithmetic::div_mod::lemma_fundamental_div_mod(len - 1, d);
                assert(j <= q <==> j * d <= len - 1) by (nonlinear_arith)
                    requires
                        len - 1 == d * q + o,
                        0 <= o < d,
                        0 < d,
                ;
            }
        }
    }
    n
}

/// Applies butterflies to the pairs of rows of a block, from the pair with index `from` on. The
/// twiddle factors are every `step`-th of a list, counted from the first pair. Pairs for which the
/// list is too short are left as they are.
fn apply_to_row_pairs<F: Field>(
    chunk: &mut [F],
    width: usize,
    half: usize,
    twiddles: &[F],
    step: usize,
    from: usize,
)
    requires
        is_shaped(old(chunk)@.len() as int, width as int),
        old(chunk)@.len() as int / width as int == 2 * half,
        half > 0,
        step > 0,
    ensures
        final(chunk)@.len() == old(chunk)@.len(),
        forall|j: int, c: int|
            0 <= j < half && 0 <= c < width ==> #[trigger] entry(final(chunk)@, width as int, j, c)
                == if j < from || j * step >= twiddles@.len() {
                entry(old(chunk)@, width as int, j, c)
            } else {
                F::plus(
                    entry(old(chunk)@, width as int, j, c),
                    F::times(
                        entry(old(chunk)@, width as int, half + j, c),
                        per_row(twiddles@, step as int)(0, j),
                    ),
                )
            },
        forall|j: int, c: int|
            #![trigger entry(final(chunk)@, width as int, half + j, c)]
            0 <= j < half && 0 <= c < width ==> entry(final(chunk)@, width as int, half + j, c)
                == if j < from || j * step >= twiddles@.len() {
                entry(old(chunk)@, width as int, half + j, c)
            } else {
                minus::<F>(
                    entry(old(chunk)@, width as int, j, c),
                    F::times(
                        entry(old(chunk)@, width as int, half + j, c),
                        per_row(twiddles@, step as int)(0, j),
                    ),
                )
            },
{
    let ghost w: int = width as int;
    let ghost h: int = half as int;
    let ghost t = per_row(twiddles@, step as int);
    let num_twiddles: usize = twiddles.len();
    let count: usize = listed_count(num_twiddles, step);
    let mut j: usize = from;
    while j < half && j < count
        invariant
            w == width,
            h == half,
            t == per_row(twiddles@, step as int),
            is_shaped(old(chunk)@.len() as int, w),
            old(chunk)@.len() as int / w == 2 * h,
            chunk@.len() == old(chunk)@.len(),
            from <= j,
            num_twiddles == twiddles@.len(),
            forall|i: int| 0 <= i ==> (i < count <==> #[trigger] (i * step) < num_twiddles),
            forall|i: int, c: int|
                0 <= i < h && 0 <= c < w ==> #[trigger] entry(chunk@, w, i, c) == if i < from || i
                    >= j {
                    entry(old(chunk)@, w, i, c)
                } else {
                    F::plus(
                        entry(old(chunk)@, w, i, c),
                        F::times(entry(old(chunk)@, w, h + i, c), t(0, i)),
                    )
                },
            forall|i: int, c: int|
                #![trigger entry(chunk@, w, h + i, c)]
                0 <= i < h && 0 <= c < w ==> entry(chunk@, w, h + i, c) == if i < from || i >= j {
                    entry(old(chunk)@, w, h + i, c)
                } else {
                    minus::<F>(
                        entry(old(chunk)@, w, i, c),
                        F::times(entry(old(chunk)@, w, h + i, c), t(0, i)),
                    )
                },
            from <= count ==> j <= count,
            from > count ==> j == from,
        decreases half - j,
    {
        let ghost before = chunk@;
        proof {
            let i: int = j as int;
            assert(0 <= i * step < num_twiddles) by {
                assert(0 <= i * step) by (nonlinear_arith)
                    requires
                        0 <= i,
                        0 <= step,
                ;
            }
        }
        apply_to_pair(&DitButterfly(twiddles[j * step]), chunk, width, half, j);
        proof {
            assert forall|c: int| 0 <= c < w implies entry(before, w, j as int, c) == entry(
                old(chunk)@,
                w,
                j as int,
                c,
            ) && #[trigger] entry(before, w, h + j, c) == entry(old(chunk)@, w, h + j, c) by {}
        }
        j = j + 1;
    }
}

/// Gathers what is known of the entries of a column of a block whose twiddle factors are found in a
/// list.
proof fn lemma_listed_column<F: Field>(
    before: Seq<F>,
    after: Seq<F>,
    w: int,
    half: int,
    twiddles: Seq<F>,
    step: int,
    c: int,
)
    requires
        is_shaped(before.len() as int, w),
        before.len() as int / w == 2 * half,
        after.len() == before.len(),
        0 <= c < w,
        forall|j: int|
            0 <= j < half ==> #[trigger] entry(after, w, j, c) == if j * step >= twiddles.len() {
                entry(before, w, j, c)
            } else {
                F::plus(
                    entry(before, w, j, c),
                    F::times(entry(before, w, half + j, c), per_row(twiddles, step)(0, j)),
                )
            },
        forall|j: int|
            #![trigger entry(after, w, half + j, c)]
            0 <= j < half ==> entry(after, w, half + j, c) == if j * step >= twiddles.len() {
                entry(before, w, half + j, c)
            } else {
                minus::<F>(
                    entry(before, w, j, c),
                    F::times(entry(before, w, half + j, c), per_row(twiddles, step)(0, j)),
                )
            },
    ensures
        column(after, w, c) == butterflied_listed::<F>(column(before, w, c), half, twiddles, step),
{
    let l = column(after, w, c);
    let r = butterflied_listed::<F>(column(before, w, c), half, twiddles, step);
    assert forall|i: int| 0 <= i < 2 * half implies l[i] == r[i] by {
        if i >= half {
            let j: int = i - half;
            assert(entry(after, w, half + j, c) == l[i]);
        } else {
            assert(entry(after, w, i, c) == l[i]);
        }
    }
    assert(l =~= r);
}

/// A layer with the same twiddle factors in each block.
struct DitBlocks<'a, F> {
    twiddles: &'a [F],
    half: usize,
}

impl<'a, F: Field> ChunkOp<F> for DitBlocks<'a, F> {
    closed spec fn image(&self, b: int, c: int, s: Seq<F::Value>) -> Seq<F::Value> {
        butterflied_listed::<F>(s, self.half as int, self.twiddles@, 1)
    }

    closed spec fn accepts(&self, b: int, rows: int, width: int) -> bool {
        &&& self.half > 0
        &&& rows == 2 * self.half
    }

    fn process(&self, b: usize, chunk: &mut [F], width: usize) {
        let ghost before = chunk@;
        apply_to_row_pairs(chunk, width, self.half, self.twiddles, 1, 0);
        proof {
            assert forall|c: int| 0 <= c < width implies #[trigger] column(chunk@, width as int, c)
                == self.image(b as int, c, column(before, width as int, c)) by {
                lemma_listed_column(
                    before,
                    chunk@,
                    width as int,
                    self.half as int,
                    self.twiddles@,
                    1,
                    c,
                );
            }
        }
    }
}

/// A layer with the same twiddle factors in each block, of which the first is one.
struct FirstOneBlocks<'a, F> {
    twiddles: &'a [F],
    step: usize,
    half: usize,
}

impl<'a, F: Field> ChunkOp<F> for FirstOneBlocks<'a, F> {
    closed spec fn image(&self, b: int, c: int, s: Seq<F::Value>) -> Seq<F::Value> {
        butterflied_listed::<F>(s, self.half as int, self.twiddles@, self.step as int)
    }

    closed spec fn accepts(&self, b: int, rows: int, width: int) -> bool {
        &&& self.half > 0
        &&& rows == 2 * self.half
        &&& self.step > 0
        &&& self.twiddles@.len() > 0
        &&& self.twiddles@[0].value() == F::one_value()
    }

    fn process(&self, b: usize, chunk: &mut [F], width: usize) {
        let ghost w: int = width as int;
        let ghost h: int = self.half as int;
        let ghost before = chunk@;
        apply_to_pair(&TwiddleFreeButterfly, chunk, width, self.half, 0);
        let ghost middle = chunk@;
        apply_to_row_pairs(chunk, width, self.half, self.twiddles, self.step, 1);
        proof {
            let tw = self.twiddles@;
            let step: int = self.step as int;
            let t = per_row(tw, step);
            assert(0 * step == 0);
            assert(t(0, 0) == F::one_value());
            assert forall|c: int| 0 <= c < width implies #[trigger] column(chunk@, w, c)
                == self.image(b as int, c, column(before, w, c)) by {
                lemma_times_one(before[(h + 0) * w + c]);
                assert forall|j: int| 0 <= j < h implies #[trigger] entry(chunk@, w, j, c) == if j
                    * step >= tw.len() {
                    entry(before, w, j, c)
                } else {
                    F::plus(
                        entry(before, w, j, c),
                        F::times(entry(before, w, h + j, c), t(0, j)),
                    )
                } by {
                    assert(j > 0 ==> entry(middle, w, j, c) == entry(before, w, j, c));
                    assert(j > 0 ==> entry(middle, w, h + j, c) == entry(before, w, h + j, c));
                }
                assert forall|j: int|
                    #![trigger entry(chunk@, w, h + j, c)]
                    0 <= j < h implies entry(chunk@, w, h + j, c) == if j * step >= tw.len() {
                    entry(before, w, h + j, c)
                } else {
                    minus::<F>(
                        entry(before, w, j, c),
                        F::times(entry(before, w, h + j, c), t(0, j)),
                    )
                } by {
                    assert(j > 0 ==> entry(middle, w, j, c) == entry(before, w, j, c));
                    assert(j > 0 ==> entry(middle, w, h + j, c) == entry(before, w, h + j, c));
                }
                lemma_listed_column(before, chunk@, w, h, tw, step, c);
            }
        }
    }
}

/// One layer whose twiddle factors are all one: adjacent rows are paired.
pub(crate) fn dit_layer_twiddle_free<F: Field>(submat: &mut [F], width: usize, backwards: bool)
    requires
        is_shaped(old(submat)@.len() as int, width as int),
        (old(submat)@.len() as int / width as int) % 2 == 0,
    ensures
        final(submat)@.len() == old(submat)@.len(),
        forall|c: int|
            0 <= c < width ==> #[trigger] column(final(submat)@, width as int, c)
                == butterfly_layer::<F>(
                column(old(submat)@, width as int, c),
                1,
                uniform::<F>(F::one_value()),
            ),
{
    let ghost before = submat@;
    let op = TwiddleFreeBlocks { half: 1 };
    for_each_row_chunk(&op, submat, width, 2, backwards);
    proof {
        let h: int = 1;
        let t = uniform::<F>(F::one_value());
        assert forall|c: int| 0 <= c < width implies #[trigger] column(submat@, width as int, c)
            == butterfly_layer::<F>(column(before, width as int, c), h, t) by {
            let f = |b: int, blk: Seq<F::Value>| butterflied::<F>(blk, h, b, t);
            let image = |b: int, s: Seq<F::Value>|
                <TwiddleFreeBlocks as ChunkOp<F>>::image(&op, b, c, s);
            assert(image =~= f);
        }
    }
}

/// One layer with blocks of `2^(layer + 1)` rows, whose twiddle factors are, in each block, every
/// `step`-th of a list. The first of the list is one, so that the first pair of rows of each block
/// needs no multiplication. Pairs for which the list is too short are left as they are.
pub(crate) fn dit_layer_first_one<F: Field>(
    submat: &mut [F],
    width: usize,
    layer: usize,
    twiddles: &[F],
    step: usize,
    backwards: bool,
)
    requires
        is_shaped(old(submat)@.len() as int, width as int),
        pow2(layer as nat + 1) <= usize::MAX,
        (old(submat)@.len() as int / width as int) % (pow2(layer as nat + 1) as int) == 0,
        step > 0,
        twiddles@.len() > 0,
        twiddles@[0].value() == F::one_value(),
    ensures
        final(submat)@.len() == old(submat)@.len(),
        forall|c: int|
            0 <= c < width ==> #[trigger] column(final(submat)@, width as int, c)
                == listed_layer::<F>(
                column(old(submat)@, width as int, c),
                pow2(layer as nat) as int,
                twiddles@,
                step as int,
            ),
{
    proof {
        lemma_pow2_step(layer as nat);
    }
    let half: usize = two_to_the(layer);
    let ghost before = submat@;
    let op = FirstOneBlocks { twiddles, step, half };
    for_each_row_chunk(&op, submat, width, half * 2, backwards);
    proof {
        let h: int = pow2(layer as nat) as int;
        let tw = twiddles@;
        assert forall|c: int| 0 <= c < width implies #[trigger] column(submat@, width as int, c)
            == listed_layer::<F>(column(before, width as int, c), h, tw, step as int) by {
            let f = |b: int, blk: Seq<F::Value>|
                butterflied_listed::<F>(blk, h, tw, step as int);
            assert((|b: int, s: Seq<F::Value>| op.image(b, c, s)) =~= f);
        }
    }
}

/// One layer in which adjacent rows are paired, with the same twiddle factor for all pairs.
pub(crate) fn dit_layer_uniform_twiddle<F: Field>(
    submat: &mut [F],
    width: usize,
    twiddle: F,
    backwards: bool,
)
    requires
        is_shaped(old(submat)@.len() as int, width as int),
        (old(submat)@.len() as int / width as int) % 2 == 0,
    ensures
        final(submat)@.len() == old(submat)@.len(),
        forall|c: int|
            0 <= c < width ==> #[trigger] column(final(submat)@, width as int, c)
                == butterfly_layer::<F>(
                column(old(submat)@, width as int, c),
                1,
                uniform::<F>(twiddle.value()),
            ),
{
    let ghost before = submat@;
    let op = UniformBlocks { twiddle, half: 1 };
    for_each_row_chunk(&op, submat, width, 2, backwards);
    proof {
        let h: int = 1;
        let t = uniform::<F>(twiddle.value());
        assert forall|c: int| 0 <= c < width implies #[trigger] column(submat@, width as int, c)
            == butterfly_layer::<F>(column(before, width as int, c), h, t) by {
            let f = |b: int, blk: Seq<F::Value>| butterflied::<F>(blk, h, b, t);
            assert((|b: int, s: Seq<F::Value>| op.image(b, c, s)) =~= f);
        }
    }
}

/// One layer with blocks of `2^(layer + 1)` rows and the same twiddle factors in each block. Pairs
/// of rows for which the list is too short are left as they are.
pub(crate) fn dit_layer<F: Field>(
    submat: &mut [F],
    width: usize,
    layer: usize,
    twiddles: &[F],
    backwards: bool,
)
    requires
        is_shaped(old(submat)@.len() as int, width as int),
        pow2(layer as nat + 1) <= usize::MAX,
        (old(submat)@.len() as int / width as int) % (pow2(layer as nat + 1) as int) == 0,
    ensures
        final(submat)@.len() == old(submat)@.len(),
        forall|c: int|
            0 <= c < width ==> #[trigger] column(final(submat)@, width as int, c)
                == listed_layer::<F>(
                column(old(submat)@, width as int, c),
                pow2(layer as nat) as int,
                twiddles@,
                1,
            ),
{
    proof {
        lemma_pow2_step(layer as nat);
    }
    let half: usize = two_to_the(layer);
    let ghost before = submat@;
    let op = DitBlocks { twiddles, half };
    for_each_row_chunk(&op, submat, width, half * 2, backwards);
    proof {
        let h: int = pow2(layer as nat) as int;
        let tw = twiddles@;
        assert forall|c: int| 0 <= c < width implies #[trigger] column(submat@, width as int, c)
            == listed_layer::<F>(column(before, width as int, c), h, tw, 1) by {
            let f = |b: int, blk: Seq<F::Value>|
                butterflied_listed::<F>(blk, h, tw, 1);
            assert((|b: int, s: Seq<F::Value>| op.image(b, c, s)) =~= f);
        }
    }
}

/// One layer of a network of `2^log_h` rows in bit-reversed order: blocks of `2^(log_h - layer)`
/// rows with one twiddle factor each. Blocks for which there is no twiddle factor are left as they
/// are.
pub(crate) fn dit_layer_rev<F: Field>(
    submat: &mut [F],
    width: usize,
    log_h: usize,
    layer: usize,
    twiddles_rev: &[F],
    backwards: bool,
)
    requires
        is_shaped(old(submat)@.len() as int, width as int),
        layer < log_h,
        pow2((log_h - layer) as nat) <= usize::MAX,
        (old(submat)@.len() as int / width as int) % (pow2((log_h - layer) as nat) as int) == 0,
    ensures
        final(submat)@.len() == old(submat)@.len(),
        forall|c: int|
            0 <= c < width ==> #[trigger] column(final(submat)@, width as int, c) == rev_layer::<F>(
                column(old(submat)@, width as int, c),
                pow2((log_h - 1 - layer) as nat) as int,
                twiddles_rev@,
                None,
            ),
{
    proof {
        lemma_pow2_step((log_h - 1 - layer) as nat);
    }
    let half: usize = two_to_the(log_h - 1 - layer);
    let ghost before = submat@;
    let op = RevBlocks { twiddles: twiddles_rev, half };
    for_each_row_chunk(&op, submat, width, half * 2, backwards);
    proof {
        let h: int = pow2((log_h - 1 - layer) as nat) as int;
        let tw = twiddles_rev@;
        let factor: Option<F::Value> = None;
        assert forall|c: int| 0 <= c < width implies #[trigger] column(submat@, width as int, c)
            == rev_layer::<F>(column(before, width as int, c), h, tw, factor) by {
            let f = |b: int, blk: Seq<F::Value>|
                if b < tw.len() {
                    scaled::<F>(butterflied::<F>(blk, h, b, per_block(tw)), factor)
                } else {
                    blk
                };
            assert((|b: int, s: Seq<F::Value>| op.image(b, c, s)) =~= f);
        }
    }
}

/// The last layer of a network in bit-reversed order: adjacent rows are paired, with one twiddle
/// factor for each pair. Pairs for which there is no twiddle factor are left as they are.
pub(crate) fn dit_layer_rev_last<F: Field>(submat: &mut [F], width: usize, twiddles: &[F])
    requires
        is_shaped(old(submat)@.len() as int, width as int),
        (old(submat)@.len() as int / width as int) % 2 == 0,
    ensures
        final(submat)@.len() == old(submat)@.len(),
        forall|c: int|
            0 <= c < width ==> #[trigger] column(final(submat)@, width as int, c) == rev_layer::<F>(
                column(old(submat)@, width as int, c),
                1,
                twiddles@,
                None,
            ),
{
    let ghost before = submat@;
    let op = RevBlocks { twiddles, half: 1 };
    for_each_row_chunk(&op, submat, width, 2, false);
    proof {
        let h: int = 1;
        let tw = twiddles@;
        let factor: Option<F::Value> = None;
        assert forall|c: int| 0 <= c < width implies #[trigger] column(submat@, width as int, c)
            == rev_layer::<F>(column(before, width as int, c), h, tw, factor) by {
            let f = |b: int, blk: Seq<F::Value>|
                if b < tw.len() {
                    scaled::<F>(butterflied::<F>(blk, h, b, per_block(tw)), factor)
                } else {
                    blk
                };
            assert((|b: int, s: Seq<F::Value>| op.image(b, c, s)) =~= f);
        }
    }
}

/// One layer like [`dit_layer_rev`] with the results multiplied by a factor, which is folded into
/// the butterflies.
pub(crate) fn dit_layer_rev_times<F: Field>(
    submat: &mut [F],
    width: usize,
    log_h: usize,
    layer: usize,
    twiddles_rev: &[F],
    backwards: bool,
    scale: F,
)
    requires
        is_shaped(old(submat)@.len() as int, width as int),
        layer < log_h,
        pow2((log_h - layer) as nat) <= usize::MAX,
        (old(submat)@.len() as int / width as int) % (pow2((log_h - layer) as nat) as int) == 0,
    ensures
        final(submat)@.len() == old(submat)@.len(),
        forall|c: int|
            0 <= c < width ==> #[trigger] column(final(submat)@, width as int, c) == rev_layer::<F>(
                column(old(submat)@, width as int, c),
                pow2((log_h - 1 - layer) as nat) as int,
                twiddles_rev@,
                Some(scale.value()),
            ),
{
    proof {
        lemma_pow2_step((log_h - 1 - layer) as nat);
    }
    let half: usize = two_to_the(log_h - 1 - layer);
    let ghost before = submat@;
    let op = ScaledRevBlocks { twiddles: twiddles_rev, half, scale };
    for_each_row_chunk(&op, submat, width, half * 2, backwards);
    proof {
        let h: int = pow2((log_h - 1 - layer) as nat) as int;
        let tw = twiddles_rev@;
        let factor: Option<F::Value> = Some(scale.value());
        assert forall|c: int| 0 <= c < width implies #[trigger] column(submat@, width as int, c)
            == rev_layer::<F>(column(before, width as int, c), h, tw, factor) by {
            let f = |b: int, blk: Seq<F::Value>|
                if b < tw.len() {
                    scaled::<F>(butterflied::<F>(blk, h, b, per_block(tw)), factor)
                } else {
                    blk
                };
            assert((|b: int, s: Seq<F::Value>| op.image(b, c, s)) =~= f);
        }
    }
}

/// Like [`dit_layer_rev`], with the results multiplied by a factor where there is one. Blocks for
/// which there is no twiddle factor are not multiplied.
pub(crate) fn dit_layer_rev_scaled<F: Field>(
    submat: &mut [F],
    width: usize,
    log_h: usize,
    layer: usize,
    twiddles_rev: &[F],
    backwards: bool,
    scale: Option<F>,
)
    requires
        is_shaped(old(submat)@.len() as int, width as int),
        layer < log_h,
        pow2((log_h - layer) as nat) <= usize::MAX,
        (old(submat)@.len() as int / width as int) % (pow2((log_h - layer) as nat) as int) == 0,
    ensures
        final(submat)@.len() == old(submat)@.len(),
        forall|c: int|
            0 <= c < width ==> #[trigger] column(final(submat)@, width as int, c) == rev_layer::<F>(
                column(old(submat)@, width as int, c),
                pow2((log_h - 1 - layer) as nat) as int,
                twiddles_rev@,
                factor_value(scale),
            ),
{
    match scale {
        None => dit_layer_rev(submat, width, log_h, layer, twiddles_rev, backwards),
        Some(s) => dit_layer_rev_times(submat, width, log_h, layer, twiddles_rev, backwards, s),
    }
}

/// A layer with the same twiddle factors in each block, whose inputs are read from another matrix.
struct OopBlocks<'a, F> {
    src: &'a [F],
    width: usize,
    twiddles: &'a [F],
    half: usize,
}

impl<'a, F: Field> ChunkOp<F> for OopBlocks<'a, F> {
    closed spec fn image(&self, b: int, c: int, s: Seq<F::Value>) -> Seq<F::Value> {
        butterflied::<F>(
            block(column(self.src@, self.width as int, c), 2 * self.half as int, b),
            self.half as int,
            b,
            per_row(self.twiddles@, 1),
        )
    }

    closed spec fn accepts(&self, b: int, rows: int, width: int) -> bool {
        &&& self.half > 0
        &&& rows == 2 * self.half
        &&& self.half <= self.twiddles@.len()
        &&& width == self.width
        &&& is_shaped(self.src@.len() as int, width)
        &&& 0 <= b
        &&& (b + 1) * (2 * self.half) <= self.src@.len() as int / width
    }

    fn process(&self, b: usize, chunk: &mut [F], width: usize) {
        let ghost w: int = width as int;
        let ghost h: int = self.half as int;
        let ghost t = per_row(self.twiddles@, 1);
        let half: usize = self.half;
        let len: usize = chunk.len();
        let src_len: usize = self.src.len();
        let ghost a: int = b * (2 * h);
        let ghost e: int = a + 2 * h;
        let ghost rows: int = src_len as int / w;
        proof {
            lemma_halves(len as int, w, h);
            lemma_shape(src_len as int, w);
            assert(b * len == a * w && a * w + len == e * w && 0 <= a * w && e * w <= src_len
                && e == (b + 1) * (2 * h)) by (nonlinear_arith)
                requires
                    a == b * (2 * h),
                    e == a + 2 * h,
                    len == 2 * (h * w),
                    (b + 1) * (2 * h) <= rows,
                    src_len == rows * w,
                    0 <= b,
                    0 < h,
                    0 < w,
            ;
        }
        let src_block: &[F] = slice_subrange(self.src, b * len, b * len + len);
        let ghost sb = src_block@;
        let mut j: usize = 0;
        while j < half
            invariant
                w == width,
                h == half,
                half == self.half,
                half > 0,
                width > 0,
                t == per_row(self.twiddles@, 1),
                half <= self.twiddles@.len(),
                len == 2 * (h * w),
                chunk@.len() == len,
                sb == src_block@,
                sb.len() == len,
                0 <= j <= half,
                forall|i: int, c: int|
                    0 <= i < j && 0 <= c < w ==> #[trigger] entry(chunk@, w, i, c) == F::plus(
                        entry(sb, w, i, c),
                        F::times(entry(sb, w, h + i, c), t(0, i)),
                    ),
                forall|i: int, c: int|
                    #![trigger entry(chunk@, w, h + i, c)]
                    0 <= i < j && 0 <= c < w ==> entry(chunk@, w, h + i, c) == minus::<F>(
                        entry(sb, w, i, c),
                        F::times(entry(sb, w, h + i, c), t(0, i)),
                    ),
            decreases half - j,
        {
            let ghost before = chunk@;
            let ghost k: int = j as int;
            proof {
                lemma_position(h, w, k, 0);
            }
            let (src_lows, src_highs): (&[F], &[F]) = src_block.split_at(half * width);
            let src_lo: &[F] = slice_subrange(src_lows, j * width, j * width + width);
            let src_hi: &[F] = slice_subrange(src_highs, j * width, j * width + width);
            let (lows, highs): (&mut [F], &mut [F]) = chunk.split_at_mut(half * width);
            let ghost lows_before = lows@;
            let ghost highs_before = highs@;
            let (_, lows_rest): (&mut [F], &mut [F]) = lows.split_at_mut(j * width);
            let (lo, _): (&mut [F], &mut [F]) = lows_rest.split_at_mut(width);
            let (_, highs_rest): (&mut [F], &mut [F]) = highs.split_at_mut(j * width);
            let (hi, _): (&mut [F], &mut [F]) = highs_rest.split_at_mut(width);
            DitButterfly(self.twiddles[j]).apply_to_rows_oop(src_lo, lo, src_hi, hi);
            let ghost lo_after = lo@;
            let ghost hi_after = hi@;
            proof {
                let lows_after = lows_before.subrange(0, k * w) + lo_after + lows_before.subrange(
                    (k + 1) * w,
                    h * w,
                );
                let highs_after = highs_before.subrange(0, k * w) + hi_after
                    + highs_before.subrange((k + 1) * w, h * w);
                assert(before =~= lows_before + highs_before);
                assert(chunk@ =~= lows_after + highs_after);
                assert(sb =~= src_lows@ + src_highs@);
                assert(src_lo@ =~= src_lows@.subrange(k * w, (k + 1) * w));
                assert(src_hi@ =~= src_highs@.subrange(k * w, (k + 1) * w));
                assert(t(0, k) == self.twiddles@[k].value());
                assert forall|i: int, c: int| 0 <= i < k + 1 && 0 <= c < w implies #[trigger] entry(
                    chunk@,
                    w,
                    i,
                    c,
                ) == F::plus(
                    entry(sb, w, i, c),
                    F::times(entry(sb, w, h + i, c), t(0, i)),
                ) by {
                    lemma_entry_of_halves(src_lows@, src_highs@, w, h, i, c);
                    lemma_entry_of_halves(lows_before, highs_before, w, h, i, c);
                    lemma_entry_of_halves(lows_after, highs_after, w, h, i, c);
                    lemma_entry_of_replaced(lows_before, lo_after, lows_after, w, k, k + 1, i, c);
                    if i == k {
                        lemma_entry_of_rows(src_lows@, w, k, k + 1, 0, c);
                        lemma_entry_of_rows(src_highs@, w, k, k + 1, 0, c);
                        assert(entry(lo_after, w, 0, c) == lo_after[c].value());
                    } else {
                        assert(entry(before, w, i, c) == entry(lows_before, w, i, c));
                    }
                }
                assert forall|i: int, c: int|
                    #![trigger entry(chunk@, w, h + i, c)]
                    0 <= i < k + 1 && 0 <= c < w implies entry(chunk@, w, h + i, c) == minus::<F>(
                    entry(sb, w, i, c),
                    F::times(entry(sb, w, h + i, c), t(0, i)),
                ) by {
                    lemma_entry_of_halves(src_lows@, src_highs@, w, h, i, c);
                    lemma_entry_of_halves(lows_before, highs_before, w, h, i, c);
                    lemma_entry_of_halves(lows_after, highs_after, w, h, i, c);
                    lemma_entry_of_replaced(highs_before, hi_after, highs_after, w, k, k + 1, i, c);
                    if i == k {
                        lemma_entry_of_rows(src_lows@, w, k, k + 1, 0, c);
                        lemma_entry_of_rows(src_highs@, w, k, k + 1, 0, c);
                        assert(entry(hi_after, w, 0, c) == hi_after[c].value());
                    } else {
                        assert(entry(before, w, h + i, c) == entry(highs_before, w, i, c));
                    }
                }
            }
            j = j + 1;
        }
        proof {
            assert forall|c: int| 0 <= c < width implies #[trigger] column(chunk@, w, c)
                == butterflied::<F>(
                block(column(self.src@, w, c), 2 * h, b as int),
                h,
                b as int,
                t,
            ) by {
                lemma_butterflied_column(sb, chunk@, w, h, b as int, t, None, c);
                let l = column(sb, w, c);
                let r = block(column(self.src@, w, c), 2 * h, b as int);
                assert forall|i: int| 0 <= i < 2 * h implies l[i] == r[i] by {
                    lemma_entry_of_rows(self.src@, w, a, e, i, c);
                }
                assert(l =~= r);
            }
        }
    }
}

/// Like [`dit_layer`], except that the inputs are read from one matrix and the results are stored
/// in another.
pub(crate) fn dit_layer_oop<F: Field>(
    src: &[F],
    dst: &mut [F],
    width: usize,
    layer: usize,
    twiddles: &[F],
)
    requires
        is_shaped(src@.len() as int, width as int),
        old(dst)@.len() == src@.len(),
        pow2(layer as nat + 1) <= usize::MAX,
        (src@.len() as int / width as int) % (pow2(layer as nat + 1) as int) == 0,
        pow2(layer as nat) <= twiddles@.len(),
    ensures
        final(dst)@.len() == src@.len(),
        forall|c: int|
            0 <= c < width ==> #[trigger] column(final(dst)@, width as int, c)
                == butterfly_layer::<F>(
                column(src@, width as int, c),
                pow2(layer as nat) as int,
                per_row(twiddles@, 1),
            ),
{
    proof {
        lemma_pow2_step(layer as nat);
    }
    let half: usize = two_to_the(layer);
    let op = OopBlocks { src, width, twiddles, half };
    let ghost rows: int = 2 * half as int;
    let ghost height: int = src@.len() as int / width as int;
    proof {
        assert forall|b: int| 0 <= b < height / rows implies #[trigger] op.accepts(
            b,
            rows,
            width as int,
        ) by {
            lemma_shape(src@.len() as int, width as int);
            lemma_block_within(height, rows, b);
        }
    }
    for_each_row_chunk(&op, dst, width, half * 2, false);
    proof {
        assert forall|c: int| 0 <= c < width implies #[trigger] column(dst@, width as int, c)
            == butterfly_layer::<F>(
            column(src@, width as int, c),
            half as int,
            per_row(twiddles@, 1),
        ) by {
            assert(column(dst@, width as int, c) =~= butterfly_layer::<F>(
                column(src@, width as int, c),
                half as int,
                per_row(twiddles@, 1),
            ));
        }
    }
}

} // verus!
