//! The last two layers of a network in bit-reversed order, done in one pass over the rows.

use vstd::prelude::*;
use crate::algebra::{lemma_scaled_butterfly, minus};
use crate::chunks::{
    block, blockwise, for_each_row_chunk, lemma_block_index, lemma_block_of, lemma_block_within,
    ChunkOp,
};
use crate::field::Field;
use crate::layers::{butterflied, butterfly_layer, factor_value, per_block};
use crate::matrix::{column, is_shaped, lemma_height, lemma_shape};
use crate::polynomial::scaled;

verus! {

/// What becomes of four entries: first those two places apart go through butterflies with the
/// twiddle factor `t1`, then the first two with `t0_a` and the last two with `t0_b`.
pub open spec fn fused_quad<F: Field>(
    s: Seq<F::Value>,
    t1: F::Value,
    t0_a: F::Value,
    t0_b: F::Value,
) -> Seq<F::Value> {
    let n0: F::Value = F::plus(s[0], F::times(s[2], t1));
    let n1: F::Value = F::plus(s[1], F::times(s[3], t1));
    let n2: F::Value = minus::<F>(s[0], F::times(s[2], t1));
    let n3: F::Value = minus::<F>(s[1], F::times(s[3], t1));
    seq![
        F::plus(n0, F::times(n1, t0_a)),
        minus::<F>(n0, F::times(n1, t0_a)),
        F::plus(n2, F::times(n3, t0_b)),
        minus::<F>(n2, F::times(n3, t0_b)),
    ]
}

/// The last two layers: blocks of four entries with one twiddle factor each, then blocks of two
/// entries with one twiddle factor each.
pub open spec fn last_two_layers<F: Field>(
    s: Seq<F::Value>,
    twiddles1: Seq<F>,
    twiddles0: Seq<F>,
) -> Seq<F::Value> {
    butterfly_layer::<F>(butterfly_layer::<F>(s, 2, per_block(twiddles1)), 1, per_block(twiddles0))
}

/// What becomes of the blocks of four entries in one fused pass: each for which there are twiddle
/// factors, one of the first list and two of the second, goes through both layers and is multiplied
/// by the common factor, where there is one. The other blocks are left as they are.
pub open spec fn fused_block<F: Field>(
    twiddles1: Seq<F>,
    twiddles0: Seq<F>,
    factor: Option<F::Value>,
) -> spec_fn(int, Seq<F::Value>) -> Seq<F::Value> {
    |b: int, s: Seq<F::Value>|
        if b < twiddles1.len() && 2 * b + 1 < twiddles0.len() {
            scaled::<F>(
                fused_quad::<F>(
                    s,
                    twiddles1[b].value(),
                    twiddles0[2 * b].value(),
                    twiddles0[2 * b + 1].value(),
                ),
                factor,
            )
        } else {
            s
        }
}

/// The result of a fused pass over all blocks of four entries.
pub open spec fn fused_layers<F: Field>(
    s: Seq<F::Value>,
    twiddles1: Seq<F>,
    twiddles0: Seq<F>,
    factor: Option<F::Value>,
) -> Seq<F::Value> {
    blockwise(s, 4, fused_block::<F>(twiddles1, twiddles0, factor))
}

/// Whether no block finds only one of its two twiddle factors in a list of `len0`, where there are
/// `blocks` blocks and `len1` factors in the other list.
pub open spec fn come_in_pairs(blocks: int, len1: int, len0: int) -> bool {
    len0 % 2 == 0 || len1 <= len0 / 2 || blocks <= len0 / 2
}

/// One fused pass with enough twiddle factors does what the two layers do one after the other.
pub proof fn lemma_fused_layers<F: Field>(
    s: Seq<F::Value>,
    twiddles1: Seq<F>,
    twiddles0: Seq<F>,
    factor: Option<F::Value>,
)
    requires
        s.len() as int % 4 == 0,
        s.len() as int / 4 <= twiddles1.len(),
        2 * (s.len() as int / 4) <= twiddles0.len(),
    ensures
        fused_layers::<F>(s, twiddles1, twiddles0, factor) == scaled::<F>(
            last_two_layers::<F>(s, twiddles1, twiddles0),
            factor,
        ),
{
    let inner = butterfly_layer::<F>(s, 2, per_block(twiddles1));
    let outer = butterfly_layer::<F>(inner, 1, per_block(twiddles0));
    let l = blockwise(s, 4, fused_block::<F>(twiddles1, twiddles0, factor));
    let r = scaled::<F>(outer, factor);
    assert forall|i: int| 0 <= i < s.len() implies l[i] == r[i] by {
        let b: int = i / 4;
        let k: int = i % 4;
        lemma_block_index(s.len() as int, 4, i);
        lemma_block_within(s.len() as int, 4, b);
        let q = block(s, 4, b);
        let n = butterflied::<F>(q, 2, b, per_block(twiddles1));
        assert forall|m: int| 0 <= m < 4 implies #[trigger] inner[4 * b + m] == n[m] by {
            lemma_block_of(4 * b + m, 4, b, m);
        }
        let h: int = i / 2;
        assert(h == 2 * b + k / 2);
        let pair = block(inner, 2, h);
        assert(pair[0] == inner[4 * b + 2 * (k / 2)]);
        assert(pair[1] == inner[4 * b + (2 * (k / 2) + 1)]);
        assert(outer[i] == butterflied::<F>(pair, 1, h, per_block(twiddles0))[i % 2]);
    }
    assert(l =~= r);
}

/// Processes four rows, from the first to the last, with the given twiddle factors.
fn fuse_rows<F: Field>(
    r0: &mut [F],
    r1: &mut [F],
    r2: &mut [F],
    r3: &mut [F],
    t1: F,
    t0_a: F,
    t0_b: F,
)
    requires
        old(r1)@.len() == old(r0)@.len(),
        old(r2)@.len() == old(r0)@.len(),
        old(r3)@.len() == old(r0)@.len(),
    ensures
        final(r0)@.len() == old(r0)@.len(),
        final(r1)@.len() == old(r0)@.len(),
        final(r2)@.len() == old(r0)@.len(),
        final(r3)@.len() == old(r0)@.len(),
        forall|i: int|
            0 <= i < old(r0)@.len() ==> seq![
                (#[trigger] final(r0)@[i]).value(),
                final(r1)@[i].value(),
                final(r2)@[i].value(),
                final(r3)@[i].value(),
            ] == fused_quad::<F>(
                seq![
                    old(r0)@[i].value(),
                    old(r1)@[i].value(),
                    old(r2)@[i].value(),
                    old(r3)@[i].value(),
                ],
                t1.value(),
                t0_a.value(),
                t0_b.value(),
            ),
{
    let n: usize = r0.len();
    let mut i: usize = 0;
    while i < n
        invariant
            n == old(r0)@.len(),
            old(r1)@.len() == n,
            old(r2)@.len() == n,
            old(r3)@.len() == n,
            r0@.len() == n,
            r1@.len() == n,
            r2@.len() == n,
            r3@.len() == n,
            0 <= i <= n,
            forall|j: int| i <= j < n ==> #[trigger] r0@[j] == old(r0)@[j],
            forall|j: int| i <= j < n ==> #[trigger] r1@[j] == old(r1)@[j],
            forall|j: int| i <= j < n ==> #[trigger] r2@[j] == old(r2)@[j],
            forall|j: int| i <= j < n ==> #[trigger] r3@[j] == old(r3)@[j],
            forall|j: int|
                0 <= j < i ==> seq![
                    (#[trigger] r0@[j]).value(),
                    r1@[j].value(),
                    r2@[j].value(),
                    r3@[j].value(),
                ] == fused_quad::<F>(
                    seq![
                        old(r0)@[j].value(),
                        old(r1)@[j].value(),
                        old(r2)@[j].value(),
                        old(r3)@[j].value(),
                    ],
                    t1.value(),
                    t0_a.value(),
                    t0_b.value(),
                ),
        decreases n - i,
    {
        assert(r0@[i as int] == old(r0)@[i as int]);
        let r2t = r2[i].mul(t1);
        let r3t = r3[i].mul(t1);
        let new_r0 = r0[i].add(r2t);
        let new_r1 = r1[i].add(r3t);
        let new_r2 = r0[i].sub(r2t);
        let new_r3 = r1[i].sub(r3t);
        let r1t = new_r1.mul(t0_a);
        let r3t = new_r3.mul(t0_b);
        r0[i] = new_r0.add(r1t);
        r1[i] = new_r0.sub(r1t);
        r2[i] = new_r2.add(r3t);
        r3[i] = new_r2.sub(r3t);
        proof {
            let k: int = i as int;
            assert(seq![r0@[k].value(), r1@[k].value(), r2@[k].value(), r3@[k].value()]
                =~= fused_quad::<F>(
                seq![
                    old(r0)@[k].value(),
                    old(r1)@[k].value(),
                    old(r2)@[k].value(),
                    old(r3)@[k].value(),
                ],
                t1.value(),
                t0_a.value(),
                t0_b.value(),
            ));
        }
        i = i + 1;
    }
}

/// Processes four rows like [`fuse_rows`] and multiplies the results by a factor, which is folded
/// into the first of the two layers.
fn fuse_rows_scaled<F: Field>(
    r0: &mut [F],
    r1: &mut [F],
    r2: &mut [F],
    r3: &mut [F],
    t1: F,
    t0_a: F,
    t0_b: F,
    s: F,
)
    requires
        old(r1)@.len() == old(r0)@.len(),
        old(r2)@.len() == old(r0)@.len(),
        old(r3)@.len() == old(r0)@.len(),
    ensures
        final(r0)@.len() == old(r0)@.len(),
        final(r1)@.len() == old(r0)@.len(),
        final(r2)@.len() == old(r0)@.len(),
        final(r3)@.len() == old(r0)@.len(),
        forall|i: int|
            0 <= i < old(r0)@.len() ==> seq![
                (#[trigger] final(r0)@[i]).value(),
                final(r1)@[i].value(),
                final(r2)@[i].value(),
                final(r3)@[i].value(),
            ] == scaled::<F>(
                fused_quad::<F>(
                    seq![
                        old(r0)@[i].value(),
                        old(r1)@[i].value(),
                        old(r2)@[i].value(),
                        old(r3)@[i].value(),
                    ],
                    t1.value(),
                    t0_a.value(),
                    t0_b.value(),
                ),
                Some(s.value()),
            ),
{
    let t1s = t1.mul(s);
    let n: usize = r0.len();
    let mut i: usize = 0;
    while i < n
        invariant
            n == old(r0)@.len(),
            old(r1)@.len() == n,
            old(r2)@.len() == n,
            old(r3)@.len() == n,
            r0@.len() == n,
            r1@.len() == n,
            r2@.len() == n,
            r3@.len() == n,
            0 <= i <= n,
            t1s.value() == F::times(t1.value(), s.value()),
            forall|j: int| i <= j < n ==> #[trigger] r0@[j] == old(r0)@[j],
            forall|j: int| i <= j < n ==> #[trigger] r1@[j] == old(r1)@[j],
            forall|j: int| i <= j < n ==> #[trigger] r2@[j] == old(r2)@[j],
            forall|j: int| i <= j < n ==> #[trigger] r3@[j] == old(r3)@[j],
            forall|j: int|
                0 <= j < i ==> seq![
                    (#[trigger] r0@[j]).value(),
                    r1@[j].value(),
                    r2@[j].value(),
                    r3@[j].value(),
                ] == scaled::<F>(
                    fused_quad::<F>(
                        seq![
                            old(r0)@[j].value(),
                            old(r1)@[j].value(),
                            old(r2)@[j].value(),
                            old(r3)@[j].value(),
                        ],
                        t1.value(),
                        t0_a.value(),
                        t0_b.value(),
                    ),
                    Some(s.value()),
                ),
        decreases n - i,
    {
        assert(r0@[i as int] == old(r0)@[i as int]);
        let r0s = r0[i].mul(s);
        let r1s = r1[i].mul(s);
        let r2ts = r2[i].mul(t1s);
        let r3ts = r3[i].mul(t1s);
        let new_r0 = r0s.add(r2ts);
        let new_r1 = r1s.add(r3ts);
        let new_r2 = r0s.sub(r2ts);
        let new_r3 = r1s.sub(r3ts);
        let r1t = new_r1.mul(t0_a);
        let r3t = new_r3.mul(t0_b);
        r0[i] = new_r0.add(r1t);
        r1[i] = new_r0.sub(r1t);
        r2[i] = new_r2.add(r3t);
        r3[i] = new_r2.sub(r3t);
        proof {
            let k: int = i as int;
            let (a, b, c, d): (F::Value, F::Value, F::Value, F::Value) = (
                old(r0)@[k].value(),
                old(r1)@[k].value(),
                old(r2)@[k].value(),
                old(r3)@[k].value(),
            );
            let t: F::Value = t1.value();
            let z: F::Value = s.value();
            lemma_scaled_butterfly::<F>(a, c, t, z);
            lemma_scaled_butterfly::<F>(b, d, t, z);
            let n0: F::Value = F::plus(a, F::times(c, t));
            let n1: F::Value = F::plus(b, F::times(d, t));
            let n2: F::Value = minus::<F>(a, F::times(c, t));
            let n3: F::Value = minus::<F>(b, F::times(d, t));
            lemma_scaled_butterfly::<F>(n0, n1, t0_a.value(), z);
            lemma_scaled_butterfly::<F>(n2, n3, t0_b.value(), z);
            assert(seq![r0@[k].value(), r1@[k].value(), r2@[k].value(), r3@[k].value()]
                =~= scaled::<F>(
                fused_quad::<F>(seq![a, b, c, d], t, t0_a.value(), t0_b.value()),
                Some(z),
            ));
        }
        i = i + 1;
    }
}

/// A column of four stacked rows.
proof fn lemma_column_of_four<F: Field>(
    r0: Seq<F>,
    r1: Seq<F>,
    r2: Seq<F>,
    r3: Seq<F>,
    w: int,
    c: int,
)
    requires
        0 <= c < w,
        r0.len() == w,
        r1.len() == w,
        r2.len() == w,
        r3.len() == w,
    ensures
        column(r0 + (r1 + (r2 + r3)), w, c) == seq![
            r0[c].value(),
            r1[c].value(),
            r2[c].value(),
            r3[c].value(),
        ],
{
    let all = r0 + (r1 + (r2 + r3));
    lemma_height(4, w);
    let col = column(all, w, c);
    assert(col.len() == 4);
    assert(col[0] == all[c].value());
    assert(col[1] == all[w + c].value());
    assert(col[2] == all[2 * w + c].value());
    assert(col[3] == all[3 * w + c].value());
    assert(col =~= seq![r0[c].value(), r1[c].value(), r2[c].value(), r3[c].value()]);
}

/// The fused last two layers of a network.
struct QuadBlocks<'a, F> {
    twiddles1: &'a [F],
    twiddles0: &'a [F],
    scale: Option<F>,
}

impl<'a, F: Field> ChunkOp<F> for QuadBlocks<'a, F> {
    closed spec fn image(&self, b: int, c: int, s: Seq<F::Value>) -> Seq<F::Value> {
        fused_block::<F>(self.twiddles1@, self.twiddles0@, factor_value(self.scale))(b, s)
    }

    closed spec fn accepts(&self, b: int, rows: int, width: int) -> bool {
        &&& rows == 4
        &&& b < self.twiddles1@.len() && 2 * b < self.twiddles0@.len() ==> 2 * b + 1
            < self.twiddles0@.len()
    }

    fn process(&self, b: usize, chunk: &mut [F], width: usize) {
        let ghost w: int = width as int;
        let ghost before = chunk@;
        let len: usize = chunk.len();
        let num_twiddles: usize = self.twiddles0.len();
        if b >= self.twiddles1.len() || b >= num_twiddles / 2 {
            return ;
        }
        proof {
            lemma_shape(len as int, w);
        }
        let t1 = self.twiddles1[b];
        let t0_a = self.twiddles0[2 * b];
        let t0_b = self.twiddles0[2 * b + 1];
        let (r0, rest): (&mut [F], &mut [F]) = chunk.split_at_mut(width);
        let (r1, rest): (&mut [F], &mut [F]) = rest.split_at_mut(width);
        let (r2, r3): (&mut [F], &mut [F]) = rest.split_at_mut(width);
        let ghost (b0, b1, b2, b3) = (r0@, r1@, r2@, r3@);
        match self.scale {
            None => fuse_rows(r0, r1, r2, r3, t1, t0_a, t0_b),
            Some(s) => fuse_rows_scaled(r0, r1, r2, r3, t1, t0_a, t0_b, s),
        }
        let ghost (a0, a1, a2, a3) = (r0@, r1@, r2@, r3@);
        proof {
            assert(before =~= b0 + (b1 + (b2 + b3)));
            assert(chunk@ =~= a0 + (a1 + (a2 + a3)));
            assert forall|c: int| 0 <= c < width implies #[trigger] column(chunk@, w, c)
                == self.image(b as int, c, column(before, w, c)) by {
                lemma_column_of_four(b0, b1, b2, b3, w, c);
                lemma_column_of_four(a0, a1, a2, a3, w, c);
            }
        }
    }
}

/// Runs the fused last two layers over all rows.
fn last_two<F: Field>(
    submat: &mut [F],
    width: usize,
    twiddles1: &[F],
    twiddles0: &[F],
    scale: Option<F>,
)
    requires
        is_shaped(old(submat)@.len() as int, width as int),
        (old(submat)@.len() as int / width as int) % 4 == 0,
        come_in_pairs(
            (old(submat)@.len() as int / width as int) / 4,
            twiddles1@.len() as int,
            twiddles0@.len() as int,
        ),
    ensures
        final(submat)@.len() == old(submat)@.len(),
        forall|c: int|
            0 <= c < width ==> #[trigger] column(final(submat)@, width as int, c)
                == fused_layers::<F>(
                column(old(submat)@, width as int, c),
                twiddles1@,
                twiddles0@,
                factor_value(scale),
            ),
{
    let op = QuadBlocks { twiddles1, twiddles0, scale };
    let ghost before = submat@;
    for_each_row_chunk(&op, submat, width, 4, false);
    proof {
        let f = fused_block::<F>(twiddles1@, twiddles0@, factor_value(scale));
        assert forall|c: int| 0 <= c < width implies #[trigger] column(submat@, width as int, c)
            == fused_layers::<F>(
            column(before, width as int, c),
            twiddles1@,
            twiddles0@,
            factor_value(scale),
        ) by {
            assert((|b: int, s: Seq<F::Value>| op.image(b, c, s)) =~= f);
        }
    }
}

/// The last two layers of a network in bit-reversed order, in one pass. `twiddles1` holds one
/// factor for each block of four rows, `twiddles0` two. Blocks for which there are no twiddle
/// factors are left as they are.
pub(crate) fn dit_layer_rev_last2<F: Field>(
    submat: &mut [F],
    width: usize,
    twiddles1: &[F],
    twiddles0: &[F],
)
    requires
        is_shaped(old(submat)@.len() as int, width as int),
        (old(submat)@.len() as int / width as int) % 4 == 0,
        come_in_pairs(
            (old(submat)@.len() as int / width as int) / 4,
            twiddles1@.len() as int,
            twiddles0@.len() as int,
        ),
    ensures
        final(submat)@.len() == old(submat)@.len(),
        forall|c: int|
            0 <= c < width ==> #[trigger] column(final(submat)@, width as int, c)
                == fused_layers::<F>(
                column(old(submat)@, width as int, c),
                twiddles1@,
                twiddles0@,
                None,
            ),
{
    last_two(submat, width, twiddles1, twiddles0, None);
}

/// Like [`dit_layer_rev_last2`], for factors of both layers that are taken from one list.
pub(crate) fn dit_layer_rev_last2_flat<F: Field>(
    submat: &mut [F],
    width: usize,
    twiddles1: &[F],
    twiddles0: &[F],
)
    requires
        is_shaped(old(submat)@.len() as int, width as int),
        (old(submat)@.len() as int / width as int) % 4 == 0,
        come_in_pairs(
            (old(submat)@.len() as int / width as int) / 4,
            twiddles1@.len() as int,
            twiddles0@.len() as int,
        ),
    ensures
        final(submat)@.len() == old(submat)@.len(),
        forall|c: int|
            0 <= c < width ==> #[trigger] column(final(submat)@, width as int, c)
                == fused_layers::<F>(
                column(old(submat)@, width as int, c),
                twiddles1@,
                twiddles0@,
                None,
            ),
{
    last_two(submat, width, twiddles1, twiddles0, None);
}

/// Like [`dit_layer_rev_last2_flat`], with the results multiplied by a factor where there is one.
pub(crate) fn dit_layer_rev_last2_flat_scaled<F: Field>(
    submat: &mut [F],
    width: usize,
    twiddles1: &[F],
    twiddles0: &[F],
    scale: Option<F>,
)
    requires
        is_shaped(old(submat)@.len() as int, width as int),
        (old(submat)@.len() as int / width as int) % 4 == 0,
        come_in_pairs(
            (old(submat)@.len() as int / width as int) / 4,
            twiddles1@.len() as int,
            twiddles0@.len() as int,
        ),
    ensures
        final(submat)@.len() == old(submat)@.len(),
        forall|c: int|
            0 <= c < width ==> #[trigger] column(final(submat)@, width as int, c)
                == fused_layers::<F>(
                column(old(submat)@, width as int, c),
                twiddles1@,
                twiddles0@,
                factor_value(scale),
            ),
{
    match scale {
        None => {
            dit_layer_rev_last2_flat(submat, width, twiddles1, twiddles0);
        },
        Some(_) => {
            last_two(submat, width, twiddles1, twiddles0, scale);
        },
    }
}

} // verus!
