//! The two halves of a butterfly network, each of which works on chunks of consecutive rows that
//! do not depend on each other.

use vstd::prelude::*;
use vstd::arithmetic::power2::*;
use vstd::slice::slice_subrange;
use crate::bits::{is_pow2, lemma_pow2_mono, lemma_pow2_step, log2, two_to_the};
use crate::chunks::{
    block, blockwise, for_each_row_chunk, lemma_block_index, lemma_block_within, ChunkOp,
};
use crate::composition::{
    chunk_twiddles, layers_dit, layers_rev, lemma_layers_dit_blockwise, lemma_layers_rev_blockwise,
    lemma_layers_rev_len, lemma_layers_rev_scaled, list_of_layer, one_list, power_steps, unit_steps,
};
use crate::field::Field;
use crate::fused::{
    dit_layer_rev_last2, dit_layer_rev_last2_flat, dit_layer_rev_last2_flat_scaled, last_two_layers,
    lemma_fused_layers,
};
use crate::layers::{
    butterfly_layer, dit_layer, dit_layer_first_one, dit_layer_oop, dit_layer_rev,
    dit_layer_rev_last, dit_layer_rev_scaled, dit_layer_twiddle_free, dit_layer_uniform_twiddle,
    factor_value, lemma_first_layer, lemma_listed_layer_full, lemma_rev_layer_full, per_block,
    per_row,
};
use crate::matrix::{column, is_shaped, lemma_entry_of_rows, lemma_shape};
use crate::polynomial::scaled;

verus! {

/// Whether there are lists with enough twiddle factors for the first `mid` of `k` layers.
pub open spec fn cover_first_layers<F>(tw: Seq<Vec<F>>, mid: nat, k: nat) -> bool {
    &&& mid > 0 ==> k <= tw.len()
    &&& forall|l: int| 0 <= l < mid ==> pow2(l as nat) <= (#[trigger] tw[k - 1 - l])@.len()
}

/// Whether there are lists with enough twiddle factors for the layers from `mid` on.
pub open spec fn cover_last_layers<F>(tw: Seq<Vec<F>>, mid: nat, k: nat) -> bool {
    &&& k - mid <= tw.len()
    &&& forall|l: int| mid <= l < k ==> pow2(l as nat) <= (#[trigger] tw[k - 1 - l])@.len()
}

/// `2^k` rows are made of `2^(k - m)` chunks of `2^m` rows.
proof fn lemma_chunk_sizes(m: nat, k: nat)
    requires
        m <= k,
    ensures
        0 < pow2(m) <= pow2(k),
        pow2(k) as int % (pow2(m) as int) == 0,
        pow2(k) as int / (pow2(m) as int) == pow2((k - m) as nat),
        pow2(k) == pow2((k - m) as nat) * pow2(m),
{
    lemma_pow2_mono(m, k);
    lemma_pow2_pos(m);
    lemma_pow2_adds((k - m) as nat, m);
    vstd::arithmetic::div_mod::lemma_mod_multiples_basic(
        pow2((k - m) as nat) as int,
        pow2(m) as int,
    );
    vstd::arithmetic::div_mod::lemma_div_by_multiple(pow2((k - m) as nat) as int, pow2(m) as int);
}

/// The sizes of the blocks in one layer of the first half.
proof fn lemma_first_half_sizes(mid: nat, l: nat, k: nat)
    requires
        l < mid <= k,
    ensures
        pow2(l + 1) <= pow2(k),
        pow2(mid) as int % (pow2(l + 1) as int) == 0,
        pow2(l + 1) > 0,
{
    lemma_pow2_mono(l + 1, k);
    lemma_pow2_pos(l + 1);
    lemma_pow2_adds((mid - l - 1) as nat, l + 1);
    vstd::arithmetic::div_mod::lemma_mod_multiples_basic(
        pow2((mid - l - 1) as nat) as int,
        pow2(l + 1) as int,
    );
}

/// The chunks of the first half of a network whose twiddle factors are found in one list.
struct FirstHalf<'a, F: Field> {
    twiddles: &'a [F],
    log_h: usize,
    mid: usize,
}

impl<'a, F: Field> ChunkOp<F> for FirstHalf<'a, F> {
    closed spec fn image(&self, b: int, c: int, s: Seq<F::Value>) -> Seq<F::Value> {
        layers_dit::<F>(
            s,
            one_list::<F>(self.twiddles@),
            power_steps(self.log_h as nat),
            0,
            self.mid as nat,
        )
    }

    closed spec fn accepts(&self, b: int, rows: int, width: int) -> bool {
        &&& rows == pow2(self.mid as nat)
        &&& self.mid <= self.log_h
        &&& pow2(self.log_h as nat) <= usize::MAX
        &&& self.mid > 0 ==> pow2((self.log_h - 1) as nat) - pow2((self.log_h - self.mid) as nat)
            < self.twiddles@.len() && self.twiddles@[0].value() == F::one_value()
    }

    fn process(&self, b: usize, chunk: &mut [F], width: usize) {
        let ghost w: int = width as int;
        let ghost k: nat = self.log_h as nat;
        let ghost mid: nat = self.mid as nat;
        let ghost tw = one_list::<F>(self.twiddles@);
        let ghost step = power_steps(k);
        let ghost before = chunk@;
        let mut backwards: bool = false;
        let mut layer: usize = 0;
        while layer < self.mid
            invariant
                w == width,
                k == self.log_h,
                mid == self.mid,
                tw == one_list::<F>(self.twiddles@),
                step == power_steps(k),
                is_shaped(before.len() as int, w),
                chunk@.len() == before.len(),
                before.len() as int / w == pow2(mid),
                mid <= k,
                pow2(k) <= usize::MAX,
                mid > 0 ==> pow2((k - 1) as nat) - pow2((k - mid) as nat) < self.twiddles@.len()
                    && self.twiddles@[0].value() == F::one_value(),
                0 <= layer <= self.mid,
                forall|c: int|
                    0 <= c < w ==> layers_dit::<F>(
                        #[trigger] column(chunk@, w, c),
                        tw,
                        step,
                        layer as nat,
                        mid,
                    ) == layers_dit::<F>(column(before, w, c), tw, step, 0, mid),
            decreases self.mid - layer,
        {
            let ghost l: nat = layer as nat;
            let ghost e: nat = (k - 1 - l) as nat;
            let ghost at_layer = chunk@;
            let ghost t = per_row(tw(l), step(l));
            proof {
                lemma_first_half_sizes(mid, l, k);
                lemma_pow2_step(l);
                lemma_pow2_pos(e);
                lemma_pow2_mono(e, k);
                lemma_pow2_adds(l, e);
                lemma_pow2_mono((k - mid) as nat, e);
                assert((pow2(l) - 1) * pow2(e) == pow2(l) * pow2(e) - pow2(e)) by (nonlinear_arith);
            }
            if layer == 0 {
                proof {
                    lemma2_to64();
                    lemma_pow2_step((mid - 1) as nat);
                }
                dit_layer_twiddle_free(chunk, width, backwards);
                proof {
                    assert forall|c: int| 0 <= c < w implies #[trigger] column(chunk@, w, c)
                        == butterfly_layer::<F>(column(at_layer, w, c), pow2(l) as int, t) by {
                        lemma_first_layer::<F>(
                            column(at_layer, w, c),
                            self.twiddles@,
                            step(l),
                        );
                    }
                }
            } else {
                let layer_pow: usize = two_to_the(self.log_h - 1 - layer);
                dit_layer_first_one(chunk, width, layer, self.twiddles, layer_pow, backwards);
                proof {
                    assert forall|c: int| 0 <= c < w implies #[trigger] column(chunk@, w, c)
                        == butterfly_layer::<F>(column(at_layer, w, c), pow2(l) as int, t) by {
                        lemma_listed_layer_full::<F>(
                            column(at_layer, w, c),
                            pow2(l) as int,
                            self.twiddles@,
                            step(l),
                        );
                    }
                }
            }
            proof {
                assert forall|c: int| 0 <= c < w implies layers_dit::<F>(
                    #[trigger] column(chunk@, w, c),
                    tw,
                    step,
                    l + 1,
                    mid,
                ) == layers_dit::<F>(column(before, w, c), tw, step, 0, mid) by {
                    let col = column(at_layer, w, c);
                    assert(layers_dit::<F>(col, tw, step, l, mid) == layers_dit::<F>(
                        column(before, w, c),
                        tw,
                        step,
                        0,
                        mid,
                    ));
                }
            }
            backwards = !backwards;
            layer = layer + 1;
        }
    }
}

/// The first `mid` layers of a network whose twiddle factors are found in one list, layer `l`
/// taking every `2^(log_h - 1 - l)`-th of them. The first of the list is one.
///
/// In the first layer all twiddle factors are one, and in the others the first one of each block,
/// so that these need no multiplications.
pub(crate) fn first_half<F: Field>(mat: &mut [F], width: usize, mid: usize, twiddles: &[F])
    requires
        is_shaped(old(mat)@.len() as int, width as int),
        is_pow2(old(mat)@.len() as int / width as int),
        mid <= log2(old(mat)@.len() as int / width as int),
        mid > 0 ==> pow2((log2(old(mat)@.len() as int / width as int) - 1) as nat) - pow2(
            (log2(old(mat)@.len() as int / width as int) - mid) as nat,
        ) < twiddles@.len(),
        mid > 0 ==> twiddles@[0].value() == F::one_value(),
    ensures
        final(mat)@.len() == old(mat)@.len(),
        forall|c: int|
            0 <= c < width ==> #[trigger] column(final(mat)@, width as int, c) == layers_dit::<F>(
                column(old(mat)@, width as int, c),
                one_list::<F>(twiddles@),
                power_steps(log2(old(mat)@.len() as int / width as int)),
                0,
                mid as nat,
            ),
{
    let height: usize = mat.len() / width;
    let log_h: usize = p3_util::log2_strict_usize(height);
    proof {
        lemma_shape(mat@.len() as int, width as int);
        lemma_chunk_sizes(mid as nat, log_h as nat);
    }
    let op = FirstHalf { twiddles, log_h, mid };
    let ghost before = mat@;
    for_each_row_chunk(&op, mat, width, two_to_the(mid), false);
    proof {
        let tw = one_list::<F>(twiddles@);
        let step = power_steps(log_h as nat);
        let f = |b: int, blk: Seq<F::Value>| layers_dit::<F>(blk, tw, step, 0, mid as nat);
        assert forall|c: int| 0 <= c < width implies #[trigger] column(mat@, width as int, c)
            == layers_dit::<F>(column(before, width as int, c), tw, step, 0, mid as nat) by {
            assert((|b: int, s: Seq<F::Value>| op.image(b, c, s)) =~= f);
            lemma_layers_dit_blockwise::<F>(column(before, width as int, c), tw, step, mid as nat);
        }
    }
}

/// The layers after the first one of a chunk of `2^mid` rows, with a list of twiddle factors for
/// each layer.
fn later_layers<F: Field>(
    chunk: &mut [F],
    width: usize,
    log_h: usize,
    mid: usize,
    twiddles: &[Vec<F>],
)
    requires
        is_shaped(old(chunk)@.len() as int, width as int),
        old(chunk)@.len() as int / width as int == pow2(mid as nat),
        0 < mid <= log_h,
        pow2(log_h as nat) <= usize::MAX,
        cover_first_layers(twiddles@, mid as nat, log_h as nat),
    ensures
        final(chunk)@.len() == old(chunk)@.len(),
        forall|c: int|
            0 <= c < width ==> #[trigger] column(final(chunk)@, width as int, c) == layers_dit::<F>(
                column(old(chunk)@, width as int, c),
                list_of_layer::<F>(twiddles@, log_h as nat),
                unit_steps(),
                1,
                mid as nat,
            ),
{
    let ghost w: int = width as int;
    let ghost k: nat = log_h as nat;
    let ghost tw = list_of_layer::<F>(twiddles@, k);
    let ghost step = unit_steps();
    let ghost before = chunk@;
    let mut backwards: bool = true;
    let mut layer: usize = 1;
    while layer < mid
        invariant
            w == width,
            k == log_h,
            tw == list_of_layer::<F>(twiddles@, k),
            step == unit_steps(),
            is_shaped(before.len() as int, w),
            chunk@.len() == before.len(),
            before.len() as int / w == pow2(mid as nat),
            mid <= k,
            pow2(k) <= usize::MAX,
            cover_first_layers(twiddles@, mid as nat, k),
            1 <= layer <= mid,
            forall|c: int|
                0 <= c < w ==> layers_dit::<F>(
                    #[trigger] column(chunk@, w, c),
                    tw,
                    step,
                    layer as nat,
                    mid as nat,
                ) == layers_dit::<F>(column(before, w, c), tw, step, 1, mid as nat),
        decreases mid - layer,
    {
        let ghost l: nat = layer as nat;
        let ghost at_layer = chunk@;
        let layer_rev: usize = log_h - 1 - layer;
        proof {
            lemma_first_half_sizes(mid as nat, l, k);
            assert(pow2(l) <= twiddles@[k - 1 - l]@.len());
            lemma_pow2_step(l);
        }
        dit_layer(chunk, width, layer, twiddles[layer_rev].as_slice(), backwards);
        proof {
            assert forall|c: int| 0 <= c < w implies layers_dit::<F>(
                #[trigger] column(chunk@, w, c),
                tw,
                step,
                l + 1,
                mid as nat,
            ) == layers_dit::<F>(column(before, w, c), tw, step, 1, mid as nat) by {
                let col = column(at_layer, w, c);
                lemma_listed_layer_full::<F>(col, pow2(l) as int, tw(l), 1);
                assert(layers_dit::<F>(col, tw, step, l, mid as nat) == layers_dit::<F>(
                    column(before, w, c),
                    tw,
                    step,
                    1,
                    mid as nat,
                ));
            }
        }
        backwards = !backwards;
        layer = layer + 1;
    }
}

/// The chunks of the first half of a network with a list of twiddle factors for each layer.
struct FirstHalfGeneral<'a, F: Field> {
    twiddles: &'a [Vec<F>],
    log_h: usize,
    mid: usize,
}

impl<'a, F: Field> ChunkOp<F> for FirstHalfGeneral<'a, F> {
    closed spec fn image(&self, b: int, c: int, s: Seq<F::Value>) -> Seq<F::Value> {
        layers_dit::<F>(
            s,
            list_of_layer::<F>(self.twiddles@, self.log_h as nat),
            unit_steps(),
            0,
            self.mid as nat,
        )
    }

    closed spec fn accepts(&self, b: int, rows: int, width: int) -> bool {
        &&& rows == pow2(self.mid as nat)
        &&& self.mid <= self.log_h
        &&& pow2(self.log_h as nat) <= usize::MAX
        &&& cover_first_layers(self.twiddles@, self.mid as nat, self.log_h as nat)
    }

    fn process(&self, b: usize, chunk: &mut [F], width: usize) {
        let ghost w: int = width as int;
        let ghost k: nat = self.log_h as nat;
        let ghost mid: nat = self.mid as nat;
        let ghost tw = list_of_layer::<F>(self.twiddles@, k);
        let ghost before = chunk@;
        if self.mid == 0 {
            return ;
        }
        proof {
            lemma2_to64();
            lemma_pow2_step((mid - 1) as nat);
            assert(pow2(0) <= self.twiddles@[k - 1 - 0]@.len());
        }
        // In the first layer all pairs of rows have the same twiddle factor.
        let twiddle = self.twiddles[self.log_h - 1][0];
        dit_layer_uniform_twiddle(chunk, width, twiddle, false);
        let ghost first = chunk@;
        later_layers(chunk, width, self.log_h, self.mid, self.twiddles);
        proof {
            assert forall|c: int| 0 <= c < w implies #[trigger] column(chunk@, w, c)
                == layers_dit::<F>(column(before, w, c), tw, unit_steps(), 0, mid) by {
                lemma_first_layer::<F>(column(before, w, c), tw(0), 1);
                assert(column(first, w, c) == butterfly_layer::<F>(
                    column(before, w, c),
                    pow2(0) as int,
                    per_row(tw(0), unit_steps()(0)),
                ));
            }
        }
    }
}

/// Like [`first_half`], with a list of twiddle factors for each layer. The lists are stored from
/// the last layer to the first.
pub(crate) fn first_half_general<F: Field>(
    mat: &mut [F],
    width: usize,
    mid: usize,
    twiddles: &[Vec<F>],
)
    requires
        is_shaped(old(mat)@.len() as int, width as int),
        is_pow2(old(mat)@.len() as int / width as int),
        mid <= log2(old(mat)@.len() as int / width as int),
        cover_first_layers(
            twiddles@,
            mid as nat,
            log2(old(mat)@.len() as int / width as int),
        ),
    ensures
        final(mat)@.len() == old(mat)@.len(),
        forall|c: int|
            0 <= c < width ==> #[trigger] column(final(mat)@, width as int, c) == layers_dit::<F>(
                column(old(mat)@, width as int, c),
                list_of_layer::<F>(twiddles@, log2(old(mat)@.len() as int / width as int)),
                unit_steps(),
                0,
                mid as nat,
            ),
{
    let height: usize = mat.len() / width;
    let log_h: usize = p3_util::log2_strict_usize(height);
    proof {
        lemma_shape(mat@.len() as int, width as int);
        lemma_chunk_sizes(mid as nat, log_h as nat);
    }
    let op = FirstHalfGeneral { twiddles, log_h, mid };
    let ghost before = mat@;
    for_each_row_chunk(&op, mat, width, two_to_the(mid), false);
    proof {
        let tw = list_of_layer::<F>(twiddles@, log_h as nat);
        let step = unit_steps();
        let f = |b: int, blk: Seq<F::Value>| layers_dit::<F>(blk, tw, step, 0, mid as nat);
        assert forall|c: int| 0 <= c < width implies #[trigger] column(mat@, width as int, c)
            == layers_dit::<F>(column(before, width as int, c), tw, step, 0, mid as nat) by {
            assert((|b: int, s: Seq<F::Value>| op.image(b, c, s)) =~= f);
            lemma_layers_dit_blockwise::<F>(column(before, width as int, c), tw, step, mid as nat);
        }
    }
}

/// The chunks of the first half of a network with a list of twiddle factors for each layer, whose
/// inputs are read from another matrix.
struct FirstHalfGeneralOop<'a, F: Field> {
    src: &'a [F],
    width: usize,
    twiddles: &'a [Vec<F>],
    log_h: usize,
    mid: usize,
}

impl<'a, F: Field> ChunkOp<F> for FirstHalfGeneralOop<'a, F> {
    closed spec fn image(&self, b: int, c: int, s: Seq<F::Value>) -> Seq<F::Value> {
        layers_dit::<F>(
            block(column(self.src@, self.width as int, c), pow2(self.mid as nat) as int, b),
            list_of_layer::<F>(self.twiddles@, self.log_h as nat),
            unit_steps(),
            0,
            self.mid as nat,
        )
    }

    closed spec fn accepts(&self, b: int, rows: int, width: int) -> bool {
        &&& rows == pow2(self.mid as nat)
        &&& 0 < self.mid <= self.log_h
        &&& pow2(self.log_h as nat) <= usize::MAX
        &&& cover_first_layers(self.twiddles@, self.mid as nat, self.log_h as nat)
        &&& width == self.width
        &&& is_shaped(self.src@.len() as int, width)
        &&& 0 <= b
        &&& (b + 1) * rows <= self.src@.len() as int / width
    }

    fn process(&self, b: usize, chunk: &mut [F], width: usize) {
        let ghost w: int = width as int;
        let ghost k: nat = self.log_h as nat;
        let ghost mid: nat = self.mid as nat;
        let ghost tw = list_of_layer::<F>(self.twiddles@, k);
        let ghost rows: int = pow2(mid) as int;
        let len: usize = chunk.len();
        let src_len: usize = self.src.len();
        let ghost a: int = b * rows;
        let ghost e: int = a + rows;
        let ghost src_rows: int = src_len as int / w;
        proof {
            lemma_shape(len as int, w);
            lemma_shape(src_len as int, w);
            assert(b * len == a * w && a * w + len == e * w && 0 <= a * w && e * w <= src_len)
                by (nonlinear_arith)
                requires
                    a == b * rows,
                    e == a + rows,
                    len == rows * w,
                    (b + 1) * rows <= src_rows,
                    src_len == src_rows * w,
                    0 <= b,
                    0 <= rows,
                    0 < w,
            ;
            assert(e <= src_rows) by (nonlinear_arith)
                requires
                    e == b * rows + rows,
                    (b + 1) * rows <= src_rows,
            ;
        }
        let src_chunk: &[F] = slice_subrange(self.src, b * len, b * len + len);
        let ghost sc = src_chunk@;
        proof {
            lemma2_to64();
            lemma_first_half_sizes(mid, 0, k);
            assert(pow2(0) <= self.twiddles@[k - 1 - 0]@.len());
        }
        // The first layer is special, done out of place.
        dit_layer_oop(src_chunk, chunk, width, 0, self.twiddles[self.log_h - 1].as_slice());
        let ghost first = chunk@;
        later_layers(chunk, width, self.log_h, self.mid, self.twiddles);
        proof {
            assert forall|c: int| 0 <= c < w implies #[trigger] column(chunk@, w, c)
                == layers_dit::<F>(
                block(column(self.src@, w, c), rows, b as int),
                tw,
                unit_steps(),
                0,
                mid,
            ) by {
                assert(column(first, w, c) == butterfly_layer::<F>(
                    column(sc, w, c),
                    pow2(0) as int,
                    per_row(tw(0), unit_steps()(0)),
                ));
                let l = column(sc, w, c);
                let r = block(column(self.src@, w, c), rows, b as int);
                assert forall|i: int| 0 <= i < rows implies l[i] == r[i] by {
                    lemma_entry_of_rows(self.src@, w, a, e, i, c);
                }
                assert(l =~= r);
            }
        }
    }
}

/// Like [`first_half_general`], except that the inputs are read from one matrix and the results
/// are stored in another. There must be at least one layer.
pub(crate) fn first_half_general_oop<F: Field>(
    src: &[F],
    dst: &mut [F],
    width: usize,
    mid: usize,
    twiddles: &[Vec<F>],
)
    requires
        is_shaped(src@.len() as int, width as int),
        old(dst)@.len() == src@.len(),
        is_pow2(src@.len() as int / width as int),
        0 < mid <= log2(src@.len() as int / width as int),
        cover_first_layers(twiddles@, mid as nat, log2(src@.len() as int / width as int)),
    ensures
        final(dst)@.len() == src@.len(),
        forall|c: int|
            0 <= c < width ==> #[trigger] column(final(dst)@, width as int, c) == layers_dit::<F>(
                column(src@, width as int, c),
                list_of_layer::<F>(twiddles@, log2(src@.len() as int / width as int)),
                unit_steps(),
                0,
                mid as nat,
            ),
{
    let height: usize = src.len() / width;
    let log_h: usize = p3_util::log2_strict_usize(height);
    let ghost rows: int = pow2(mid as nat) as int;
    proof {
        lemma_shape(src@.len() as int, width as int);
        lemma_chunk_sizes(mid as nat, log_h as nat);
    }
    let op = FirstHalfGeneralOop { src, width, twiddles, log_h, mid };
    proof {
        assert forall|b: int| 0 <= b < height as int / rows implies #[trigger] op.accepts(
            b,
            rows,
            width as int,
        ) by {
            lemma_block_within(height as int, rows, b);
        }
    }
    for_each_row_chunk(&op, dst, width, two_to_the(mid), false);
    proof {
        let tw = list_of_layer::<F>(twiddles@, log_h as nat);
        let step = unit_steps();
        let f = |b: int, blk: Seq<F::Value>| layers_dit::<F>(blk, tw, step, 0, mid as nat);
        assert forall|c: int| 0 <= c < width implies #[trigger] column(dst@, width as int, c)
            == layers_dit::<F>(column(src@, width as int, c), tw, step, 0, mid as nat) by {
            assert(column(dst@, width as int, c) =~= blockwise(
                column(src@, width as int, c),
                rows,
                f,
            ));
            lemma_layers_dit_blockwise::<F>(column(src@, width as int, c), tw, step, mid as nat);
        }
    }
}

/// The place of the blocks of a chunk among all blocks of a layer of the second half.
proof fn lemma_block_range(k: nat, n: nat, m: nat, q: int)
    requires
        0 < m <= n <= k,
        0 <= q < pow2((k - n) as nat),
    ensures
        0 <= q * pow2((n - m) as nat),
        q * pow2((n - m) as nat) + pow2((n - m) as nat) <= pow2((k - m) as nat),
        pow2((k - m) as nat) <= pow2((k - 1) as nat),
        pow2(k) / 2 == pow2((k - 1) as nat),
        pow2((k - 1) as nat) <= pow2(k),
        pow2(m) <= pow2(k),
        pow2(n) as int % (pow2(m) as int) == 0,
        pow2(n) as int / (pow2(m) as int) == pow2((n - m) as nat),
{
    let parts: int = pow2((n - m) as nat) as int;
    let chunks: int = pow2((k - n) as nat) as int;
    lemma_pow2_adds((k - n) as nat, (n - m) as nat);
    assert((k - n) as nat + (n - m) as nat == (k - m) as nat);
    lemma_pow2_pos((n - m) as nat);
    assert(0 <= q * parts && q * parts + parts <= chunks * parts) by (nonlinear_arith)
        requires
            0 <= q < chunks,
            0 < parts,
    ;
    lemma_pow2_mono((k - m) as nat, (k - 1) as nat);
    lemma_pow2_step((k - 1) as nat);
    lemma_pow2_mono(m, k);
    lemma_chunk_sizes(m, n);
}

/// Multiplies all entries by a factor.
fn scale_values<F: Field>(mat: &mut [F], width: usize, scale: F)
    requires
        is_shaped(old(mat)@.len() as int, width as int),
    ensures
        final(mat)@.len() == old(mat)@.len(),
        forall|c: int|
            0 <= c < width ==> #[trigger] column(final(mat)@, width as int, c) == scaled::<F>(
                column(old(mat)@, width as int, c),
                Some(scale.value()),
            ),
{
    let ghost before = mat@;
    let len: usize = mat.len();
    let mut i: usize = 0;
    while i < len
        invariant
            len == before.len(),
            mat@.len() == len,
            0 <= i <= len,
            forall|j: int|
                0 <= j < i ==> (#[trigger] mat@[j]).value() == F::times(
                    before[j].value(),
                    scale.value(),
                ),
            forall|j: int| i <= j < len ==> #[trigger] mat@[j] == before[j],
        decreases len - i,
    {
        let x: F = mat[i].mul(scale);
        mat[i] = x;
        i = i + 1;
    }
    proof {
        let w: int = width as int;
        lemma_shape(len as int, w);
        assert forall|c: int| 0 <= c < width implies #[trigger] column(mat@, w, c) == scaled::<F>(
            column(before, w, c),
            Some(scale.value()),
        ) by {
            let l = column(mat@, w, c);
            let r = scaled::<F>(column(before, w, c), Some(scale.value()));
            assert forall|i: int| 0 <= i < l.len() implies l[i] == r[i] by {
                crate::matrix::lemma_position(len as int / w, w, i, c);
            }
            assert(l =~= r);
        }
    }
}

/// `x * 2^k`, which fits in a `usize`.
fn shifted_left(x: usize, k: usize) -> (r: usize)
    requires
        x * pow2(k as nat) <= usize::MAX,
        pow2(k as nat) <= usize::MAX,
    ensures
        r == x * pow2(k as nat),
{
    x * two_to_the(k)
}

/// The chunks of the second half of a network whose twiddle factors are found in one list.
struct SecondHalf<'a, F: Field> {
    twiddles_rev: &'a [F],
    log_h: usize,
    mid: usize,
    scale: Option<F>,
}

impl<'a, F: Field> ChunkOp<F> for SecondHalf<'a, F> {
    closed spec fn image(&self, b: int, c: int, s: Seq<F::Value>) -> Seq<F::Value> {
        scaled::<F>(
            layers_rev::<F>(
                s,
                chunk_twiddles::<F>(one_list::<F>(self.twiddles_rev@), b, self.mid as nat),
                self.mid as nat,
                self.log_h as nat,
            ),
            factor_value(self.scale),
        )
    }

    closed spec fn accepts(&self, b: int, rows: int, width: int) -> bool {
        &&& self.mid <= self.log_h
        &&& rows == pow2((self.log_h - self.mid) as nat)
        &&& pow2(self.log_h as nat) <= usize::MAX
        &&& self.mid < self.log_h ==> pow2(self.log_h as nat) / 2 <= self.twiddles_rev@.len()
        &&& 0 <= b < pow2(self.mid as nat)
    }

    fn process(&self, b: usize, chunk: &mut [F], width: usize) {
        let log_h: usize = self.log_h;
        let mid: usize = self.mid;
        let ghost w: int = width as int;
        let ghost k: nat = log_h as nat;
        let ghost n: nat = (log_h - mid) as nat;
        let ghost q: int = b as int;
        let ghost factor = factor_value(self.scale);
        let ghost tw = chunk_twiddles::<F>(one_list::<F>(self.twiddles_rev@), q, mid as nat);
        let ghost before = chunk@;
        let tw_len: usize = self.twiddles_rev.len();
        proof {
            assert((k - n) as nat == mid);
        }
        // With at least two layers, the last two are done in one pass.
        let fuse_last_two: bool = log_h - mid >= 2;
        let general_end: usize = if fuse_last_two {
            log_h - 2
        } else {
            log_h
        };
        let mut backwards: bool = false;
        let mut scale_applied: bool = false;
        let mut layer: usize = mid;
        while layer < general_end
            invariant
                w == width,
                log_h == self.log_h,
                mid == self.mid,
                k == log_h,
                n == log_h - mid,
                mid <= log_h,
                q == b,
                0 <= q < pow2((k - n) as nat),
                factor == factor_value(self.scale),
                tw == chunk_twiddles::<F>(one_list::<F>(self.twiddles_rev@), q, mid as nat),
                tw_len == self.twiddles_rev@.len(),
                is_shaped(before.len() as int, w),
                chunk@.len() == before.len(),
                before.len() as int / w == pow2(n),
                pow2(k) <= usize::MAX,
                mid < log_h ==> pow2(k) / 2 <= tw_len,
                mid <= layer <= general_end <= log_h,
                scale_applied == (layer > mid),
                forall|c: int|
                    0 <= c < w ==> layers_rev::<F>(
                        #[trigger] column(chunk@, w, c),
                        tw,
                        layer as nat,
                        k,
                    ) == if scale_applied {
                        scaled::<F>(
                            layers_rev::<F>(column(before, w, c), tw, mid as nat, k),
                            factor,
                        )
                    } else {
                        layers_rev::<F>(column(before, w, c), tw, mid as nat, k)
                    },
            decreases general_end - layer,
        {
            let ghost l: nat = layer as nat;
            let ghost m: nat = (k - layer) as nat;
            let ghost h: int = pow2((k - 1 - l) as nat) as int;
            let ghost at_layer = chunk@;
            let ghost was_applied = scale_applied;
            proof {
                lemma_block_range(k, n, m, q);
                assert((layer - mid) as nat == (n - m) as nat);
                lemma_pow2_mono((n - m) as nat, k);
                lemma_pow2_step((k - 1 - l) as nat);
            }
            let first_block: usize = shifted_left(b, layer - mid);
            let twiddles: &[F] = slice_subrange(self.twiddles_rev, first_block, tw_len);
            assert(twiddles@ == tw(l));
            if !scale_applied {
                scale_applied = true;
                dit_layer_rev_scaled(chunk, width, log_h, layer, twiddles, backwards, self.scale);
            } else {
                dit_layer_rev(chunk, width, log_h, layer, twiddles, backwards);
            }
            proof {
                assert forall|c: int| 0 <= c < w implies layers_rev::<F>(
                    #[trigger] column(chunk@, w, c),
                    tw,
                    l + 1,
                    k,
                ) == scaled::<F>(
                    layers_rev::<F>(column(before, w, c), tw, mid as nat, k),
                    factor,
                ) by {
                    let col = column(at_layer, w, c);
                    let next = butterfly_layer::<F>(col, h, per_block(tw(l)));
                    assert(layers_rev::<F>(col, tw, l, k) == layers_rev::<F>(next, tw, l + 1, k));
                    if was_applied {
                        lemma_rev_layer_full::<F>(col, h, tw(l), None);
                    } else {
                        lemma_rev_layer_full::<F>(col, h, tw(l), factor);
                        lemma_chunk_sizes((m - 1) as nat, n);
                        lemma_layers_rev_scaled::<F>(next, tw, l + 1, k, factor);
                    }
                }
            }
            backwards = !backwards;
            layer = layer + 1;
        }
        if fuse_last_two {
            let ghost at_layer = chunk@;
            proof {
                lemma2_to64();
                lemma_block_range(k, n, 2, q);
                lemma_block_range(k, n, 1, q);
                lemma_pow2_mono((n - 2) as nat, k);
                lemma_pow2_mono((n - 1) as nat, k);
                lemma_pow2_step((n - 2) as nat);
            }
            let first_block_layer1: usize = shifted_left(b, log_h - 2 - mid);
            let first_block_layer0: usize = shifted_left(b, log_h - 1 - mid);
            let twiddles1: &[F] = slice_subrange(self.twiddles_rev, first_block_layer1, tw_len);
            let twiddles0: &[F] = slice_subrange(self.twiddles_rev, first_block_layer0, tw_len);
            assert(twiddles1@ == tw((k - 2) as nat));
            assert(twiddles0@ == tw((k - 1) as nat));
            if !scale_applied {
                dit_layer_rev_last2_flat_scaled(chunk, width, twiddles1, twiddles0, self.scale);
            } else {
                dit_layer_rev_last2_flat(chunk, width, twiddles1, twiddles0);
            }
            proof {
                assert forall|c: int| 0 <= c < w implies #[trigger] column(chunk@, w, c)
                    == scaled::<F>(
                    layers_rev::<F>(column(before, w, c), tw, mid as nat, k),
                    factor,
                ) by {
                    let col = column(at_layer, w, c);
                    lemma_last_two::<F>(col, tw, k);
                    lemma_fused_layers::<F>(
                        col,
                        twiddles1@,
                        twiddles0@,
                        if scale_applied {
                            None
                        } else {
                            factor
                        },
                    );
                    assert(layers_rev::<F>(col, tw, (k - 2) as nat, k) == if scale_applied {
                        scaled::<F>(
                            layers_rev::<F>(column(before, w, c), tw, mid as nat, k),
                            factor,
                        )
                    } else {
                        layers_rev::<F>(column(before, w, c), tw, mid as nat, k)
                    });
                }
            }
        }
        if !scale_applied && !fuse_last_two {
            // There are no layers, but the factor still has to be applied.
            if let Some(s) = self.scale {
                scale_values(chunk, width, s);
            }
        }
    }
}

/// The last two layers of a run.
proof fn lemma_last_two<F: Field>(s: Seq<F::Value>, tw: spec_fn(nat) -> Seq<F>, k: nat)
    requires
        k >= 2,
    ensures
        layers_rev::<F>(s, tw, (k - 2) as nat, k) == last_two_layers::<F>(
            s,
            tw((k - 2) as nat),
            tw((k - 1) as nat),
        ),
{
    lemma2_to64();
    let next = butterfly_layer::<F>(s, 2, per_block(tw((k - 2) as nat)));
    let last = butterfly_layer::<F>(next, 1, per_block(tw((k - 1) as nat)));
    assert(layers_rev::<F>(s, tw, (k - 2) as nat, k) == layers_rev::<F>(
        next,
        tw,
        (k - 1) as nat,
        k,
    ));
    assert(layers_rev::<F>(next, tw, (k - 1) as nat, k) == layers_rev::<F>(last, tw, k, k));
}

/// The layers after the first `mid`, on rows in bit-reversed order. One list holds a twiddle factor
/// for each block of each layer.
///
/// Where there is a factor, the results are multiplied by it. It is folded into the first of the
/// layers.
pub(crate) fn second_half<F: Field>(
    mat: &mut [F],
    width: usize,
    mid: usize,
    twiddles_rev: &[F],
    scale: Option<F>,
)
    requires
        is_shaped(old(mat)@.len() as int, width as int),
        is_pow2(old(mat)@.len() as int / width as int),
        mid <= log2(old(mat)@.len() as int / width as int),
        mid < log2(old(mat)@.len() as int / width as int) ==> (old(mat)@.len() as int
            / width as int) / 2 <= twiddles_rev@.len(),
    ensures
        final(mat)@.len() == old(mat)@.len(),
        forall|c: int|
            0 <= c < width ==> #[trigger] column(final(mat)@, width as int, c) == scaled::<F>(
                layers_rev::<F>(
                    column(old(mat)@, width as int, c),
                    one_list::<F>(twiddles_rev@),
                    mid as nat,
                    log2(old(mat)@.len() as int / width as int),
                ),
                factor_value(scale),
            ),
{
    let height: usize = mat.len() / width;
    let log_h: usize = p3_util::log2_strict_usize(height);
    let ghost k: nat = log_h as nat;
    let ghost n: nat = (log_h - mid) as nat;
    proof {
        lemma_shape(mat@.len() as int, width as int);
        lemma_chunk_sizes(n, k);
        assert((k - n) as nat == mid);
    }
    let op = SecondHalf { twiddles_rev, log_h, mid, scale };
    let ghost before = mat@;
    for_each_row_chunk(&op, mat, width, two_to_the(log_h - mid), false);
    proof {
        let tw = one_list::<F>(twiddles_rev@);
        let factor = factor_value(scale);
        let f = |q: int, blk: Seq<F::Value>|
            layers_rev::<F>(blk, chunk_twiddles::<F>(tw, q, mid as nat), mid as nat, k);
        let g = |q: int, blk: Seq<F::Value>| scaled::<F>(f(q, blk), factor);
        assert forall|i: nat| mid <= i < k implies pow2(i) <= (#[trigger] tw(i)).len() by {
            lemma_pow2_mono(i, (k - 1) as nat);
            lemma_pow2_step((k - 1) as nat);
        }
        assert forall|c: int| 0 <= c < width implies #[trigger] column(mat@, width as int, c)
            == scaled::<F>(
            layers_rev::<F>(column(before, width as int, c), tw, mid as nat, k),
            factor,
        ) by {
            let col = column(before, width as int, c);
            assert((|b: int, s: Seq<F::Value>| op.image(b, c, s)) =~= g);
            lemma_layers_rev_blockwise::<F>(col, tw, mid as nat, k);
            let l = blockwise(col, pow2(n) as int, g);
            let r = scaled::<F>(blockwise(col, pow2(n) as int, f), factor);
            assert forall|i: int| 0 <= i < col.len() implies l[i] == r[i] by {
                lemma_block_index(height as int, pow2(n) as int, i);
                let q: int = i / pow2(n) as int;
                lemma_block_within(height as int, pow2(n) as int, q);
                lemma_layers_rev_len::<F>(
                    block(col, pow2(n) as int, q),
                    chunk_twiddles::<F>(tw, q, mid as nat),
                    mid as nat,
                    k,
                );
            }
            assert(l =~= r);
        }
    }
}

/// The chunks of the second half of a network with a list of twiddle factors for each layer.
struct SecondHalfGeneral<'a, F: Field> {
    twiddles_rev: &'a [Vec<F>],
    log_h: usize,
    mid: usize,
}

impl<'a, F: Field> ChunkOp<F> for SecondHalfGeneral<'a, F> {
    closed spec fn image(&self, b: int, c: int, s: Seq<F::Value>) -> Seq<F::Value> {
        layers_rev::<F>(
            s,
            chunk_twiddles::<F>(
                list_of_layer::<F>(self.twiddles_rev@, self.log_h as nat),
                b,
                self.mid as nat,
            ),
            self.mid as nat,
            self.log_h as nat,
        )
    }

    closed spec fn accepts(&self, b: int, rows: int, width: int) -> bool {
        &&& self.mid <= self.log_h
        &&& rows == pow2((self.log_h - self.mid) as nat)
        &&& pow2(self.log_h as nat) <= usize::MAX
        &&& cover_last_layers(self.twiddles_rev@, self.mid as nat, self.log_h as nat)
        &&& 0 <= b < pow2(self.mid as nat)
    }

    fn process(&self, b: usize, chunk: &mut [F], width: usize) {
        let log_h: usize = self.log_h;
        let mid: usize = self.mid;
        let ghost w: int = width as int;
        let ghost k: nat = log_h as nat;
        let ghost n: nat = (log_h - mid) as nat;
        let ghost q: int = b as int;
        let ghost lists = list_of_layer::<F>(self.twiddles_rev@, k);
        let ghost tw = chunk_twiddles::<F>(lists, q, mid as nat);
        let ghost before = chunk@;
        proof {
            assert((k - n) as nat == mid);
        }
        let mut backwards: bool = false;
        let mut layer: usize = mid;
        while layer < log_h
            invariant
                w == width,
                log_h == self.log_h,
                mid == self.mid,
                k == log_h,
                n == log_h - mid,
                mid <= log_h,
                q == b,
                0 <= q < pow2((k - n) as nat),
                lists == list_of_layer::<F>(self.twiddles_rev@, k),
                tw == chunk_twiddles::<F>(lists, q, mid as nat),
                is_shaped(before.len() as int, w),
                chunk@.len() == before.len(),
                before.len() as int / w == pow2(n),
                pow2(k) <= usize::MAX,
                cover_last_layers(self.twiddles_rev@, mid as nat, k),
                mid <= layer <= log_h,
                forall|c: int|
                    0 <= c < w ==> layers_rev::<F>(
                        #[trigger] column(chunk@, w, c),
                        tw,
                        layer as nat,
                        k,
                    ) == layers_rev::<F>(column(before, w, c), tw, mid as nat, k),
            decreases log_h - layer,
        {
            let ghost l: nat = layer as nat;
            let ghost m: nat = (k - layer) as nat;
            let ghost h: int = pow2((k - 1 - l) as nat) as int;
            let ghost at_layer = chunk@;
            let layer_rev: usize = log_h - 1 - layer;
            proof {
                lemma2_to64();
                lemma_block_range(k, n, m, q);
                assert((layer - mid) as nat == (n - m) as nat);
                lemma_pow2_mono((n - m) as nat, k);
                lemma_pow2_step((k - 1 - l) as nat);
                assert(pow2(l) <= self.twiddles_rev@[k - 1 - l]@.len());
                assert((k - m) as nat == l);
            }
            let first_block: usize = shifted_left(b, layer - mid);
            if layer_rev == 1 && log_h - mid >= 2 {
                // This layer and the next are the last two: both are done in one pass.
                proof {
                    lemma_block_range(k, n, 1, q);
                    lemma_pow2_step((n - 2) as nat);
                    assert(first_block * 2 == q * pow2((n - 1) as nat)) by (nonlinear_arith)
                        requires
                            first_block == q * pow2((n - 2) as nat),
                            pow2((n - 1) as nat) == 2 * pow2((n - 2) as nat),
                    ;
                    assert(pow2((l + 1) as nat) <= self.twiddles_rev@[k - 1 - (l + 1)]@.len());
                }
                let len1: usize = self.twiddles_rev[1].len();
                let len0: usize = self.twiddles_rev[0].len();
                let twiddles1: &[F] = slice_subrange(
                    self.twiddles_rev[1].as_slice(),
                    first_block,
                    len1,
                );
                let twiddles0: &[F] = slice_subrange(
                    self.twiddles_rev[0].as_slice(),
                    first_block * 2,
                    len0,
                );
                assert(twiddles1@ == tw((k - 2) as nat));
                assert(twiddles0@ == tw((k - 1) as nat));
                dit_layer_rev_last2(chunk, width, twiddles1, twiddles0);
                proof {
                    assert forall|c: int| 0 <= c < w implies layers_rev::<F>(
                        #[trigger] column(chunk@, w, c),
                        tw,
                        k,
                        k,
                    ) == layers_rev::<F>(column(before, w, c), tw, mid as nat, k) by {
                        let col = column(at_layer, w, c);
                        lemma_last_two::<F>(col, tw, k);
                        lemma_fused_layers::<F>(col, twiddles1@, twiddles0@, None);
                        assert(layers_rev::<F>(col, tw, l, k) == layers_rev::<F>(
                            column(before, w, c),
                            tw,
                            mid as nat,
                            k,
                        ));
                    }
                }
                layer = layer + 2;
            } else {
                let len: usize = self.twiddles_rev[layer_rev].len();
                let twiddles: &[F] = slice_subrange(
                    self.twiddles_rev[layer_rev].as_slice(),
                    first_block,
                    len,
                );
                assert(twiddles@ == tw(l));
                if layer_rev == 0 {
                    dit_layer_rev_last(chunk, width, twiddles);
                } else {
                    dit_layer_rev(chunk, width, log_h, layer, twiddles, backwards);
                }
                proof {
                    assert forall|c: int| 0 <= c < w implies layers_rev::<F>(
                        #[trigger] column(chunk@, w, c),
                        tw,
                        l + 1,
                        k,
                    ) == layers_rev::<F>(column(before, w, c), tw, mid as nat, k) by {
                        let col = column(at_layer, w, c);
                        lemma_rev_layer_full::<F>(col, h, tw(l), None);
                        assert(layers_rev::<F>(col, tw, l, k) == layers_rev::<F>(
                            column(before, w, c),
                            tw,
                            mid as nat,
                            k,
                        ));
                    }
                }
                backwards = !backwards;
                layer = layer + 1;
            }
        }
    }
}

/// Like [`second_half`], with a list of twiddle factors for each layer. The lists are stored from
/// the last layer to the first.
pub(crate) fn second_half_general<F: Field>(
    mat: &mut [F],
    width: usize,
    mid: usize,
    twiddles_rev: &[Vec<F>],
)
    requires
        is_shaped(old(mat)@.len() as int, width as int),
        is_pow2(old(mat)@.len() as int / width as int),
        mid <= log2(old(mat)@.len() as int / width as int),
        cover_last_layers(
            twiddles_rev@,
            mid as nat,
            log2(old(mat)@.len() as int / width as int),
        ),
    ensures
        final(mat)@.len() == old(mat)@.len(),
        forall|c: int|
            0 <= c < width ==> #[trigger] column(final(mat)@, width as int, c) == layers_rev::<F>(
                column(old(mat)@, width as int, c),
                list_of_layer::<F>(twiddles_rev@, log2(old(mat)@.len() as int / width as int)),
                mid as nat,
                log2(old(mat)@.len() as int / width as int),
            ),
{
    let height: usize = mat.len() / width;
    let log_h: usize = p3_util::log2_strict_usize(height);
    let ghost k: nat = log_h as nat;
    let ghost n: nat = (log_h - mid) as nat;
    proof {
        lemma_shape(mat@.len() as int, width as int);
        lemma_chunk_sizes(n, k);
        assert((k - n) as nat == mid);
    }
    let op = SecondHalfGeneral { twiddles_rev, log_h, mid };
    let ghost before = mat@;
    for_each_row_chunk(&op, mat, width, two_to_the(log_h - mid), false);
    proof {
        let tw = list_of_layer::<F>(twiddles_rev@, k);
        let f = |q: int, blk: Seq<F::Value>|
            layers_rev::<F>(blk, chunk_twiddles::<F>(tw, q, mid as nat), mid as nat, k);
        assert forall|i: nat| mid <= i < k implies pow2(i) <= (#[trigger] tw(i)).len() by {
            assert(pow2(i) <= twiddles_rev@[k - 1 - i]@.len());
        }
        assert forall|c: int| 0 <= c < width implies #[trigger] column(mat@, width as int, c)
            == layers_rev::<F>(column(before, width as int, c), tw, mid as nat, k) by {
            assert((|b: int, s: Seq<F::Value>| op.image(b, c, s)) =~= f);
            lemma_layers_rev_blockwise::<F>(column(before, width as int, c), tw, mid as nat, k);
        }
    }
}

} // verus!
