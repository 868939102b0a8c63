//! Layers that are run one after another.

use vstd::prelude::*;
use vstd::arithmetic::power2::*;
use crate::bits::lemma_pow2_step;
use crate::chunks::{block, blockwise, lemma_block_index};
use crate::field::Field;
use crate::layers::{butterfly_layer, lemma_layer_chunk, lemma_layer_of_scaled, per_block, per_row};
use crate::polynomial::scaled;

verus! {

/// The layers `l`, `l + 1`, ..., `mid - 1` of a network, run one after another. Layer `l` has
/// blocks of `2^(l + 1)` entries, with the same twiddle factors in each block: every `step(l)`-th
/// of the list `tw(l)`.
pub open spec fn layers_dit<F: Field>(
    s: Seq<F::Value>,
    tw: spec_fn(nat) -> Seq<F>,
    step: spec_fn(nat) -> int,
    l: nat,
    mid: nat,
) -> Seq<F::Value>
    decreases mid - l,
{
    if l >= mid {
        s
    } else {
        layers_dit::<F>(
            butterfly_layer::<F>(s, pow2(l) as int, per_row(tw(l), step(l))),
            tw,
            step,
            l + 1,
            mid,
        )
    }
}

/// The layers `l`, `l + 1`, ..., `k - 1` of a network of `2^k` rows in bit-reversed order, run one
/// after another. Layer `l` has blocks of `2^(k - l)` entries, with one twiddle factor of the list
/// `tw(l)` for each block.
pub open spec fn layers_rev<F: Field>(
    s: Seq<F::Value>,
    tw: spec_fn(nat) -> Seq<F>,
    l: nat,
    k: nat,
) -> Seq<F::Value>
    decreases k - l,
{
    if l >= k {
        s
    } else {
        layers_rev::<F>(
            butterfly_layer::<F>(s, pow2((k - 1 - l) as nat) as int, per_block(tw(l))),
            tw,
            l + 1,
            k,
        )
    }
}

/// One list that serves all layers.
pub open spec fn one_list<F: Field>(tw: Seq<F>) -> spec_fn(nat) -> Seq<F> {
    |l: nat| tw
}

/// The lists of a network with `k` layers, which are stored from the last layer to the first.
pub open spec fn list_of_layer<F: Field>(tw: Seq<Vec<F>>, k: nat) -> spec_fn(nat) -> Seq<F> {
    |l: nat| tw[k - 1 - l]@
}

/// The distances at which the first layers of a network with `k` layers find their twiddle factors
/// in one list.
pub open spec fn power_steps(k: nat) -> spec_fn(nat) -> int {
    |l: nat| pow2((k - 1 - l) as nat) as int
}

/// All entries of a list.
pub open spec fn unit_steps() -> spec_fn(nat) -> int {
    |l: nat| 1
}

/// The twiddle factors for the chunk with index `q`, where there is one chunk in layer `mid` for
/// each block.
pub open spec fn chunk_twiddles<F: Field>(
    tw: spec_fn(nat) -> Seq<F>,
    q: int,
    mid: nat,
) -> spec_fn(nat) -> Seq<F> {
    |l: nat| tw(l).subrange(q * pow2((l - mid) as nat), tw(l).len() as int)
}

/// Layers do not change the number of entries.
pub proof fn lemma_layers_dit_len<F: Field>(
    s: Seq<F::Value>,
    tw: spec_fn(nat) -> Seq<F>,
    step: spec_fn(nat) -> int,
    l: nat,
    mid: nat,
)
    ensures
        layers_dit::<F>(s, tw, step, l, mid).len() == s.len(),
    decreases mid - l,
{
    if l < mid {
        let next = butterfly_layer::<F>(s, pow2(l) as int, per_row(tw(l), step(l)));
        lemma_layers_dit_len::<F>(next, tw, step, l + 1, mid);
    }
}

/// Layers do not change the number of entries.
pub proof fn lemma_layers_rev_len<F: Field>(
    s: Seq<F::Value>,
    tw: spec_fn(nat) -> Seq<F>,
    l: nat,
    k: nat,
)
    ensures
        layers_rev::<F>(s, tw, l, k).len() == s.len(),
    decreases k - l,
{
    if l < k {
        let next = butterfly_layer::<F>(s, pow2((k - 1 - l) as nat) as int, per_block(tw(l)));
        lemma_layers_rev_len::<F>(next, tw, l + 1, k);
    }
}

/// A sequence is put together from its blocks.
proof fn lemma_from_blocks<V>(
    s: Seq<V>,
    whole: Seq<V>,
    size: int,
    f: spec_fn(int, Seq<V>) -> Seq<V>,
)
    requires
        0 < size,
        s.len() as int % size == 0,
        whole.len() == s.len(),
        forall|q: int|
            0 <= q < s.len() as int / size ==> #[trigger] block(whole, size, q) == f(
                q,
                block(s, size, q),
            ),
    ensures
        whole == blockwise(s, size, f),
{
    let r = blockwise(s, size, f);
    assert forall|i: int| 0 <= i < s.len() implies whole[i] == r[i] by {
        lemma_block_index(s.len() as int, size, i);
        let q: int = i / size;
        crate::chunks::lemma_block_within(s.len() as int, size, q);
        assert(block(whole, size, q)[i % size] == whole[i]);
    }
    assert(whole =~= r);
}

/// Each chunk of `2^mid` entries goes through the layers by itself.
proof fn lemma_layers_dit_chunk<F: Field>(
    s: Seq<F::Value>,
    tw: spec_fn(nat) -> Seq<F>,
    step: spec_fn(nat) -> int,
    l: nat,
    mid: nat,
    q: int,
)
    requires
        l <= mid,
        s.len() as int % (pow2(mid) as int) == 0,
        0 <= q < s.len() as int / (pow2(mid) as int),
    ensures
        block(layers_dit::<F>(s, tw, step, l, mid), pow2(mid) as int, q) == layers_dit::<F>(
            block(s, pow2(mid) as int, q),
            tw,
            step,
            l,
            mid,
        ),
    decreases mid - l,
{
    if l < mid {
        let h: int = pow2(l) as int;
        let t = per_row(tw(l), step(l));
        let m: nat = pow2((mid - l - 1) as nat);
        lemma_pow2_step(l);
        lemma_pow2_adds((mid - l - 1) as nat, l + 1);
        lemma_pow2_pos((mid - l - 1) as nat);
        assert(pow2(mid) == m * (2 * h));
        lemma_layer_chunk::<F>(s, h, t, m as int, q, t);
        lemma_layers_dit_chunk::<F>(butterfly_layer::<F>(s, h, t), tw, step, l + 1, mid, q);
    }
}

/// The first `mid` layers can be run chunk by chunk.
pub proof fn lemma_layers_dit_blockwise<F: Field>(
    s: Seq<F::Value>,
    tw: spec_fn(nat) -> Seq<F>,
    step: spec_fn(nat) -> int,
    mid: nat,
)
    requires
        s.len() as int % (pow2(mid) as int) == 0,
    ensures
        layers_dit::<F>(s, tw, step, 0, mid) == blockwise(
            s,
            pow2(mid) as int,
            |b: int, blk: Seq<F::Value>| layers_dit::<F>(blk, tw, step, 0, mid),
        ),
{
    let size: int = pow2(mid) as int;
    let whole = layers_dit::<F>(s, tw, step, 0, mid);
    let f = |b: int, blk: Seq<F::Value>| layers_dit::<F>(blk, tw, step, 0, mid);
    lemma_pow2_pos(mid);
    lemma_layers_dit_len::<F>(s, tw, step, 0, mid);
    assert forall|q: int| 0 <= q < s.len() as int / size implies #[trigger] block(whole, size, q)
        == f(q, block(s, size, q)) by {
        lemma_layers_dit_chunk::<F>(s, tw, step, 0, mid, q);
    }
    lemma_from_blocks(s, whole, size, f);
}

/// Each chunk of `2^(k - mid)` entries goes through the layers by itself, with its own twiddle
/// factors.
proof fn lemma_layers_rev_chunk<F: Field>(
    s: Seq<F::Value>,
    tw: spec_fn(nat) -> Seq<F>,
    mid: nat,
    l: nat,
    k: nat,
    q: int,
)
    requires
        mid <= l <= k,
        s.len() == pow2(k),
        0 <= q < pow2(mid),
        forall|i: nat| mid <= i < k ==> pow2(i) <= (#[trigger] tw(i)).len(),
    ensures
        block(layers_rev::<F>(s, tw, l, k), pow2((k - mid) as nat) as int, q) == layers_rev::<F>(
            block(s, pow2((k - mid) as nat) as int, q),
            chunk_twiddles::<F>(tw, q, mid),
            l,
            k,
        ),
    decreases k - l,
{
    if l < k {
        let e: nat = (k - 1 - l) as nat;
        let h: int = pow2(e) as int;
        let t = per_block(tw(l));
        let m: int = pow2((l - mid) as nat) as int;
        let mine = chunk_twiddles::<F>(tw, q, mid)(l);
        let u = per_block(mine);
        lemma_pow2_step(e);
        lemma_pow2_adds((l - mid) as nat, e + 1);
        lemma_pow2_pos((l - mid) as nat);
        assert((l - mid) as nat + (e + 1) == (k - mid) as nat);
        assert(pow2((k - mid) as nat) == m * (2 * h));
        lemma_pow2_adds(mid, (k - mid) as nat);
        lemma_pow2_pos((k - mid) as nat);
        let size: int = pow2((k - mid) as nat) as int;
        vstd::arithmetic::div_mod::lemma_mod_multiples_basic(pow2(mid) as int, size);
        vstd::arithmetic::div_mod::lemma_div_by_multiple(pow2(mid) as int, size);
        lemma_pow2_adds(mid, (l - mid) as nat);
        assert forall|b: int, j: int| 0 <= b < m && 0 <= j < h implies #[trigger] u(b, j) == t(
            q * m + b,
            j,
        ) by {
            assert(0 <= q * m && q * m + b < pow2(mid) * m) by (nonlinear_arith)
                requires
                    0 <= q < pow2(mid),
                    0 <= b < m,
            ;
            assert(pow2(mid) * m == pow2(l));
            assert(mine[b] == tw(l)[q * m + b]);
        }
        lemma_layer_chunk::<F>(s, h, t, m, q, u);
        lemma_layers_rev_chunk::<F>(butterfly_layer::<F>(s, h, t), tw, mid, l + 1, k, q);
    }
}

/// The layers from `mid` on can be run chunk by chunk.
pub proof fn lemma_layers_rev_blockwise<F: Field>(
    s: Seq<F::Value>,
    tw: spec_fn(nat) -> Seq<F>,
    mid: nat,
    k: nat,
)
    requires
        mid <= k,
        s.len() == pow2(k),
        forall|i: nat| mid <= i < k ==> pow2(i) <= (#[trigger] tw(i)).len(),
    ensures
        layers_rev::<F>(s, tw, mid, k) == blockwise(
            s,
            pow2((k - mid) as nat) as int,
            |q: int, blk: Seq<F::Value>|
                layers_rev::<F>(blk, chunk_twiddles::<F>(tw, q, mid), mid, k),
        ),
{
    let size: int = pow2((k - mid) as nat) as int;
    let whole = layers_rev::<F>(s, tw, mid, k);
    let f = |q: int, blk: Seq<F::Value>|
        layers_rev::<F>(blk, chunk_twiddles::<F>(tw, q, mid), mid, k);
    lemma_pow2_adds(mid, (k - mid) as nat);
    lemma_pow2_pos((k - mid) as nat);
    vstd::arithmetic::div_mod::lemma_mod_multiples_basic(pow2(mid) as int, size);
    vstd::arithmetic::div_mod::lemma_div_by_multiple(pow2(mid) as int, size);
    lemma_layers_rev_len::<F>(s, tw, mid, k);
    assert forall|q: int| 0 <= q < s.len() as int / size implies #[trigger] block(whole, size, q)
        == f(q, block(s, size, q)) by {
        lemma_layers_rev_chunk::<F>(s, tw, mid, mid, k, q);
    }
    lemma_from_blocks(s, whole, size, f);
}

/// A common factor goes through all layers.
pub proof fn lemma_layers_rev_scaled<F: Field>(
    s: Seq<F::Value>,
    tw: spec_fn(nat) -> Seq<F>,
    l: nat,
    k: nat,
    factor: Option<F::Value>,
)
    requires
        l <= k,
        s.len() as int % (pow2((k - l) as nat) as int) == 0,
    ensures
        layers_rev::<F>(scaled::<F>(s, factor), tw, l, k) == scaled::<F>(
            layers_rev::<F>(s, tw, l, k),
            factor,
        ),
    decreases k - l,
{
    if l < k {
        let e: nat = (k - 1 - l) as nat;
        let h: int = pow2(e) as int;
        let t = per_block(tw(l));
        lemma_pow2_step(e);
        assert(e + 1 == (k - l) as nat);
        lemma_layer_of_scaled::<F>(s, h, t, factor);
        let n: int = s.len() as int;
        let b: int = n / (2 * h);
        crate::matrix::lemma_shape(n, 2 * h);
        assert(n == (2 * b) * h) by (nonlinear_arith)
            requires
                n == b * (2 * h),
        ;
        vstd::arithmetic::div_mod::lemma_mod_multiples_basic(2 * b, h);
        lemma_layers_rev_scaled::<F>(butterfly_layer::<F>(s, h, t), tw, l + 1, k, factor);
    }
}

} // verus!
