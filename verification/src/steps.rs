//! What the layers of the network do to single entries.
//!
//! The layers are specified block by block. The laws here say of each entry from which others it is
//! computed, and how layers that are run one after another are put together.

use vstd::prelude::*;
use vstd::arithmetic::power2::*;
use crate::algebra::{lemma_scaled_butterfly, pow};
use crate::bits::{bitrev, lemma_pow2_step};
use crate::butterflies::{Butterfly, DitButterfly, ScaledDitButterfly, TwiddleFreeButterfly};
use crate::chunks::{block, blockwise, lemma_block_of};
use crate::composition::{
    layers_dit, layers_rev, list_of_layer, one_list, power_steps, unit_steps,
};
use crate::evaluation::{are_coset_twiddles, are_powers, are_reversed_powers};
use crate::field::Field;
use crate::fused::{come_in_pairs, fused_layers};
use crate::halves::{cover_first_layers, cover_last_layers};
use crate::layers::{
    butterfly_layer, factor_value, listed_layer, per_block, per_row, rev_layer, uniform,
};

verus! {

/// The place of an entry of a block that lies within a sequence.
proof fn lemma_place(len: int, size: int, b: int, j: int)
    requires
        0 <= b,
        0 <= j < size,
        (b + 1) * size <= len,
    ensures
        0 <= b * size,
        (b + 1) * size == b * size + size,
        0 <= b * size + j < len,
        (b * size + j) / size == b,
        (b * size + j) % size == j,
{
    assert(0 <= b * size && (b + 1) * size == b * size + size) by (nonlinear_arith)
        requires
            0 <= b,
            0 < size,
    ;
    lemma_block_of(b * size + j, size, b, j);
}

/// Work that is done block by block replaces each block by its image.
pub proof fn law_block_entry<V>(
    s: Seq<V>,
    size: int,
    f: spec_fn(int, Seq<V>) -> Seq<V>,
    b: int,
    j: int,
)
    requires
        0 <= b,
        0 <= j < size,
        (b + 1) * size <= s.len(),
    ensures
        blockwise(s, size, f).len() == s.len(),
        blockwise(s, size, f)[b * size + j] == f(b, s.subrange(b * size, (b + 1) * size))[j],
{
    lemma_place(s.len() as int, size, b, j);
}

/// A butterfly turns `x` and `y` into `x + y * t` and `x - y * t`, with `t` one where there is no
/// twiddle factor. Where the results are multiplied by a factor, it is that of the same results.
pub proof fn law_butterflies<F: Field>(
    twiddle: F,
    scaled_one: ScaledDitButterfly<F>,
    scale: F,
    x: F::Value,
    y: F::Value,
)
    requires
        // what `ScaledDitButterfly::new` ensures
        scaled_one.scale() == scale.value(),
        scaled_one.twiddle_times_scale() == F::times(twiddle.value(), scale.value()),
    ensures
        DitButterfly(twiddle).first(x, y) == F::plus(x, F::times(y, twiddle.value())),
        DitButterfly(twiddle).second(x, y) == F::plus(x, F::negate(F::times(y, twiddle.value()))),
        <TwiddleFreeButterfly as Butterfly<F>>::first(&TwiddleFreeButterfly, x, y) == F::plus(x, y),
        <TwiddleFreeButterfly as Butterfly<F>>::second(&TwiddleFreeButterfly, x, y) == F::plus(
            x,
            F::negate(y),
        ),
        scaled_one.first(x, y) == F::times(
            F::plus(x, F::times(y, twiddle.value())),
            scale.value(),
        ),
        scaled_one.second(x, y) == F::times(
            F::plus(x, F::negate(F::times(y, twiddle.value()))),
            scale.value(),
        ),
{
    lemma_scaled_butterfly::<F>(x, y, twiddle.value(), scale.value());
}

/// The twiddle factors that the layers find in their lists, and the value of an optional factor.
pub proof fn law_twiddles_in_lists<F: Field>(
    twiddles: Seq<F>,
    lists: Seq<Vec<F>>,
    t: F,
    step: int,
    k: nat,
    l: nat,
    b: int,
    j: int,
)
    ensures
        per_row(twiddles, step)(b, j) == twiddles[j * step].value(),
        per_block(twiddles)(b, j) == twiddles[b].value(),
        uniform::<F>(t.value())(b, j) == t.value(),
        one_list::<F>(twiddles)(l) == twiddles,
        list_of_layer::<F>(lists, k)(l) == lists[k - 1 - l]@,
        power_steps(k)(l) == pow2((k - 1 - l) as nat),
        unit_steps()(l) == 1,
        factor_value::<F>(None) is None,
        factor_value(Some(t)) == Some(t.value()),
{
}

/// In a layer with blocks of `2 * half` entries, each entry of the lower half of a block and the one
/// `half` places further on go through one butterfly.
pub proof fn law_layer_entry<F: Field>(
    s: Seq<F::Value>,
    half: int,
    t: spec_fn(int, int) -> F::Value,
    b: int,
    j: int,
)
    requires
        0 <= b,
        0 <= j < half,
        (b + 1) * (2 * half) <= s.len(),
    ensures
        butterfly_layer::<F>(s, half, t).len() == s.len(),
        butterfly_layer::<F>(s, half, t)[b * (2 * half) + j] == F::plus(
            s[b * (2 * half) + j],
            F::times(s[b * (2 * half) + (half + j)], t(b, j)),
        ),
        butterfly_layer::<F>(s, half, t)[b * (2 * half) + (half + j)] == F::plus(
            s[b * (2 * half) + j],
            F::negate(F::times(s[b * (2 * half) + (half + j)], t(b, j))),
        ),
{
    lemma_place(s.len() as int, 2 * half, b, j);
    lemma_place(s.len() as int, 2 * half, b, half + j);
}

/// In a layer whose blocks take every `step`-th factor of a list, the pair with index `j` of each
/// block takes the factor with index `j * step`. Without one, the pair is left as it is.
pub proof fn law_listed_entry<F: Field>(
    s: Seq<F::Value>,
    half: int,
    twiddles: Seq<F>,
    step: int,
    b: int,
    j: int,
)
    requires
        0 <= b,
        0 <= step,
        0 <= j < half,
        (b + 1) * (2 * half) <= s.len(),
    ensures
        listed_layer::<F>(s, half, twiddles, step).len() == s.len(),
        j * step < twiddles.len() ==> {
            &&& listed_layer::<F>(s, half, twiddles, step)[b * (2 * half) + j] == F::plus(
                s[b * (2 * half) + j],
                F::times(s[b * (2 * half) + (half + j)], twiddles[j * step].value()),
            )
            &&& listed_layer::<F>(s, half, twiddles, step)[b * (2 * half) + (half + j)] == F::plus(
                s[b * (2 * half) + j],
                F::negate(F::times(s[b * (2 * half) + (half + j)], twiddles[j * step].value())),
            )
        },
        j * step >= twiddles.len() ==> {
            &&& listed_layer::<F>(s, half, twiddles, step)[b * (2 * half) + j] == s[b * (2 * half)
                + j]
            &&& listed_layer::<F>(s, half, twiddles, step)[b * (2 * half) + (half + j)] == s[b * (2
                * half) + (half + j)]
        },
{
    lemma_place(s.len() as int, 2 * half, b, j);
    lemma_place(s.len() as int, 2 * half, b, half + j);
}

/// In a layer on rows in bit-reversed order, all pairs of a block take the factor with the index of
/// the block, and the results are multiplied by the common factor, where there is one. Without a
/// twiddle factor, the block is left as it is.
pub proof fn law_rev_entry<F: Field>(
    s: Seq<F::Value>,
    half: int,
    twiddles: Seq<F>,
    a: F::Value,
    b: int,
    j: int,
)
    requires
        0 <= b,
        0 <= j < half,
        (b + 1) * (2 * half) <= s.len(),
    ensures
        rev_layer::<F>(s, half, twiddles, None).len() == s.len(),
        rev_layer::<F>(s, half, twiddles, Some(a)).len() == s.len(),
        b < twiddles.len() ==> {
            let lo: F::Value = F::plus(
                s[b * (2 * half) + j],
                F::times(s[b * (2 * half) + (half + j)], twiddles[b].value()),
            );
            let hi: F::Value = F::plus(
                s[b * (2 * half) + j],
                F::negate(F::times(s[b * (2 * half) + (half + j)], twiddles[b].value())),
            );
            &&& rev_layer::<F>(s, half, twiddles, None)[b * (2 * half) + j] == lo
            &&& rev_layer::<F>(s, half, twiddles, None)[b * (2 * half) + (half + j)] == hi
            &&& rev_layer::<F>(s, half, twiddles, Some(a))[b * (2 * half) + j] == F::times(lo, a)
            &&& rev_layer::<F>(s, half, twiddles, Some(a))[b * (2 * half) + (half + j)] == F::times(
                hi,
                a,
            )
        },
        b >= twiddles.len() ==> {
            &&& rev_layer::<F>(s, half, twiddles, None)[b * (2 * half) + j] == s[b * (2 * half) + j]
            &&& rev_layer::<F>(s, half, twiddles, None)[b * (2 * half) + (half + j)] == s[b * (2
                * half) + (half + j)]
            &&& rev_layer::<F>(s, half, twiddles, Some(a))[b * (2 * half) + j] == s[b * (2 * half)
                + j]
            &&& rev_layer::<F>(s, half, twiddles, Some(a))[b * (2 * half) + (half + j)] == s[b * (2
                * half) + (half + j)]
        },
{
    lemma_place(s.len() as int, 2 * half, b, j);
    lemma_place(s.len() as int, 2 * half, b, half + j);
}

/// In a fused pass, the four entries of a block go through butterflies two places apart and then
/// through butterflies of neighbours, and the results are multiplied by the common factor, where
/// there is one. Without twiddle factors, the block is left as it is.
pub proof fn law_fused_entry<F: Field>(
    s: Seq<F::Value>,
    twiddles1: Seq<F>,
    twiddles0: Seq<F>,
    a: F::Value,
    b: int,
)
    requires
        0 <= b,
        4 * b + 4 <= s.len(),
    ensures
        fused_layers::<F>(s, twiddles1, twiddles0, None).len() == s.len(),
        fused_layers::<F>(s, twiddles1, twiddles0, Some(a)).len() == s.len(),
        b < twiddles1.len() && 2 * b + 1 < twiddles0.len() ==> {
            let t1: F::Value = twiddles1[b].value();
            let ta: F::Value = twiddles0[2 * b].value();
            let tb: F::Value = twiddles0[2 * b + 1].value();
            let n0: F::Value = F::plus(s[4 * b], F::times(s[4 * b + 2], t1));
            let n1: F::Value = F::plus(s[4 * b + 1], F::times(s[4 * b + 3], t1));
            let n2: F::Value = F::plus(s[4 * b], F::negate(F::times(s[4 * b + 2], t1)));
            let n3: F::Value = F::plus(s[4 * b + 1], F::negate(F::times(s[4 * b + 3], t1)));
            let m0: F::Value = F::plus(n0, F::times(n1, ta));
            let m1: F::Value = F::plus(n0, F::negate(F::times(n1, ta)));
            let m2: F::Value = F::plus(n2, F::times(n3, tb));
            let m3: F::Value = F::plus(n2, F::negate(F::times(n3, tb)));
            &&& fused_layers::<F>(s, twiddles1, twiddles0, None)[4 * b] == m0
            &&& fused_layers::<F>(s, twiddles1, twiddles0, None)[4 * b + 1] == m1
            &&& fused_layers::<F>(s, twiddles1, twiddles0, None)[4 * b + 2] == m2
            &&& fused_layers::<F>(s, twiddles1, twiddles0, None)[4 * b + 3] == m3
            &&& fused_layers::<F>(s, twiddles1, twiddles0, Some(a))[4 * b] == F::times(m0, a)
            &&& fused_layers::<F>(s, twiddles1, twiddles0, Some(a))[4 * b + 1] == F::times(m1, a)
            &&& fused_layers::<F>(s, twiddles1, twiddles0, Some(a))[4 * b + 2] == F::times(m2, a)
            &&& fused_layers::<F>(s, twiddles1, twiddles0, Some(a))[4 * b + 3] == F::times(m3, a)
        },
        b >= twiddles1.len() || 2 * b + 1 >= twiddles0.len() ==> forall|j: int|
            0 <= j < 4 ==> {
                &&& #[trigger] fused_layers::<F>(s, twiddles1, twiddles0, None)[4 * b + j] == s[4
                    * b + j]
                &&& fused_layers::<F>(s, twiddles1, twiddles0, Some(a))[4 * b + j] == s[4 * b + j]
            },
{
    assert forall|j: int| 0 <= j < 4 implies block(s, 4, #[trigger] ((4 * b + j) / 4))[j] == s[4 * b
        + j] && (4 * b + j) / 4 == b && (4 * b + j) % 4 == j by {}
    assert((4 * b + 0) / 4 == b && (4 * b + 1) / 4 == b && (4 * b + 2) / 4 == b && (4 * b + 3) / 4
        == b);
}

/// Running no layer changes nothing, and running layers in two parts is running them at once.
pub proof fn law_dit_layers_compose<F: Field>(
    s: Seq<F::Value>,
    tw: spec_fn(nat) -> Seq<F>,
    step: spec_fn(nat) -> int,
    l: nat,
    m: nat,
    mid: nat,
)
    requires
        l <= m <= mid,
    ensures
        layers_dit::<F>(s, tw, step, l, l) == s,
        layers_dit::<F>(s, tw, step, l, mid) == layers_dit::<F>(
            layers_dit::<F>(s, tw, step, l, m),
            tw,
            step,
            m,
            mid,
        ),
    decreases m - l,
{
    if l < m {
        let next = butterfly_layer::<F>(s, pow2(l) as int, per_row(tw(l), step(l)));
        law_dit_layers_compose::<F>(next, tw, step, l + 1, m, mid);
    }
}

/// What the single layer `l` does: blocks of `2^(l + 1)` entries, with the same twiddle factors in
/// each.
pub proof fn law_dit_layer_entry<F: Field>(
    s: Seq<F::Value>,
    tw: spec_fn(nat) -> Seq<F>,
    step: spec_fn(nat) -> int,
    l: nat,
    b: int,
    j: int,
)
    requires
        0 <= b,
        0 <= j < pow2(l),
        (b + 1) * (2 * pow2(l)) <= s.len(),
    ensures
        layers_dit::<F>(s, tw, step, l, l + 1).len() == s.len(),
        layers_dit::<F>(s, tw, step, l, l + 1)[b * (2 * pow2(l)) + j] == F::plus(
            s[b * (2 * pow2(l)) + j],
            F::times(s[b * (2 * pow2(l)) + (pow2(l) + j)], tw(l)[j * step(l)].value()),
        ),
        layers_dit::<F>(s, tw, step, l, l + 1)[b * (2 * pow2(l)) + (pow2(l) + j)] == F::plus(
            s[b * (2 * pow2(l)) + j],
            F::negate(F::times(s[b * (2 * pow2(l)) + (pow2(l) + j)], tw(l)[j * step(l)].value())),
        ),
{
    reveal_with_fuel(layers_dit, 2);
    law_layer_entry::<F>(s, pow2(l) as int, per_row(tw(l), step(l)), b, j);
}

/// Running no layer changes nothing, and after one layer the others follow.
pub proof fn law_rev_layers_compose<F: Field>(
    s: Seq<F::Value>,
    tw: spec_fn(nat) -> Seq<F>,
    l: nat,
    k: nat,
)
    ensures
        layers_rev::<F>(s, tw, k, k) == s,
        l < k ==> layers_rev::<F>(s, tw, l, k) == layers_rev::<F>(
            butterfly_layer::<F>(
                s,
                pow2((k - 1 - l) as nat) as int,
                |b: int, j: int| tw(l)[b].value(),
            ),
            tw,
            l + 1,
            k,
        ),
{
    if l < k {
        assert(per_block(tw(l)) =~= (|b: int, j: int| tw(l)[b].value()));
    }
}

/// What the last layer does: neighbours are paired, with one twiddle factor for each pair.
pub proof fn law_last_rev_layer_entry<F: Field>(
    s: Seq<F::Value>,
    tw: spec_fn(nat) -> Seq<F>,
    k: nat,
    b: int,
)
    requires
        0 < k,
        0 <= b,
        2 * b + 2 <= s.len(),
    ensures
        layers_rev::<F>(s, tw, (k - 1) as nat, k).len() == s.len(),
        layers_rev::<F>(s, tw, (k - 1) as nat, k)[2 * b] == F::plus(
            s[2 * b],
            F::times(s[2 * b + 1], tw((k - 1) as nat)[b].value()),
        ),
        layers_rev::<F>(s, tw, (k - 1) as nat, k)[2 * b + 1] == F::plus(
            s[2 * b],
            F::negate(F::times(s[2 * b + 1], tw((k - 1) as nat)[b].value())),
        ),
{
    let l: nat = (k - 1) as nat;
    lemma2_to64();
    law_rev_layers_compose::<F>(s, tw, l, k);
    let t = |b: int, j: int| tw(l)[b].value();
    let next = butterfly_layer::<F>(s, 1, t);
    assert((k - 1 - l) as nat == 0);
    law_rev_layers_compose::<F>(next, tw, l, k);
    assert((b + 1) * (2 * 1) == 2 * b + 2 && b * (2 * 1) == 2 * b);
    law_layer_entry::<F>(s, 1, t, b, 0);
}

/// The lists that the first half accepts: `2^l` factors for each of its layers `l`.
pub proof fn law_lists_cover_first<F>(lists: Seq<Vec<F>>, mid: nat, k: nat)
    requires
        mid <= k,
        mid > 0 ==> k <= lists.len(),
        forall|e: int|
            k - mid <= e < k ==> pow2((k - 1 - e) as nat) <= (#[trigger] lists[e])@.len(),
    ensures
        cover_first_layers(lists, mid, k),
{
    assert forall|l: int| 0 <= l < mid implies pow2(l as nat) <= (
    #[trigger] lists[k - 1 - l])@.len() by {
        let e: int = k - 1 - l;
        assert((k - 1 - e) as nat == l);
        assert(pow2((k - 1 - e) as nat) <= lists[e]@.len());
    }
}

/// The lists that the second half accepts: `2^l` factors for each of its layers `l`.
pub proof fn law_lists_cover_last<F>(lists: Seq<Vec<F>>, mid: nat, k: nat)
    requires
        mid <= k,
        k - mid <= lists.len(),
        forall|e: int|
            0 <= e < k - mid ==> pow2((k - 1 - e) as nat) <= (#[trigger] lists[e])@.len(),
    ensures
        cover_last_layers(lists, mid, k),
{
    assert forall|l: int| mid <= l < k implies pow2(l as nat) <= (
    #[trigger] lists[k - 1 - l])@.len() by {
        let e: int = k - 1 - l;
        assert((k - 1 - e) as nat == l);
        assert(pow2((k - 1 - e) as nat) <= lists[e]@.len());
    }
}

/// The lists that a fused pass accepts: all of an even length, and those that are long enough.
pub proof fn law_fused_lists(blocks: int, len1: int, len0: int)
    ensures
        len0 % 2 == 0 ==> come_in_pairs(blocks, len1, len0),
        2 * blocks <= len0 ==> come_in_pairs(blocks, len1, len0),
        2 * len1 <= len0 ==> come_in_pairs(blocks, len1, len0),
{
}

/// The twiddle factors of a transform of `2^k` rows: half as many powers of the root, which begin
/// with one and of which each is the one before multiplied by the root, and the same in bit-reversed
/// order.
pub proof fn law_powers_in_order<F: Field>(tw: Seq<F>, tw_rev: Seq<F>, root: F::Value, k: nat, j: int)
    requires
        0 < k,
        are_powers::<F>(tw, root, k),
        are_reversed_powers::<F>(tw_rev, root, k),
        0 <= j < pow2((k - 1) as nat),
    ensures
        tw.len() == pow2((k - 1) as nat),
        tw_rev.len() == pow2((k - 1) as nat),
        tw[0].value() == F::one_value(),
        j + 1 < tw.len() ==> tw[j + 1].value() == F::times(root, tw[j].value()),
        tw_rev[j].value() == tw[bitrev(j, (k - 1) as nat)].value(),
{
    lemma_pow2_step((k - 1) as nat);
    crate::bits::lemma_bitrev_bound(j, (k - 1) as nat);
    assert(tw[0].value() == pow::<F>(root, 0));
}

/// The twiddle factors of a transform of `2^k` rows on a coset: the list with index `e` holds the
/// powers `2^e` of the first points of the coset, in their natural order for the first `mid` layers
/// and in bit-reversed order for the others.
pub proof fn law_coset_lists<F: Field>(
    tw: Seq<Vec<F>>,
    mid: nat,
    k: nat,
    shift: F::Value,
    root: F::Value,
    e: int,
    j: int,
)
    requires
        are_coset_twiddles::<F>(tw, mid, k, shift, root),
        0 <= e < k,
        0 <= j < pow2((k - 1 - e) as nat),
    ensures
        tw.len() == k,
        tw[e]@.len() == pow2((k - 1 - e) as nat),
        k - 1 - e < mid ==> tw[e]@[j].value() == pow::<F>(
            F::times(shift, pow::<F>(root, j as nat)),
            pow2(e as nat),
        ),
        k - 1 - e >= mid ==> tw[e]@[j].value() == pow::<F>(
            F::times(shift, pow::<F>(root, bitrev(j, (k - 1 - e) as nat) as nat)),
            pow2(e as nat),
        ),
{
    assert(tw[e]@.len() == pow2((k - 1 - e) as nat));
}

} // verus!
