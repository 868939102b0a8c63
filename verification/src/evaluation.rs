//! The twiddle factors with which the two halves of a network evaluate polynomials.

use vstd::prelude::*;
use vstd::arithmetic::power2::*;
use crate::algebra::{lemma_pow_is_element, lemma_pow_mul, pow};
use crate::bits::{
    bitrev, lemma_bitrev_bound, lemma_bitrev_split, lemma_bitrev_zero, lemma_pow2_mono,
    lemma_pow2_step,
};
use crate::chunks::{block, blockwise, lemma_block_index, lemma_block_within};
use crate::composition::{
    chunk_twiddles, layers_dit, layers_rev, lemma_layers_dit_blockwise, lemma_layers_rev_blockwise,
    list_of_layer, one_list, power_steps, unit_steps,
};
use crate::field::Field;
use crate::layers::{butterfly_layer, per_block, per_row};
use crate::matrix::column;
use crate::network::{
    all_elements, first_half_image, first_half_state, lemma_first_half_end, lemma_first_half_start,
    lemma_first_half_step, lemma_second_half_end, lemma_second_half_start, lemma_second_half_step,
    second_half_image, second_half_state,
};
use crate::points::{is_root, twiddle};

verus! {

/// Whether `tw` holds the first half of the `2^k` powers of `root`, in their natural order.
pub open spec fn are_powers<F: Field>(tw: Seq<F>, root: F::Value, k: nat) -> bool {
    &&& tw.len() == pow2(k) / 2
    &&& forall|j: int| 0 <= j < tw.len() ==> (#[trigger] tw[j]).value() == pow::<F>(root, j as nat)
}

/// Whether `tw` holds the first half of the `2^k` powers of `root`, in bit-reversed order.
pub open spec fn are_reversed_powers<F: Field>(tw: Seq<F>, root: F::Value, k: nat) -> bool {
    &&& tw.len() == pow2(k) / 2
    &&& forall|j: int|
        0 <= j < tw.len() ==> (#[trigger] tw[j]).value() == pow::<F>(
            root,
            bitrev(j, (k - 1) as nat) as nat,
        )
}

/// Whether `tw` holds the twiddle factors for each layer of a network of `2^k` rows on a coset. The
/// entry with index `e` is for blocks of `2^(k - e)` rows in the first `mid` layers, where the
/// factors are in their natural order, and for `2^(k - 1 - e)` blocks in the other layers, where
/// they are in bit-reversed order.
pub open spec fn are_coset_twiddles<F: Field>(
    tw: Seq<Vec<F>>,
    mid: nat,
    k: nat,
    shift: F::Value,
    root: F::Value,
) -> bool {
    &&& tw.len() == k
    &&& forall|e: int|
        0 <= e < k ==> (#[trigger] tw[e])@.len() == pow2((k - 1 - e) as nat) && forall|j: int|
            0 <= j < pow2((k - 1 - e) as nat) ==> (#[trigger] tw[e]@[j]).value() == twiddle::<F>(
                shift,
                root,
                e as nat,
                if k - 1 - e >= mid {
                    bitrev(j, (k - 1 - e) as nat)
                } else {
                    j
                },
            )
}

/// The entries of a column are field elements.
pub proof fn lemma_column_elements<F: Field>(values: Seq<F>, width: int, c: int)
    requires
        0 < width,
    ensures
        all_elements::<F>(column(values, width, c)),
{
    let col = column(values, width, c);
    assert forall|i: int| 0 <= i < col.len() implies F::is_element(#[trigger] col[i]) by {
        values[i * width + c].lemma_value_is_element();
    }
}

/// Without a shift, the powers of points are powers of the root.
proof fn lemma_plain_twiddle<F: Field>(root: F::Value, e: nat, j: int)
    requires
        0 <= j,
    ensures
        0 <= j * pow2(e),
        twiddle::<F>(F::one_value(), root, e, j) == pow::<F>(root, (j * pow2(e)) as nat),
{
    lemma_pow_is_element::<F>(root, j as nat);
    F::lemma_times_ring(pow::<F>(root, j as nat), root, root);
    lemma_pow_mul::<F>(root, j as nat, pow2(e));
    assert(0 <= j * pow2(e)) by (nonlinear_arith)
        requires
            0 <= j,
            0 <= pow2(e),
    ;
    assert((j as nat) * pow2(e) == (j * pow2(e)) as nat);
}

/// Whether the twiddle factors of the first `mid` layers are the powers of points.
pub open spec fn are_dit_factors<F: Field>(
    tw: spec_fn(nat) -> Seq<F>,
    step: spec_fn(nat) -> int,
    mid: nat,
    k: nat,
    shift: F::Value,
    root: F::Value,
) -> bool {
    forall|l: nat, b: int, j: int|
        l < mid && 0 <= j < pow2(l) ==> #[trigger] per_row(tw(l), step(l))(b, j) == twiddle::<F>(
            shift,
            root,
            (k - 1 - l) as nat,
            j,
        )
}

/// Whether the twiddle factors of the layers from `mid` on are the powers of points, in
/// bit-reversed order.
pub open spec fn are_rev_factors<F: Field>(
    tw: spec_fn(nat) -> Seq<F>,
    mid: nat,
    k: nat,
    shift: F::Value,
    root: F::Value,
) -> bool {
    &&& forall|l: nat| mid <= l < k ==> pow2(l) <= (#[trigger] tw(l)).len()
    &&& forall|l: nat, g: int|
        mid <= l < k && 0 <= g < pow2(l) ==> (#[trigger] tw(l)[g]).value() == twiddle::<F>(
            shift,
            root,
            (k - 1 - l) as nat,
            bitrev(g, l),
        )
}

/// A list of powers holds the twiddle factors of the first layers.
pub proof fn lemma_powers_are_factors<F: Field>(tw: Seq<F>, root: F::Value, mid: nat, k: nat)
    requires
        are_powers::<F>(tw, root, k),
        mid <= k,
    ensures
        are_dit_factors::<F>(one_list::<F>(tw), power_steps(k), mid, k, F::one_value(), root),
{
    let step = power_steps(k);
    let lists = one_list::<F>(tw);
    assert forall|l: nat, b: int, j: int| l < mid && 0 <= j < pow2(l) implies #[trigger] per_row(
        lists(l),
        step(l),
    )(b, j) == twiddle::<F>(F::one_value(), root, (k - 1 - l) as nat, j) by {
        let e: nat = (k - 1 - l) as nat;
        lemma_plain_twiddle::<F>(root, e, j);
        lemma_pow2_adds(l, e);
        lemma_pow2_pos(e);
        lemma_pow2_step((k - 1) as nat);
        assert(0 <= j * pow2(e) < pow2(l) * pow2(e)) by (nonlinear_arith)
            requires
                0 <= j < pow2(l),
                0 < pow2(e),
        ;
    }
}

/// A reversed list of powers holds the twiddle factors of the other layers.
pub proof fn lemma_reversed_powers_are_factors<F: Field>(
    tw: Seq<F>,
    root: F::Value,
    mid: nat,
    k: nat,
)
    requires
        are_reversed_powers::<F>(tw, root, k),
        mid <= k,
    ensures
        are_rev_factors::<F>(one_list::<F>(tw), mid, k, F::one_value(), root),
{
    let lists = one_list::<F>(tw);
    assert forall|l: nat| mid <= l < k implies pow2(l) <= (#[trigger] lists(l)).len() by {
        lemma_pow2_mono(l, (k - 1) as nat);
        lemma_pow2_step((k - 1) as nat);
    }
    assert forall|l: nat, g: int| mid <= l < k && 0 <= g < pow2(l) implies (
    #[trigger] lists(l)[g]).value() == twiddle::<F>(
        F::one_value(),
        root,
        (k - 1 - l) as nat,
        bitrev(g, l),
    ) by {
        let e: nat = (k - 1 - l) as nat;
        lemma_pow2_mono(l, (k - 1) as nat);
        lemma_pow2_step((k - 1) as nat);
        lemma_pow2_pos(e);
        lemma_bitrev_split(0, g, e, l);
        assert(e + l == (k - 1) as nat);
        assert(0 * pow2(l) + g == g) by (nonlinear_arith);
        lemma_bitrev_bound(g, l);
        lemma_bitrev_zero(e);
        lemma_plain_twiddle::<F>(root, e, bitrev(g, l));
    }
}

/// The lists for a coset hold the twiddle factors of all layers.
pub proof fn lemma_coset_twiddles_are_factors<F: Field>(
    tw: Seq<Vec<F>>,
    shift: F::Value,
    root: F::Value,
    mid: nat,
    k: nat,
)
    requires
        are_coset_twiddles::<F>(tw, mid, k, shift, root),
        mid <= k,
    ensures
        are_dit_factors::<F>(list_of_layer::<F>(tw, k), unit_steps(), mid, k, shift, root),
        are_rev_factors::<F>(list_of_layer::<F>(tw, k), mid, k, shift, root),
{
    let lists = list_of_layer::<F>(tw, k);
    let step = unit_steps();
    assert forall|l: nat, b: int, j: int| l < mid && 0 <= j < pow2(l) implies #[trigger] per_row(
        lists(l),
        step(l),
    )(b, j) == twiddle::<F>(shift, root, (k - 1 - l) as nat, j) by {
        let e: int = k - 1 - l;
        assert((k - 1 - e) as nat == l);
        assert(tw[e]@.len() == pow2(l));
        assert(tw[e]@[j * 1].value() == twiddle::<F>(shift, root, e as nat, j));
    }
    assert forall|l: nat| mid <= l < k implies pow2(l) <= (#[trigger] lists(l)).len() by {
        let e: int = k - 1 - l;
        assert((k - 1 - e) as nat == l);
        assert(tw[e]@.len() == pow2(l));
    }
    assert forall|l: nat, g: int| mid <= l < k && 0 <= g < pow2(l) implies (
    #[trigger] lists(l)[g]).value() == twiddle::<F>(
        shift,
        root,
        (k - 1 - l) as nat,
        bitrev(g, l),
    ) by {
        let e: int = k - 1 - l;
        assert((k - 1 - e) as nat == l);
        assert(tw[e]@.len() == pow2(l));
        assert(tw[e]@[g].value() == twiddle::<F>(shift, root, e as nat, bitrev(g, l)));
    }
}

/// The first layers take a block through its states.
proof fn lemma_dit_states<F: Field>(
    s: Seq<F::Value>,
    tw: spec_fn(nat) -> Seq<F>,
    step: spec_fn(nat) -> int,
    l: nat,
    mid: nat,
    k: nat,
    shift: F::Value,
    root: F::Value,
)
    requires
        l <= mid <= k,
        is_root::<F>(root, k),
        are_dit_factors::<F>(tw, step, mid, k, shift, root),
    ensures
        layers_dit::<F>(first_half_state::<F>(s, mid, l, k, shift, root), tw, step, l, mid)
            == first_half_state::<F>(s, mid, mid, k, shift, root),
    decreases mid - l,
{
    if l < mid {
        lemma_first_half_step::<F>(s, mid, l, k, shift, root, per_row(tw(l), step(l)));
        lemma_dit_states::<F>(s, tw, step, l + 1, mid, k, shift, root);
    }
}

/// With powers of points as twiddle factors, the first layers evaluate polynomials.
pub proof fn lemma_first_half_evaluates<F: Field>(
    s: Seq<F::Value>,
    tw: spec_fn(nat) -> Seq<F>,
    step: spec_fn(nat) -> int,
    mid: nat,
    k: nat,
    shift: F::Value,
    root: F::Value,
)
    requires
        mid <= k,
        s.len() == pow2(k),
        all_elements::<F>(s),
        is_root::<F>(root, k),
        are_dit_factors::<F>(tw, step, mid, k, shift, root),
    ensures
        layers_dit::<F>(s, tw, step, 0, mid) == blockwise(
            s,
            pow2(mid) as int,
            |b: int, blk: Seq<F::Value>| first_half_image::<F>(blk, mid, k, shift, root),
        ),
{
    let size: int = pow2(mid) as int;
    let n: int = pow2(k) as int;
    lemma_pow2_adds((k - mid) as nat, mid);
    lemma_pow2_pos(mid);
    vstd::arithmetic::div_mod::lemma_mod_multiples_basic(pow2((k - mid) as nat) as int, size);
    lemma_layers_dit_blockwise::<F>(s, tw, step, mid);
    let f = |b: int, blk: Seq<F::Value>| layers_dit::<F>(blk, tw, step, 0, mid);
    let g = |b: int, blk: Seq<F::Value>| first_half_image::<F>(blk, mid, k, shift, root);
    let l = blockwise(s, size, f);
    let r = blockwise(s, size, g);
    assert forall|i: int| 0 <= i < n implies l[i] == r[i] by {
        lemma_block_index(n, size, i);
        lemma_block_within(n, size, i / size);
        let blk = block(s, size, i / size);
        lemma_first_half_start::<F>(blk, mid, k, shift, root);
        lemma_dit_states::<F>(blk, tw, step, 0, mid, k, shift, root);
        lemma_first_half_end::<F>(blk, mid, k, shift, root);
    }
    assert(l =~= r);
}

/// The results of butterflies are field elements.
proof fn lemma_layer_elements<F: Field>(
    s: Seq<F::Value>,
    half: int,
    t: spec_fn(int, int) -> F::Value,
)
    requires
        0 < half,
        s.len() as int % (2 * half) == 0,
    ensures
        all_elements::<F>(butterfly_layer::<F>(s, half, t)),
{
    let r = butterfly_layer::<F>(s, half, t);
    let size: int = 2 * half;
    assert forall|i: int| 0 <= i < r.len() implies F::is_element(#[trigger] r[i]) by {
        lemma_block_index(s.len() as int, size, i);
        lemma_block_within(s.len() as int, size, i / size);
        let b: int = i / size;
        let j: int = i % size;
        let blk = block(s, size, b);
        if j < half {
            F::lemma_closed(blk[j], F::times(blk[j + half], t(b, j)));
        } else {
            F::lemma_closed(
                blk[j - half],
                F::negate(F::times(blk[j], t(b, j - half))),
            );
        }
    }
}

/// The other layers take a chunk through its states.
proof fn lemma_rev_states<F: Field>(
    st: Seq<F::Value>,
    s: Seq<F::Value>,
    tw: spec_fn(nat) -> Seq<F>,
    q: int,
    mid: nat,
    l: nat,
    k: nat,
    shift: F::Value,
    root: F::Value,
)
    requires
        mid <= l <= k,
        is_root::<F>(root, k),
        are_rev_factors::<F>(tw, mid, k, shift, root),
        0 <= q < pow2(mid),
        all_elements::<F>(st),
        second_half_state::<F>(st, s, q, (k - mid) as nat, (k - l) as nat, k, shift, root),
    ensures
        layers_rev::<F>(st, chunk_twiddles::<F>(tw, q, mid), l, k) == second_half_image::<F>(
            s,
            q,
            (k - mid) as nat,
            k,
            shift,
            root,
        ),
    decreases k - l,
{
    let n: nat = (k - mid) as nat;
    let m: nat = (k - l) as nat;
    if l < k {
        let e: nat = (m - 1) as nat;
        let mine = chunk_twiddles::<F>(tw, q, mid)(l);
        let t = per_block(mine);
        let parts: int = pow2((n - m) as nat) as int;
        assert((n - m) as nat == (l - mid) as nat);
        assert((k - m) as nat == l && (k - n) as nat == mid);
        lemma_pow2_adds(mid, (l - mid) as nat);
        assert forall|b: int, j: int| 0 <= b < pow2((n - m) as nat) implies #[trigger] t(b, j)
            == twiddle::<F>(
            shift,
            root,
            e,
            bitrev(q * pow2((n - m) as nat) + b, (k - m) as nat),
        ) by {
            let g: int = q * parts + b;
            assert(0 <= q * parts && g < pow2(mid) * parts) by (nonlinear_arith)
                requires
                    g == q * parts + b,
                    0 <= q < pow2(mid),
                    0 <= b < parts,
            ;
            assert(pow2(l) <= tw(l).len());
            assert(mine[b] == tw(l)[g]);
        }
        lemma_second_half_step::<F>(st, s, q, n, m, k, shift, root, t);
        let h: int = pow2(e) as int;
        lemma_pow2_step(e);
        lemma_pow2_adds((n - m) as nat, m);
        vstd::arithmetic::div_mod::lemma_mod_multiples_basic(parts, 2 * h);
        lemma_layer_elements::<F>(st, h, t);
        assert((k - (l + 1)) as nat == e);
        lemma_rev_states::<F>(
            butterfly_layer::<F>(st, h, t),
            s,
            tw,
            q,
            mid,
            l + 1,
            k,
            shift,
            root,
        );
    } else {
        lemma_second_half_end::<F>(st, s, q, n, k, shift, root);
    }
}

/// With powers of points as twiddle factors, the other layers evaluate polynomials.
pub proof fn lemma_second_half_evaluates<F: Field>(
    s: Seq<F::Value>,
    tw: spec_fn(nat) -> Seq<F>,
    mid: nat,
    k: nat,
    shift: F::Value,
    root: F::Value,
)
    requires
        mid <= k,
        s.len() == pow2(k),
        all_elements::<F>(s),
        is_root::<F>(root, k),
        are_rev_factors::<F>(tw, mid, k, shift, root),
    ensures
        layers_rev::<F>(s, tw, mid, k) == blockwise(
            s,
            pow2((k - mid) as nat) as int,
            |q: int, blk: Seq<F::Value>|
                second_half_image::<F>(blk, q, (k - mid) as nat, k, shift, root),
        ),
{
    let m: nat = (k - mid) as nat;
    let size: int = pow2(m) as int;
    let n: int = pow2(k) as int;
    lemma_pow2_adds(mid, m);
    lemma_pow2_pos(m);
    vstd::arithmetic::div_mod::lemma_mod_multiples_basic(pow2(mid) as int, size);
    vstd::arithmetic::div_mod::lemma_div_by_multiple(pow2(mid) as int, size);
    lemma_layers_rev_blockwise::<F>(s, tw, mid, k);
    let f = |q: int, blk: Seq<F::Value>|
        layers_rev::<F>(blk, chunk_twiddles::<F>(tw, q, mid), mid, k);
    let g = |q: int, blk: Seq<F::Value>| second_half_image::<F>(blk, q, m, k, shift, root);
    let l = blockwise(s, size, f);
    let r = blockwise(s, size, g);
    assert forall|i: int| 0 <= i < n implies l[i] == r[i] by {
        lemma_block_index(n, size, i);
        let q: int = i / size;
        lemma_block_within(n, size, q);
        let blk = block(s, size, q);
        lemma_second_half_start::<F>(blk, q, m, k, shift, root);
        lemma_rev_states::<F>(blk, blk, tw, q, mid, mid, k, shift, root);
    }
    assert(l =~= r);
}

} // verus!
