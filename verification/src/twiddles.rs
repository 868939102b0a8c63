//! The twiddle factors of the transforms, which are computed once and kept.

use std::collections::BTreeMap;
use std::marker::PhantomData;
use std::sync::Arc;
use vstd::prelude::*;
use vstd::arithmetic::power2::*;
use vstd::slice::slice_to_vec;
use crate::algebra::{
    lemma_minus_one_squared, lemma_pow_add, lemma_pow_is_element, lemma_pow_mul, lemma_pow_one,
    lemma_pow_small, lemma_pow_times, pow,
};
use crate::bits::{
    bitrev, lemma_bitrev_bound, lemma_log2_pow2, lemma_pow2_above, lemma_pow2_mono, lemma_pow2_step,
    two_to_the,
};
use crate::evaluation::{are_coset_twiddles, are_powers, are_reversed_powers};
use crate::field::{Field, TwoAdicField};
use crate::lock::{exclusive, lock_for_reading, lock_for_writing, shared};
use crate::points::{is_root, lemma_generator_is_root, twiddle};
use crate::powers::{collect_powers, exp_power_of_2};

verus! {

/// The inverse of the generator of the subgroup of order `2^k`.
pub open spec fn inverse_generator<F: TwoAdicField>(k: nat) -> F::Value {
    pow::<F>(F::generator(k), (pow2(k) - 1) as nat)
}

/// The number of layers in the first half of a network with `k` layers.
pub open spec fn half_of_layers(k: nat) -> nat {
    (k + 1) / 2
}

/// The inverse of a generator is its inverse, and a generator as well.
pub proof fn lemma_inverse_generator<F: TwoAdicField>(k: nat)
    requires
        k <= F::two_adicity(),
    ensures
        F::times(F::generator(k), inverse_generator::<F>(k)) == F::one_value(),
        is_root::<F>(inverse_generator::<F>(k), k),
{
    let g: F::Value = F::generator(k);
    let n: nat = pow2(k);
    let r: nat = (n - 1) as nat;
    lemma_generator_is_root::<F>(k);
    lemma_pow2_pos(k);
    assert(pow::<F>(g, n) == F::times(g, pow::<F>(g, (n - 1) as nat)));
    lemma_pow_is_element::<F>(g, r);
    // (g^r)^n = (g^n)^r = 1
    lemma_pow_mul::<F>(g, r, n);
    lemma_pow_mul::<F>(g, n, r);
    assert(r * n == n * r) by (nonlinear_arith);
    lemma_pow_one::<F>(r);
    if k > 0 {
        let h: nat = pow2((k - 1) as nat);
        let m: F::Value = F::negate(F::one_value());
        lemma_pow2_step((k - 1) as nat);
        // (g^r)^h = (g^h)^r = (-1)^r, and r is odd
        lemma_pow_mul::<F>(g, r, h);
        lemma_pow_mul::<F>(g, h, r);
        assert(r * h == h * r) by (nonlinear_arith);
        let q: nat = (h - 1) as nat;
        assert(r == 2 * q + 1);
        F::lemma_closed(F::one_value(), m);
        lemma_pow_small::<F>(m);
        lemma_minus_one_squared::<F>();
        lemma_pow_mul::<F>(m, 2, q);
        lemma_pow_one::<F>(q);
        lemma_pow_add::<F>(m, 2 * q, 1);
        F::lemma_times_ring(m, m, m);
    }
}

/// What is multiplied with a generator to one is its inverse.
proof fn lemma_inverse_unique<F: TwoAdicField>(k: nat, x: F::Value)
    requires
        k <= F::two_adicity(),
        F::is_element(x),
        F::times(F::generator(k), x) == F::one_value(),
    ensures
        x == inverse_generator::<F>(k),
{
    let g: F::Value = F::generator(k);
    let y: F::Value = inverse_generator::<F>(k);
    lemma_inverse_generator::<F>(k);
    // y = y * (g * x) = (y * g) * x = x
    F::lemma_times_ring(y, g, x);
    F::lemma_times_ring(g, y, y);
    F::lemma_times_ring(x, y, y);
    F::lemma_times_ring(y, F::one_value(), x);
}

/// The choice of a root of unity of each order.
pub(crate) trait RootOfUnity<F: TwoAdicField> {
    /// The root of order `2^k`.
    spec fn root(k: nat) -> F::Value;

    /// The root has the order it promises.
    proof fn lemma_root(k: nat)
        requires
            k <= F::two_adicity(),
        ensures
            is_root::<F>(Self::root(k), k),
    ;

    /// Computes the root of order `2^log_h`.
    fn compute(log_h: usize) -> (r: F)
        requires
            log_h <= F::two_adicity(),
        ensures
            r.value() == Self::root(log_h as nat),
    ;
}

/// The generators themselves.
#[derive(Debug)]
pub(crate) struct Forward;

impl<F: TwoAdicField> RootOfUnity<F> for Forward {
    open spec fn root(k: nat) -> F::Value {
        F::generator(k)
    }

    proof fn lemma_root(k: nat) {
        lemma_generator_is_root::<F>(k);
    }

    fn compute(log_h: usize) -> (r: F) {
        F::two_adic_generator(log_h)
    }
}

/// The inverses of the generators.
#[derive(Debug)]
pub(crate) struct Inverse;

impl<F: TwoAdicField> RootOfUnity<F> for Inverse {
    open spec fn root(k: nat) -> F::Value {
        inverse_generator::<F>(k)
    }

    proof fn lemma_root(k: nat) {
        lemma_inverse_generator::<F>(k);
    }

    fn compute(log_h: usize) -> (r: F) {
        let g: F = F::two_adic_generator(log_h);
        match g.try_inverse() {
            Some(x) => {
                proof {
                    x.lemma_value_is_element();
                    lemma_inverse_unique::<F>(log_h as nat, x.value());
                }
                x
            },
            None => {
                proof {
                    lemma_inverse_generator::<F>(log_h as nat);
                    crate::algebra::lemma_times_zero::<F>(inverse_generator::<F>(log_h as nat));
                    F::lemma_closed(F::one_value(), F::one_value());
                    assert(false);
                }
                g
            },
        }
    }
}

/// The roots are the generators and their inverses.
pub(crate) proof fn law_roots<F: TwoAdicField>(k: nat)
    requires
        k <= F::two_adicity(),
    ensures
        <Forward as RootOfUnity<F>>::root(k) == F::generator(k),
        F::times(F::generator(k), <Inverse as RootOfUnity<F>>::root(k)) == F::one_value(),
        F::is_element(<Inverse as RootOfUnity<F>>::root(k)),
{
    lemma_inverse_generator::<F>(k);
}

/// A pair of vectors, one with twiddle factors in their natural order, the other bit-reversed.
#[derive(Debug)]
pub(crate) struct VectorPair<F> {
    pub(crate) twiddles: Vec<F>,
    pub(crate) bitrev_twiddles: Vec<F>,
}

/// Whether a pair holds the twiddle factors for `2^log_h` rows.
pub(crate) open spec fn is_pair_for<F: TwoAdicField, R: RootOfUnity<F>>(
    pair: VectorPair<F>,
    log_h: usize,
) -> bool {
    &&& are_powers::<F>(pair.twiddles@, R::root(log_h as nat), log_h as nat)
    &&& are_reversed_powers::<F>(pair.bitrev_twiddles@, R::root(log_h as nat), log_h as nat)
}

/// A pair for `2^log_h` rows holds powers of the root, in both orders.
pub(crate) proof fn law_pair<F: TwoAdicField, R: RootOfUnity<F>>(
    pair: VectorPair<F>,
    log_h: usize,
    j: int,
)
    requires
        0 < log_h,
        is_pair_for::<F, R>(pair, log_h),
        0 <= j < pow2((log_h - 1) as nat),
    ensures
        pair.twiddles@.len() == pow2((log_h - 1) as nat),
        pair.bitrev_twiddles@.len() == pow2((log_h - 1) as nat),
        pair.twiddles@[j].value() == pow::<F>(R::root(log_h as nat), j as nat),
        pair.bitrev_twiddles@[j].value() == pow::<F>(
            R::root(log_h as nat),
            bitrev(j, (log_h - 1) as nat) as nat,
        ),
{
    lemma_pow2_step((log_h - 1) as nat);
}

/// Computes the twiddle factors for `2^log_h` rows.
fn compute_pair<F: TwoAdicField, R: RootOfUnity<F>>(log_h: usize) -> (r: VectorPair<F>)
    requires
        log_h <= F::two_adicity(),
        pow2(log_h as nat) <= usize::MAX,
    ensures
        is_pair_for::<F, R>(r, log_h),
{
    let ghost k: nat = log_h as nat;
    let half_h: usize = two_to_the(log_h) / 2;
    let root: F = R::compute(log_h);
    let twiddles: Vec<F> = collect_powers(root, F::one(), half_h);
    proof {
        assert forall|j: int| 0 <= j < twiddles@.len() implies (#[trigger] twiddles@[j]).value()
            == pow::<F>(root.value(), j as nat) by {
            let p: F::Value = pow::<F>(root.value(), j as nat);
            lemma_pow_is_element::<F>(root.value(), j as nat);
            F::lemma_times_ring(p, p, p);
        }
        lemma2_to64();
        if k > 0 {
            lemma_pow2_step((k - 1) as nat);
            lemma_log2_pow2((k - 1) as nat);
        }
    }
    let mut bitrev_twiddles: Vec<F> = slice_to_vec(twiddles.as_slice());
    p3_util::reverse_slice_index_bits(bitrev_twiddles.as_mut_slice());
    proof {
        assert(bitrev_twiddles@.len() == half_h);
        assert forall|j: int|
            0 <= j < bitrev_twiddles@.len() implies (#[trigger] bitrev_twiddles@[j]).value()
            == pow::<F>(root.value(), bitrev(j, (k - 1) as nat) as nat) by {
            lemma_bitrev_bound(j, (k - 1) as nat);
            assert(bitrev_twiddles@[j] == twiddles@[bitrev(j, (k - 1) as nat)]);
        }
    }
    VectorPair { twiddles, bitrev_twiddles }
}

/// The twiddle factors that have been computed, by the logarithm of the height.
#[derive(Debug)]
pub(crate) struct TwiddleCache<F: TwoAdicField, R: RootOfUnity<F>> {
    pairs: BTreeMap<usize, Arc<VectorPair<F>>>,
    which: PhantomData<R>,
}

impl<F: TwoAdicField, R: RootOfUnity<F>> TwiddleCache<F, R> {
    /// Every pair is the one that belongs to its key.
    #[verifier::type_invariant]
    spec fn inv(self) -> bool {
        forall|log_h: usize| #[trigger]
            self.pairs@.contains_key(log_h) ==> is_pair_for::<F, R>(*self.pairs@[log_h], log_h)
    }

    /// The heights for which there are twiddle factors.
    pub(crate) closed spec fn heights(self) -> Set<usize> {
        self.pairs@.dom()
    }

    /// The twiddle factors for `2^log_h` rows, where there are any.
    pub(crate) closed spec fn pair(self, log_h: usize) -> Arc<VectorPair<F>> {
        self.pairs@[log_h]
    }

    /// An empty cache.
    pub(crate) fn new() -> (r: Self)
        ensures
            r.heights() == Set::<usize>::empty(),
    {
        TwiddleCache { pairs: BTreeMap::new(), which: PhantomData }
    }

    /// The twiddle factors for `2^log_h` rows, where they have been computed.
    fn find(&self, log_h: usize) -> (r: Option<Arc<VectorPair<F>>>)
        ensures
            match r {
                Some(pair) => {
                    &&& self.heights().contains(log_h)
                    &&& pair == self.pair(log_h)
                    &&& is_pair_for::<F, R>(*pair, log_h)
                },
                None => !self.heights().contains(log_h),
            },
    {
        proof {
            use_type_invariant(self);
            broadcast use vstd::std_specs::btree::group_btree_axioms;
            broadcast use vstd::laws_cmp::group_laws_cmp;

        }
        match self.pairs.get(&log_h) {
            Some(pair) => Some(pair.clone()),
            None => None,
        }
    }

    /// Adds the twiddle factors for `2^log_h` rows, for which there are none yet.
    fn insert(&mut self, log_h: usize, pair: Arc<VectorPair<F>>)
        requires
            is_pair_for::<F, R>(*pair, log_h),
            !old(self).heights().contains(log_h),
        ensures
            final(self).heights() == old(self).heights().insert(log_h),
            final(self).pair(log_h) == pair,
            forall|l: usize|
                old(self).heights().contains(l) ==> #[trigger] final(self).pair(l) == old(
                    self,
                ).pair(l),
    {
        proof {
            use_type_invariant(&*self);
            broadcast use vstd::std_specs::btree::group_btree_axioms;
            broadcast use vstd::laws_cmp::group_laws_cmp;

        }
        let mut pairs: BTreeMap<usize, Arc<VectorPair<F>>> = BTreeMap::new();
        core::mem::swap(&mut pairs, &mut self.pairs);
        pairs.insert(log_h, pair);
        self.pairs = pairs;
    }

    /// The twiddle factors for `2^log_h` rows. They are computed unless they have been computed
    /// before, and kept from then on. Those that are there are never replaced.
    fn find_or_compute(&mut self, log_h: usize) -> (r: Arc<VectorPair<F>>)
        requires
            log_h <= F::two_adicity(),
            pow2(log_h as nat) <= usize::MAX,
        ensures
            is_pair_for::<F, R>(*r, log_h),
            final(self).heights() == old(self).heights().insert(log_h),
            final(self).pair(log_h) == r,
            forall|l: usize|
                old(self).heights().contains(l) ==> #[trigger] final(self).pair(l) == old(
                    self,
                ).pair(l),
    {
        match self.find(log_h) {
            Some(pair) => pair,
            None => {
                let pair: Arc<VectorPair<F>> = Arc::new(compute_pair::<F, R>(log_h));
                self.insert(log_h, pair.clone());
                pair
            },
        }
    }
}

/// The twiddle factors for `2^log_h` rows: those in the cache, or new ones that are added to it.
pub(crate) fn get_or_compute<F: TwoAdicField, R: RootOfUnity<F>>(
    cache: &spin::RwLock<TwiddleCache<F, R>>,
    log_h: usize,
) -> (r: Arc<VectorPair<F>>)
    requires
        log_h <= F::two_adicity(),
        pow2(log_h as nat) <= usize::MAX,
    ensures
        is_pair_for::<F, R>(*r, log_h),
{
    {
        let guard = lock_for_reading(cache);
        if let Some(pair) = shared(&guard).find(log_h) {
            return pair;
        }
    }
    let mut guard = lock_for_writing(cache);
    let known: &mut TwiddleCache<F, R> = exclusive(&mut guard);
    // Another thread may have been faster.
    known.find_or_compute(log_h)
}

/// The twiddle factors for `2^log_h` rows on a coset.
pub(crate) open spec fn are_twiddles_for<F: TwoAdicField>(
    tw: Seq<Vec<F>>,
    log_h: usize,
    shift: F::Value,
) -> bool {
    are_coset_twiddles::<F>(
        tw,
        half_of_layers(log_h as nat),
        log_h as nat,
        shift,
        F::generator(log_h as nat),
    )
}

/// The twiddle factors on a coset are the powers `2^e` of its points, in their natural order for the
/// first half of the layers, rounded up, and in bit-reversed order for the others.
pub(crate) proof fn law_coset_twiddles<F: TwoAdicField>(
    tw: Seq<Vec<F>>,
    log_h: usize,
    shift: F::Value,
    e: int,
    j: int,
)
    requires
        are_twiddles_for::<F>(tw, log_h, shift),
        0 <= e < log_h,
        0 <= j < pow2((log_h - 1 - e) as nat),
    ensures
        tw.len() == log_h,
        tw[e]@.len() == pow2((log_h - 1 - e) as nat),
        2 * (log_h - 1 - e) < log_h ==> tw[e]@[j].value() == pow::<F>(
            F::times(shift, pow::<F>(F::generator(log_h as nat), j as nat)),
            pow2(e as nat),
        ),
        2 * (log_h - 1 - e) >= log_h ==> tw[e]@[j].value() == pow::<F>(
            F::times(
                shift,
                pow::<F>(F::generator(log_h as nat), bitrev(j, (log_h - 1 - e) as nat) as nat),
            ),
            pow2(e as nat),
        ),
{
    crate::steps::law_coset_lists::<F>(
        tw,
        half_of_layers(log_h as nat),
        log_h as nat,
        shift,
        F::generator(log_h as nat),
        e,
        j,
    );
}

/// The powers of the points of a coset are a geometric sequence.
proof fn lemma_twiddle_sequence<F: Field>(shift: F::Value, root: F::Value, e: nat, j: int)
    requires
        0 <= j,
    ensures
        twiddle::<F>(shift, root, e, j) == F::times(
            pow::<F>(shift, pow2(e)),
            pow::<F>(pow::<F>(root, pow2(e)), j as nat),
        ),
{
    lemma_pow_times::<F>(shift, pow::<F>(root, j as nat), pow2(e));
    lemma_pow_mul::<F>(root, j as nat, pow2(e));
    lemma_pow_mul::<F>(root, pow2(e), j as nat);
    assert((j as nat) * pow2(e) == pow2(e) * (j as nat)) by (nonlinear_arith);
}

/// Computes the twiddle factors for `2^log_h` rows on a coset. Those that are needed in the second
/// half of the layers are put in bit-reversed order.
fn compute_coset_twiddles<F: TwoAdicField>(log_h: usize, shift: F) -> (r: Vec<Vec<F>>)
    requires
        log_h <= F::two_adicity(),
        pow2(log_h as nat) <= usize::MAX,
    ensures
        are_twiddles_for::<F>(r@, log_h, shift.value()),
{
    let ghost k: nat = log_h as nat;
    let ghost s: F::Value = shift.value();
    let ghost g: F::Value = F::generator(k);
    let root: F = F::two_adic_generator(log_h);
    let mid: usize = first_half_layers(log_h);
    let mut r: Vec<Vec<F>> = Vec::new();
    let mut layer: usize = 0;
    while layer < log_h
        invariant
            k == log_h,
            s == shift.value(),
            g == root.value(),
            mid == half_of_layers(k),
            pow2(k) <= usize::MAX,
            0 <= layer <= log_h,
            r@.len() == layer,
            forall|e: int|
                0 <= e < layer ==> (#[trigger] r@[e])@.len() == pow2((k - 1 - e) as nat) && forall|
                    j: int,
                |
                    0 <= j < pow2((k - 1 - e) as nat) ==> (#[trigger] r@[e]@[j]).value()
                        == twiddle::<F>(
                        s,
                        g,
                        e as nat,
                        if k - 1 - e >= mid {
                            bitrev(j, (k - 1 - e) as nat)
                        } else {
                            j
                        },
                    ),
        decreases log_h - layer,
    {
        let ghost e: nat = layer as nat;
        let layer_rev: usize = log_h - 1 - layer;
        let ghost l: nat = layer_rev as nat;
        proof {
            lemma_pow2_mono(l, k);
            lemma_log2_pow2(l);
        }
        let shift_power: F = exp_power_of_2(shift, layer);
        let base: F = exp_power_of_2(root, layer);
        let mut twiddles: Vec<F> = collect_powers(base, shift_power, two_to_the(layer_rev));
        let ghost natural = twiddles@;
        proof {
            assert forall|j: int| 0 <= j < pow2(l) implies (#[trigger] natural[j]).value()
                == twiddle::<F>(s, g, e, j) by {
                lemma_twiddle_sequence::<F>(s, g, e, j);
            }
        }
        if layer_rev >= mid {
            p3_util::reverse_slice_index_bits(twiddles.as_mut_slice());
            proof {
                assert forall|j: int| 0 <= j < pow2(l) implies (#[trigger] twiddles@[j]).value()
                    == twiddle::<F>(s, g, e, bitrev(j, l)) by {
                    lemma_bitrev_bound(j, l);
                    assert(twiddles@[j] == natural[bitrev(j, l)]);
                }
            }
        }
        r.push(twiddles);
        layer = layer + 1;
    }
    r
}

/// The number of layers in the first half of a network: half of them, rounded up.
pub(crate) fn first_half_layers(log_h: usize) -> (mid: usize)
    requires
        pow2(log_h as nat) <= usize::MAX,
    ensures
        mid == half_of_layers(log_h as nat),
        mid <= log_h,
{
    proof {
        lemma_pow2_above(log_h as nat);
    }
    (log_h + 1) / 2
}

/// The twiddle factors for `2^log_h` rows on the coset of `shift`.
#[derive(Debug)]
struct CosetEntry<F> {
    log_h: usize,
    shift: F,
    twiddles: Arc<Vec<Vec<F>>>,
}

/// The twiddle factors on cosets that have been computed.
#[derive(Debug)]
pub(crate) struct CosetTwiddleCache<F: TwoAdicField> {
    entries: Vec<CosetEntry<F>>,
}

impl<F: TwoAdicField> CosetTwiddleCache<F> {
    /// Every entry holds the twiddle factors that belong to its height and shift, and no two
    /// entries have the same height and shift.
    #[verifier::type_invariant]
    spec fn inv(self) -> bool {
        &&& forall|i: int|
            0 <= i < self.entries@.len() ==> are_twiddles_for::<F>(
                (#[trigger] self.entries@[i]).twiddles@,
                self.entries@[i].log_h,
                self.entries@[i].shift.value(),
            )
        &&& forall|i: int, j: int|
            0 <= i < j < self.entries@.len() ==> (#[trigger] self.entries@[i]).log_h != (
            #[trigger] self.entries@[j]).log_h || self.entries@[i].shift.value()
                != self.entries@[j].shift.value()
    }

    /// Whether there are twiddle factors for a height and a shift.
    pub(crate) closed spec fn has(self, log_h: usize, shift: F::Value) -> bool {
        exists|i: int|
            0 <= i < self.entries@.len() && (#[trigger] self.entries@[i]).log_h == log_h
                && self.entries@[i].shift.value() == shift
    }

    /// The index of the entry with a height and a shift, where there is one.
    spec fn position(self, log_h: usize, shift: F::Value) -> int {
        choose|i: int|
            0 <= i < self.entries@.len() && (#[trigger] self.entries@[i]).log_h == log_h
                && self.entries@[i].shift.value() == shift
    }

    /// The twiddle factors for a height and a shift, where there are any.
    pub(crate) closed spec fn twiddles(self, log_h: usize, shift: F::Value) -> Arc<Vec<Vec<F>>> {
        self.entries@[self.position(log_h, shift)].twiddles
    }

    /// An empty cache.
    pub(crate) fn new() -> (r: Self)
        ensures
            forall|log_h: usize, shift: F::Value| !r.has(log_h, shift),
    {
        CosetTwiddleCache { entries: Vec::new() }
    }

    /// The twiddle factors for a height and a shift, where they have been computed.
    fn find(&self, log_h: usize, shift: F) -> (r: Option<Arc<Vec<Vec<F>>>>)
        ensures
            match r {
                Some(tw) => {
                    &&& self.has(log_h, shift.value())
                    &&& tw == self.twiddles(log_h, shift.value())
                    &&& are_twiddles_for::<F>(tw@, log_h, shift.value())
                },
                None => !self.has(log_h, shift.value()),
            },
    {
        proof {
            use_type_invariant(self);
        }
        let mut i: usize = 0;
        while i < self.entries.len()
            invariant
                self.inv(),
                0 <= i <= self.entries@.len(),
                forall|j: int|
                    0 <= j < i ==> (#[trigger] self.entries@[j]).log_h != log_h
                        || self.entries@[j].shift.value() != shift.value(),
            decreases self.entries@.len() - i,
        {
            let entry: &CosetEntry<F> = &self.entries[i];
            if entry.log_h == log_h && entry.shift.equals(shift) {
                proof {
                    assert(self.position(log_h, shift.value()) == i);
                }
                return Some(entry.twiddles.clone());
            }
            i = i + 1;
        }
        None
    }

    /// Adds the twiddle factors for a height and a shift, for which there are none yet.
    fn insert(&mut self, log_h: usize, shift: F, twiddles: Arc<Vec<Vec<F>>>)
        requires
            are_twiddles_for::<F>(twiddles@, log_h, shift.value()),
            !old(self).has(log_h, shift.value()),
        ensures
            forall|l: usize, s: F::Value| #[trigger]
                final(self).has(l, s) <==> old(self).has(l, s) || (l == log_h && s
                    == shift.value()),
            final(self).twiddles(log_h, shift.value()) == twiddles,
            forall|l: usize, s: F::Value|
                old(self).has(l, s) ==> #[trigger] final(self).twiddles(l, s) == old(
                    self,
                ).twiddles(l, s),
    {
        proof {
            use_type_invariant(&*self);
        }
        let mut entries: Vec<CosetEntry<F>> = Vec::new();
        core::mem::swap(&mut entries, &mut self.entries);
        let ghost before = entries@;
        entries.push(CosetEntry { log_h, shift, twiddles });
        self.entries = entries;
        proof {
            let n: int = before.len() as int;
            assert(self.entries@[n].log_h == log_h);
            assert forall|l: usize, s: F::Value| #[trigger]
                self.has(l, s) <==> old(self).has(l, s) || (l == log_h && s == shift.value()) by {
                if old(self).has(l, s) {
                    let i: int = choose|i: int|
                        0 <= i < before.len() && (#[trigger] before[i]).log_h == l
                            && before[i].shift.value() == s;
                    assert(self.entries@[i] == before[i]);
                }
                if self.has(l, s) {
                    let i: int = choose|i: int|
                        0 <= i < self.entries@.len() && (#[trigger] self.entries@[i]).log_h == l
                            && self.entries@[i].shift.value() == s;
                    if i < n {
                        assert(self.entries@[i] == before[i]);
                    }
                }
            }
            assert(self.position(log_h, shift.value()) == n);
            assert forall|l: usize, s: F::Value|
                old(self).has(l, s) implies #[trigger] self.twiddles(l, s) == old(self).twiddles(
                l,
                s,
            ) by {
                let i: int = old(self).position(l, s);
                assert(self.entries@[i] == before[i]);
                assert(self.position(l, s) == i);
            }
        }
    }

    /// The twiddle factors for a height and a shift. They are computed unless they have been
    /// computed before, and kept from then on. Those that are there are never replaced.
    fn find_or_compute(&mut self, log_h: usize, shift: F) -> (r: Arc<Vec<Vec<F>>>)
        requires
            log_h <= F::two_adicity(),
            pow2(log_h as nat) <= usize::MAX,
        ensures
            are_twiddles_for::<F>(r@, log_h, shift.value()),
            forall|l: usize, s: F::Value| #[trigger]
                final(self).has(l, s) <==> old(self).has(l, s) || (l == log_h && s
                    == shift.value()),
            final(self).twiddles(log_h, shift.value()) == r,
            forall|l: usize, s: F::Value|
                old(self).has(l, s) ==> #[trigger] final(self).twiddles(l, s) == old(
                    self,
                ).twiddles(l, s),
    {
        match self.find(log_h, shift) {
            Some(twiddles) => twiddles,
            None => {
                let twiddles: Arc<Vec<Vec<F>>> = Arc::new(compute_coset_twiddles(log_h, shift));
                self.insert(log_h, shift, twiddles.clone());
                twiddles
            },
        }
    }
}

/// The twiddle factors for `2^log_h` rows on a coset: those in the cache, or new ones that are
/// added to it.
pub(crate) fn get_or_compute_coset<F: TwoAdicField>(
    cache: &spin::RwLock<CosetTwiddleCache<F>>,
    log_h: usize,
    shift: F,
) -> (r: Arc<Vec<Vec<F>>>)
    requires
        log_h <= F::two_adicity(),
        pow2(log_h as nat) <= usize::MAX,
    ensures
        are_twiddles_for::<F>(r@, log_h, shift.value()),
{
    {
        let guard = lock_for_reading(cache);
        if let Some(twiddles) = shared(&guard).find(log_h, shift) {
            return twiddles;
        }
    }
    let mut guard = lock_for_writing(cache);
    let known: &mut CosetTwiddleCache<F> = exclusive(&mut guard);
    // Another thread may have been faster.
    known.find_or_compute(log_h, shift)
}

} // verus!
