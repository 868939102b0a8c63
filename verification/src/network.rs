//! What the two halves of a butterfly network compute.
//!
//! The first half of the network treats the coefficients in a block, which are stored in
//! bit-reversed order, as a polynomial and evaluates it. The second half works on rows in
//! bit-reversed order: it treats the values in a block as the coefficients of a polynomial, in
//! their natural order, and evaluates it. Together they evaluate the polynomial whose
//! coefficients are all the rows.

use vstd::prelude::*;
use vstd::arithmetic::power2::*;
use crate::algebra::minus;
use crate::bits::{
    bitrev, bitrev_seq, lemma_bitrev_bound, lemma_bitrev_involution, lemma_bitrev_split,
    lemma_pow2_step,
};
use crate::chunks::{block, blockwise, lemma_block_index, lemma_block_of, lemma_block_within};
use crate::field::Field;
use crate::layers::{butterflied, butterfly_layer};
use crate::points::{
    is_root, lemma_reversed_point, lemma_twiddle_opposite, lemma_twiddle_square, point, twiddle,
};
use crate::polynomial::{
    eval, eval_bitrev, lemma_eval_bitrev_constant, lemma_eval_bitrev_step, lemma_eval_concat,
    lemma_eval_constant, lemma_eval_linear, lemma_eval_linear_minus, lemma_eval_strided,
};

verus! {

/// Whether all entries are field elements.
pub open spec fn all_elements<F: Field>(s: Seq<F::Value>) -> bool {
    forall|i: int| 0 <= i < s.len() ==> F::is_element(#[trigger] s[i])
}

/// What the first `mid` layers of a network of `2^k` rows make of a block of `2^mid` entries: the
/// values of the polynomial whose coefficients they are, in bit-reversed order, at the powers
/// `2^(k - mid)` of the first points.
pub open spec fn first_half_image<F: Field>(
    s: Seq<F::Value>,
    mid: nat,
    k: nat,
    shift: F::Value,
    root: F::Value,
) -> Seq<F::Value> {
    Seq::new(
        pow2(mid),
        |j: int| eval_bitrev::<F>(s, 0, mid, twiddle::<F>(shift, root, (k - mid) as nat, j)),
    )
}

/// A block of `2^m` entries after `l` layers of the first half: blocks of `2^l` entries are done.
pub open spec fn first_half_state<F: Field>(
    s: Seq<F::Value>,
    m: nat,
    l: nat,
    k: nat,
    shift: F::Value,
    root: F::Value,
) -> Seq<F::Value> {
    Seq::new(
        pow2(m),
        |i: int|
            eval_bitrev::<F>(
                s,
                (i / pow2(l) as int) * pow2(l),
                l,
                twiddle::<F>(shift, root, (k - l) as nat, i % (pow2(l) as int)),
            ),
    )
}

/// Before the first layer nothing has been done.
pub proof fn lemma_first_half_start<F: Field>(
    s: Seq<F::Value>,
    m: nat,
    k: nat,
    shift: F::Value,
    root: F::Value,
)
    requires
        s.len() == pow2(m),
        all_elements::<F>(s),
    ensures
        first_half_state::<F>(s, m, 0, k, shift, root) == s,
{
    lemma2_to64();
    let st = first_half_state::<F>(s, m, 0, k, shift, root);
    assert forall|i: int| 0 <= i < s.len() implies st[i] == s[i] by {
        assert((i / 1) * pow2(0) == i);
        lemma_eval_bitrev_constant::<F>(s, i, twiddle::<F>(shift, root, k, i % 1));
    }
    assert(st =~= s);
}

/// After the last layer the whole block is done.
pub proof fn lemma_first_half_end<F: Field>(
    s: Seq<F::Value>,
    m: nat,
    k: nat,
    shift: F::Value,
    root: F::Value,
)
    ensures
        first_half_state::<F>(s, m, m, k, shift, root) == first_half_image::<F>(
            s,
            m,
            k,
            shift,
            root,
        ),
{
    let st = first_half_state::<F>(s, m, m, k, shift, root);
    let im = first_half_image::<F>(s, m, k, shift, root);
    assert forall|i: int| 0 <= i < pow2(m) implies st[i] == im[i] by {
        lemma_block_of(i, pow2(m) as int, 0, i);
        assert(0 * pow2(m) == 0);
    }
    assert(st =~= im);
}

/// One layer combines pairs of finished blocks to finished blocks of twice the size.
pub proof fn lemma_first_half_step<F: Field>(
    s: Seq<F::Value>,
    m: nat,
    l: nat,
    k: nat,
    shift: F::Value,
    root: F::Value,
    t: spec_fn(int, int) -> F::Value,
)
    requires
        l < m <= k,
        is_root::<F>(root, k),
        forall|b: int, j: int|
            0 <= j < pow2(l) ==> #[trigger] t(b, j) == twiddle::<F>(
                shift,
                root,
                (k - 1 - l) as nat,
                j,
            ),
    ensures
        butterfly_layer::<F>(first_half_state::<F>(s, m, l, k, shift, root), pow2(l) as int, t)
            == first_half_state::<F>(s, m, l + 1, k, shift, root),
{
    let h: int = pow2(l) as int;
    let size: int = 2 * h;
    lemma_pow2_step(l);
    assert(pow2(l + 1) == size);
    let n: int = pow2(m) as int;
    let rest: nat = (m - l - 1) as nat;
    lemma_pow2_adds(rest, l + 1);
    assert(n == pow2(rest) * size);
    vstd::arithmetic::div_mod::lemma_mod_multiples_basic(pow2(rest) as int, size);
    let st = first_half_state::<F>(s, m, l, k, shift, root);
    let next = first_half_state::<F>(s, m, l + 1, k, shift, root);
    let done = butterfly_layer::<F>(st, h, t);
    let e: nat = (k - 1 - l) as nat;
    assert forall|i: int| 0 <= i < n implies done[i] == next[i] by {
        let b: int = i / size;
        let r: int = i % size;
        lemma_block_index(n, size, i);
        lemma_block_within(n, size, b);
        let j: int = if r < h {
            r
        } else {
            r - h
        };
        let blk = block(st, size, b);
        let lo_index: int = b * size + j;
        let hi_index: int = b * size + h + j;
        assert(lo_index == (2 * b) * h + j && hi_index == (2 * b + 1) * h + j) by (nonlinear_arith)
            requires
                lo_index == b * size + j,
                hi_index == b * size + h + j,
                size == 2 * h,
        ;
        lemma_block_of(lo_index, h, 2 * b, j);
        lemma_block_of(hi_index, h, 2 * b + 1, j);
        let x: F::Value = twiddle::<F>(shift, root, e, j);
        lemma_twiddle_square::<F>(shift, root, e, j);
        assert(e + 1 == (k - l) as nat);
        let y: F::Value = F::times(x, x);
        let lo: F::Value = eval_bitrev::<F>(s, b * size, l, y);
        let hi: F::Value = eval_bitrev::<F>(s, b * size + h, l, y);
        assert((2 * b) * h == b * size && (2 * b + 1) * h == b * size + h) by (nonlinear_arith)
            requires
                size == 2 * h,
        ;
        assert(blk[j] == lo);
        assert(blk[h + j] == hi);
        F::lemma_times_ring(x, hi, hi);
        assert(t(b, j) == x);
        if r < h {
            lemma_eval_bitrev_step::<F>(s, b * size, l, x);
        } else {
            lemma_twiddle_opposite::<F>(shift, root, k, l, j);
            let z: F::Value = F::negate(x);
            assert(twiddle::<F>(shift, root, e, r) == z);
            lemma_twiddle_square::<F>(shift, root, e, r);
            lemma_eval_bitrev_step::<F>(s, b * size, l, z);
            crate::algebra::lemma_times_negate::<F>(x, hi);
            crate::algebra::lemma_times_negate::<F>(x, x);
            crate::algebra::lemma_times_negate::<F>(x, z);
            lemma_negated_square::<F>(x);
        }
    }
    assert(done =~= next);
}

/// The square of the opposite is the square.
proof fn lemma_negated_square<F: Field>(x: F::Value)
    ensures
        F::times(F::negate(x), F::negate(x)) == F::times(x, x),
{
    let z: F::Value = F::negate(x);
    crate::algebra::lemma_times_negate::<F>(x, z);
    crate::algebra::lemma_times_negate::<F>(x, x);
    // (-x)(-x) = -(x * -x) = -(-(x * x)) = x * x
    let y: F::Value = F::times(x, x);
    F::lemma_closed(x, x);
    F::lemma_plus_group(y, F::negate(y), y);
    crate::algebra::lemma_negate_unique::<F>(F::negate(y), y);
}

/// What the remaining `n` layers of a network of `2^k` rows in bit-reversed order make of the
/// block of `2^n` entries with index `q`: the values of the polynomial whose coefficients they
/// are at the points that belong to these rows.
pub open spec fn second_half_image<F: Field>(
    s: Seq<F::Value>,
    q: int,
    n: nat,
    k: nat,
    shift: F::Value,
    root: F::Value,
) -> Seq<F::Value> {
    Seq::new(
        pow2(n),
        |i: int| eval::<F>(s, point::<F>(shift, root, bitrev(q * pow2(n) + i, k))),
    )
}

/// A block `st` with index `q` in the course of the second half: each part of `2^m` entries is the
/// remainder of the polynomial with coefficients `s` modulo a polynomial that vanishes at the
/// points of the part, so it has the same values there.
pub open spec fn second_half_state<F: Field>(
    st: Seq<F::Value>,
    s: Seq<F::Value>,
    q: int,
    n: nat,
    m: nat,
    k: nat,
    shift: F::Value,
    root: F::Value,
) -> bool {
    &&& st.len() == pow2(n)
    &&& forall|i: int|
        0 <= i < pow2(n) ==> eval::<F>(
            block(st, pow2(m) as int, i / pow2(m) as int),
            #[trigger] point::<F>(shift, root, bitrev(q * pow2(n) + i, k)),
        ) == eval::<F>(s, point::<F>(shift, root, bitrev(q * pow2(n) + i, k)))
}

/// Before its first layer the block is the polynomial itself.
pub proof fn lemma_second_half_start<F: Field>(
    s: Seq<F::Value>,
    q: int,
    n: nat,
    k: nat,
    shift: F::Value,
    root: F::Value,
)
    requires
        s.len() == pow2(n),
    ensures
        second_half_state::<F>(s, s, q, n, n, k, shift, root),
{
    assert forall|i: int| 0 <= i < pow2(n) implies eval::<F>(
        block(s, pow2(n) as int, i / pow2(n) as int),
        #[trigger] point::<F>(shift, root, bitrev(q * pow2(n) + i, k)),
    ) == eval::<F>(s, point::<F>(shift, root, bitrev(q * pow2(n) + i, k))) by {
        lemma_block_of(i, pow2(n) as int, 0, i);
        assert(0 * pow2(n) == 0);
        assert(block(s, pow2(n) as int, 0) =~= s);
    }
}

/// After its last layer the block holds the values.
pub proof fn lemma_second_half_end<F: Field>(
    st: Seq<F::Value>,
    s: Seq<F::Value>,
    q: int,
    n: nat,
    k: nat,
    shift: F::Value,
    root: F::Value,
)
    requires
        second_half_state::<F>(st, s, q, n, 0, k, shift, root),
        all_elements::<F>(st),
    ensures
        st == second_half_image::<F>(s, q, n, k, shift, root),
{
    lemma2_to64();
    let im = second_half_image::<F>(s, q, n, k, shift, root);
    assert forall|i: int| 0 <= i < pow2(n) implies st[i] == im[i] by {
        let x: F::Value = point::<F>(shift, root, bitrev(q * pow2(n) + i, k));
        let blk = block(st, 1, i);
        assert(i / pow2(0) as int == i);
        assert(blk[0] == st[i]);
        lemma_eval_constant::<F>(blk, x);
    }
    assert(st =~= im);
}

/// The two parts that a layer makes of one, where all its butterflies have the same twiddle factor.
proof fn lemma_next_part<F: Field>(
    st: Seq<F::Value>,
    h: int,
    t: spec_fn(int, int) -> F::Value,
    b: int,
    c: int,
    tb: F::Value,
)
    requires
        0 < h,
        0 <= b,
        b * (2 * h) + 2 * h <= st.len(),
        0 <= c <= 1,
        forall|j: int| 0 <= j < h ==> #[trigger] t(b, j) == tb,
    ensures
        block(butterfly_layer::<F>(st, h, t), h, 2 * b + c) == {
            let lo = block(st, 2 * h, b).subrange(0, h);
            let hi = block(st, 2 * h, b).subrange(h, 2 * h);
            if c == 0 {
                Seq::new(lo.len(), |u: int| F::plus(lo[u], F::times(hi[u], tb)))
            } else {
                Seq::new(lo.len(), |u: int| minus::<F>(lo[u], F::times(hi[u], tb)))
            }
        },
{
    let size: int = 2 * h;
    let next = butterfly_layer::<F>(st, h, t);
    let blk = block(st, size, b);
    let lo = blk.subrange(0, h);
    let hi = blk.subrange(h, size);
    let part = block(next, h, 2 * b + c);
    let ch: int = if c == 0 {
        0
    } else {
        h
    };
    assert(0 <= b * size) by (nonlinear_arith)
        requires
            0 <= b,
            0 < size,
    ;
    assert((2 * b + c) * h == b * size + ch) by (nonlinear_arith)
        requires
            size == 2 * h,
            (c == 0 && ch == 0) || (c == 1 && ch == h),
    ;
    assert forall|u: int| 0 <= u < h implies part[u] == #[trigger] butterflied::<F>(blk, h, b, t)[ch
        + u] by {
        lemma_block_of(b * size + (ch + u), size, b, ch + u);
    }
    if c == 0 {
        assert(part =~= Seq::new(lo.len(), |u: int| F::plus(lo[u], F::times(hi[u], tb)))) by {
            assert forall|u: int| 0 <= u < h implies part[u] == F::plus(
                lo[u],
                F::times(hi[u], tb),
            ) by {
                assert(part[u] == butterflied::<F>(blk, h, b, t)[ch + u]);
                assert(t(b, u) == tb);
            }
        }
    } else {
        assert(part =~= Seq::new(lo.len(), |u: int| minus::<F>(lo[u], F::times(hi[u], tb)))) by {
            assert forall|u: int| 0 <= u < h implies part[u] == minus::<F>(
                lo[u],
                F::times(hi[u], tb),
            ) by {
                assert(part[u] == butterflied::<F>(blk, h, b, t)[ch + u]);
                assert(t(b, u) == tb);
            }
        }
    }
}

/// One layer halves the parts.
pub proof fn lemma_second_half_step<F: Field>(
    st: Seq<F::Value>,
    s: Seq<F::Value>,
    q: int,
    n: nat,
    m: nat,
    k: nat,
    shift: F::Value,
    root: F::Value,
    t: spec_fn(int, int) -> F::Value,
)
    requires
        second_half_state::<F>(st, s, q, n, m, k, shift, root),
        is_root::<F>(root, k),
        0 < m <= n <= k,
        0 <= q < pow2((k - n) as nat),
        forall|b: int, j: int|
            0 <= b < pow2((n - m) as nat) ==> #[trigger] t(b, j) == twiddle::<F>(
                shift,
                root,
                (m - 1) as nat,
                bitrev(q * pow2((n - m) as nat) + b, (k - m) as nat),
            ),
    ensures
        second_half_state::<F>(
            butterfly_layer::<F>(st, pow2((m - 1) as nat) as int, t),
            s,
            q,
            n,
            (m - 1) as nat,
            k,
            shift,
            root,
        ),
{
    let e: nat = (m - 1) as nat;
    let h: int = pow2(e) as int;
    let size: int = pow2(m) as int;
    lemma_pow2_step(e);
    assert(size == 2 * h);
    let len: int = pow2(n) as int;
    let parts: int = pow2((n - m) as nat) as int;
    lemma_pow2_adds((n - m) as nat, m);
    assert(len == parts * size);
    vstd::arithmetic::div_mod::lemma_mod_multiples_basic(parts, size);
    vstd::arithmetic::div_mod::lemma_div_by_multiple(parts, size);
    let next = butterfly_layer::<F>(st, h, t);
    assert forall|i: int| 0 <= i < pow2(n) implies eval::<F>(
        block(next, h, i / h),
        #[trigger] point::<F>(shift, root, bitrev(q * pow2(n) + i, k)),
    ) == eval::<F>(s, point::<F>(shift, root, bitrev(q * pow2(n) + i, k))) by {
        let x: F::Value = point::<F>(shift, root, bitrev(q * pow2(n) + i, k));
        lemma_block_index(len, size, i);
        let b: int = i / size;
        let r: int = i % size;
        lemma_block_within(len, size, b);
        let c: int = if r < h {
            0
        } else {
            1
        };
        let ch: int = if r < h {
            0
        } else {
            h
        };
        assert(c * h == ch) by (nonlinear_arith)
            requires
                (c == 0 && ch == 0) || (c == 1 && ch == h),
        ;
        let p: int = r - ch;
        // the place of the row among all rows
        let g: int = q * parts + b;
        assert(q * len + i == (2 * g + c) * h + p && b * size + ch == (2 * b + c) * h)
            by (nonlinear_arith)
            requires
                len == parts * size,
                size == 2 * h,
                g == q * parts + b,
                i == b * size + r,
                r == ch + p,
                c * h == ch,
        ;
        lemma_pow2_adds((k - n) as nat, (n - m) as nat);
        assert((k - n) as nat + (n - m) as nat == (k - m) as nat);
        assert(0 <= g < pow2((k - m) as nat)) by (nonlinear_arith)
            requires
                g == q * parts + b,
                0 <= b < parts,
                0 <= q < pow2((k - n) as nat),
                pow2((k - m) as nat) == pow2((k - n) as nat) * parts,
        ;
        assert((k - 1 - e) as nat == (k - m) as nat);
        lemma_reversed_point::<F>(shift, root, k, e, g, c, p);
        // the part that the row is in, before and after
        lemma_block_of(i, h, 2 * b + c, p);
        let blk = block(st, size, b);
        let lo = blk.subrange(0, h);
        let hi = blk.subrange(h, size);
        assert(blk =~= lo + hi);
        let tb: F::Value = t(b, 0);
        let part = block(next, h, 2 * b + c);
        lemma_next_part::<F>(st, h, t, b, c, tb);
        lemma_eval_concat::<F>(lo, hi, x);
        if c == 0 {
            lemma_eval_linear::<F>(lo, hi, tb, x);
        } else {
            lemma_eval_linear_minus::<F>(lo, hi, tb, x);
        }
        assert(pow2(e) == h);
    }
}

/// The two halves together: `s` holds the coefficients of a polynomial in bit-reversed order, and
/// row `r` of the result is its value at the point that belongs to the row.
pub proof fn lemma_network<F: Field>(
    s: Seq<F::Value>,
    mid: nat,
    k: nat,
    shift: F::Value,
    root: F::Value,
    halfway: Seq<F::Value>,
    reordered: Seq<F::Value>,
    result: Seq<F::Value>,
)
    requires
        mid <= k,
        s.len() == pow2(k),
        is_root::<F>(root, k),
        halfway == blockwise(
            s,
            pow2(mid) as int,
            |b: int, blk: Seq<F::Value>| first_half_image::<F>(blk, mid, k, shift, root),
        ),
        reordered == bitrev_seq(halfway, k),
        result == blockwise(
            reordered,
            pow2((k - mid) as nat) as int,
            |q: int, blk: Seq<F::Value>|
                second_half_image::<F>(blk, q, (k - mid) as nat, k, shift, root),
        ),
    ensures
        result == Seq::new(
            pow2(k),
            |r: int| eval::<F>(bitrev_seq(s, k), point::<F>(shift, root, bitrev(r, k))),
        ),
{
    let n: nat = (k - mid) as nat;
    let a = bitrev_seq(s, k);
    let big: int = pow2(mid) as int;
    let small: int = pow2(n) as int;
    lemma_pow2_adds(mid, n);
    lemma_pow2_pos(mid);
    lemma_pow2_pos(n);
    let all: int = pow2(k) as int;
    assert(all == big * small);
    assert(small * big == big * small) by (nonlinear_arith);
    vstd::arithmetic::div_mod::lemma_mod_multiples_basic(big, small);
    vstd::arithmetic::div_mod::lemma_mod_multiples_basic(small, big);
    vstd::arithmetic::div_mod::lemma_div_by_multiple(big, small);
    vstd::arithmetic::div_mod::lemma_div_by_multiple(small, big);
    let want = Seq::new(
        pow2(k),
        |r: int| eval::<F>(a, point::<F>(shift, root, bitrev(r, k))),
    );
    assert forall|r: int| 0 <= r < all implies result[r] == want[r] by {
        lemma_block_index(all, small, r);
        let q: int = r / small;
        let x: F::Value = point::<F>(shift, root, bitrev(r, k));
        lemma_block_within(all, small, q);
        let blk = block(reordered, small, q);
        assert(q * small + r % small == r);
        assert(result[r] == eval::<F>(blk, x));
        // x^(2^n) is the point that the first half used
        lemma_reversed_power::<F>(shift, root, k, n, q, r % small);
        let y: F::Value = twiddle::<F>(shift, root, n, bitrev(q, mid));
        assert(crate::algebra::pow::<F>(x, pow2(n)) == y);
        let parts = Seq::new(
            pow2(n),
            |p: int| eval::<F>(Seq::new(pow2(mid), |m: int| a[m * pow2(n) + p]), y),
        );
        assert forall|p: int| 0 <= p < small implies blk[p] == parts[p] by {
            lemma_bitrev_split(q, p, mid, n);
            lemma_bitrev_bound(p, n);
            lemma_bitrev_bound(q, mid);
            let u: int = bitrev(p, n);
            let v: int = bitrev(q, mid);
            lemma_bitrev_bound(q * small + p, k);
            assert(blk[p] == halfway[u * big + v]);
            lemma_block_of(u * big + v, big, u, v);
            lemma_block_within(all, big, u);
            let src = block(s, big, u);
            assert(halfway[u * big + v] == eval_bitrev::<F>(src, 0, mid, y));
            let stored = Seq::new(pow2(mid), |m: int| src[0 + bitrev(m, mid)]);
            let natural = Seq::new(pow2(mid), |m: int| a[m * pow2(n) + p]);
            assert forall|m: int| 0 <= m < big implies stored[m] == natural[m] by {
                lemma_bitrev_bound(m, mid);
                lemma_bitrev_involution(m, mid);
                lemma_bitrev_involution(p, n);
                let f: int = u * big + bitrev(m, mid);
                lemma_bitrev_split(u, bitrev(m, mid), n, mid);
                assert(bitrev(f, k) == m * small + p);
                assert(0 <= f < all) by (nonlinear_arith)
                    requires
                        f == u * big + bitrev(m, mid),
                        0 <= u < small,
                        0 <= bitrev(m, mid) < big,
                        all == big * small,
                ;
                lemma_bitrev_involution(f, k);
                lemma_bitrev_bound(f, k);
                assert(a[m * small + p] == s[f]);
            }
            assert(stored =~= natural);
        }
        assert(blk =~= parts);
        lemma_eval_strided::<F>(a, pow2(mid), pow2(n), x);
    }
    assert(result =~= want);
}

/// The power `2^n` of a point whose index is reversed depends on the highest bits only.
proof fn lemma_reversed_power<F: Field>(
    shift: F::Value,
    root: F::Value,
    k: nat,
    n: nat,
    q: int,
    p: int,
)
    requires
        is_root::<F>(root, k),
        n <= k,
        0 <= q < pow2((k - n) as nat),
        0 <= p < pow2(n),
    ensures
        twiddle::<F>(shift, root, n, bitrev(q * pow2(n) + p, k)) == twiddle::<F>(
            shift,
            root,
            n,
            bitrev(q, (k - n) as nat),
        ),
{
    lemma2_to64();
    let mid: nat = (k - n) as nat;
    lemma_bitrev_split(q, p, mid, n);
    lemma_bitrev_bound(q, mid);
    lemma_bitrev_bound(p, n);
    let u: int = bitrev(q, mid);
    let v: int = bitrev(p, n);
    let d: int = v * pow2(mid);
    assert(0 <= d) by (nonlinear_arith)
        requires
            d == v * pow2(mid),
            0 <= v,
            0 <= pow2(mid),
    ;
    crate::points::lemma_twiddle_shift::<F>(shift, root, n, u, d);
    lemma_pow2_adds(mid, n);
    assert(d * pow2(n) == v * pow2(k)) by (nonlinear_arith)
        requires
            d == v * pow2(mid),
            pow2(k) == pow2(mid) * pow2(n),
    ;
    let x: F::Value = twiddle::<F>(shift, root, n, u);
    crate::algebra::lemma_pow_mul::<F>(root, pow2(k), v as nat);
    assert(pow2(k) * (v as nat) == (v * pow2(k)) as nat) by (nonlinear_arith)
        requires
            0 <= v,
    ;
    crate::algebra::lemma_pow_one::<F>(v as nat);
    crate::algebra::lemma_pow_is_element::<F>(point::<F>(shift, root, u), pow2(n));
    F::lemma_times_ring(x, F::one_value(), x);
}

} // verus!
