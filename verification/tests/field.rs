use radix_2_dit::bits::two_to_the;
use radix_2_dit::butterflies::{
    Butterfly, DitButterfly, ScaledDitButterfly, TwiddleFreeButterfly,
};
use radix_2_dit::field::{Field, TwoAdicField};
use radix_2_dit::goldilocks::{Goldilocks, ORDER, TWO_ADICITY};
use radix_2_dit::matrix::RowMajorMatrix;

fn e(x: u64) -> Goldilocks {
    Goldilocks::new(x)
}

fn elements(xs: &[u64]) -> Vec<Goldilocks> {
    xs.iter().map(|x| e(*x)).collect()
}

fn canonical(xs: &[Goldilocks]) -> Vec<u64> {
    xs.iter().map(|x| x.as_canonical_u64()).collect()
}

#[test]
fn representatives() {
    assert_eq!(e(100).as_canonical_u64(), 100);
    assert_eq!(e(ORDER).as_canonical_u64(), 0);
    assert_eq!(e(u64::MAX).as_canonical_u64(), u32::MAX as u64 - 1);
    assert_eq!(Goldilocks::zero().as_canonical_u64(), 0);
    assert_eq!(Goldilocks::one().as_canonical_u64(), 1);
}

#[test]
fn sums_wrap_around() {
    assert_eq!(e(2).add(e(3)).as_canonical_u64(), 5);
    assert_eq!(e(ORDER - 1).add(e(2)).as_canonical_u64(), 1);
    assert_eq!(e(u64::MAX).add(e(u64::MAX)).as_canonical_u64(), 2 * (u32::MAX as u64 - 1));
}

#[test]
fn differences_wrap_around() {
    assert_eq!(e(5).sub(e(3)).as_canonical_u64(), 2);
    assert_eq!(e(0).sub(e(1)).as_canonical_u64(), ORDER - 1);
    assert_eq!(e(1).sub(e(u64::MAX)).as_canonical_u64(), ORDER - (u32::MAX as u64 - 2));
}

#[test]
fn products_are_reduced() {
    assert_eq!(e(6).mul(e(7)).as_canonical_u64(), 42);
    assert_eq!(e(1 << 32).mul(e(1 << 32)).as_canonical_u64(), 0xffffffff);
    assert_eq!(e(ORDER - 1).mul(e(ORDER - 1)).as_canonical_u64(), 1);
}

#[test]
fn inverses() {
    assert_eq!(e(2).try_inverse().unwrap().as_canonical_u64(), 0x7fffffff80000001);
    assert_eq!(e(ORDER - 1).try_inverse().unwrap().as_canonical_u64(), ORDER - 1);
    for x in [3, 7, 0x123456789abcdef, ORDER + 3, u64::MAX] {
        let y = e(x).try_inverse().unwrap();
        assert_eq!(e(x).mul(y).as_canonical_u64(), 1);
    }
}

#[test]
fn zero_has_no_inverse() {
    assert!(e(0).try_inverse().is_none());
    assert!(e(ORDER).try_inverse().is_none());
}

#[test]
fn equality_is_that_of_values() {
    assert!(e(5).equals(e(5)));
    assert!(e(5).equals(e(ORDER + 5)));
    assert!(!e(5).equals(e(6)));
}

#[test]
fn integers_are_reduced() {
    assert_eq!(Goldilocks::from_int(0).as_canonical_u64(), 0);
    assert_eq!(Goldilocks::from_int(77).as_canonical_u64(), 77);
    assert_eq!(Goldilocks::from_int(ORDER as usize + 7).as_canonical_u64(), 7);
    assert_eq!(Goldilocks::from_prime_subfield(e(9)).as_canonical_u64(), 9);
}

#[test]
fn generators() {
    assert_eq!(Goldilocks::two_adic_generator(0).as_canonical_u64(), 1);
    assert_eq!(Goldilocks::two_adic_generator(1).as_canonical_u64(), ORDER - 1);
    assert_eq!(Goldilocks::two_adic_generator(2).as_canonical_u64(), 1 << 48);
    assert_eq!(Goldilocks::two_adic_generator(32).as_canonical_u64(), 0x185629dcda58878c);
    for bits in 0..TWO_ADICITY {
        let g = Goldilocks::two_adic_generator(bits + 1);
        assert!(g.mul(g).equals(Goldilocks::two_adic_generator(bits)));
    }
}

#[test]
fn powers_of_two() {
    assert_eq!(two_to_the(0), 1);
    assert_eq!(two_to_the(3), 8);
    assert_eq!(two_to_the(63), 1 << 63);
}

#[test]
fn butterflies_on_two_elements() {
    let (a, b) = DitButterfly(e(3)).apply(e(10), e(2));
    assert_eq!((a.as_canonical_u64(), b.as_canonical_u64()), (16, 4));
    let (a, b) = TwiddleFreeButterfly.apply(e(10), e(2));
    assert_eq!((a.as_canonical_u64(), b.as_canonical_u64()), (12, 8));
    let (a, b) = ScaledDitButterfly::new(e(3), e(5)).apply(e(10), e(2));
    assert_eq!((a.as_canonical_u64(), b.as_canonical_u64()), (80, 20));
}

#[test]
fn butterflies_on_rows() {
    let (src_1, src_2) = (elements(&[1, 2, 3]), elements(&[10, 20, 30]));
    let (mut row_1, mut row_2) = (src_1.clone(), src_2.clone());
    DitButterfly(e(2)).apply_to_rows(&mut row_1, &mut row_2);
    assert_eq!(canonical(&row_1), vec![21, 42, 63]);
    assert_eq!(canonical(&row_2), vec![ORDER - 19, ORDER - 38, ORDER - 57]);
    let (mut dst_1, mut dst_2) = (elements(&[0; 3]), elements(&[0; 3]));
    DitButterfly(e(2)).apply_to_rows_oop(&src_1, &mut dst_1, &src_2, &mut dst_2);
    assert_eq!(canonical(&dst_1), canonical(&row_1));
    assert_eq!(canonical(&dst_2), canonical(&row_2));
}

#[test]
fn views_of_matrices() {
    let m = RowMajorMatrix::new(elements(&[0, 1, 10, 11, 20, 21, 30, 31]), 2);
    assert_eq!(m.height(), 4);
    let view = m.bit_reverse_rows();
    assert_eq!(view.height(), 4);
    assert_eq!(view.width(), 2);
    assert_eq!(view.get(0, 1).as_canonical_u64(), 1);
    assert_eq!(view.get(1, 0).as_canonical_u64(), 20);
    assert_eq!(view.get(2, 0).as_canonical_u64(), 10);
    assert_eq!(view.get(3, 1).as_canonical_u64(), 31);
    assert_eq!(view.bit_reverse_rows().values[2].as_canonical_u64(), 10);
}
