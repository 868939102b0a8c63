use p3_field::extension::{CubicTrinomialExtensionField, PackedCubicTrinomialExtensionField};
use p3_field::integers::QuotientMap;
use p3_field::{PackedFieldExtension, PackedValue};
use p3_goldilocks::Goldilocks;

type F = Goldilocks;
type PF = <F as p3_field::Field>::Packing;
type CExt = CubicTrinomialExtensionField<F>;
type PCExt = PackedCubicTrinomialExtensionField<F, PF>;

fn ce(a: u32, b: u32, c: u32) -> CExt {
    CExt::new([F::from_int(a as u64), F::from_int(b as u64), F::from_int(c as u64)])
}

#[test]
fn from_fn_then_as_slice_roundtrip() {
    let width = PF::WIDTH;
    let inputs: Vec<CExt> = (0..width)
        .map(|i| ce((i * 100 + 1) as u32, (i * 100 + 2) as u32, (i * 100 + 3) as u32))
        .collect();

    let packed = <PCExt as PackedFieldExtension<F, CExt>>::from_ext_fn(|i| inputs[i]);
    let slice: Vec<CExt> = (0..width)
        .map(|lane| <PCExt as PackedFieldExtension<F, CExt>>::extract(&packed, lane))
        .collect();

    for (lane, expected) in inputs.iter().enumerate() {
        assert_eq!(
            slice[lane], *expected,
            "lane {lane}: as_slice returned {:?}, expected {:?}",
            slice[lane], expected
        );
    }
}
