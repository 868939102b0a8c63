//! The prime field with `2^64 - 2^32 + 1` elements.
//!
//! The arithmetic is that of the `p3_goldilocks` crate. An element is kept here as a plain number,
//! and each operation hands plain numbers to the crate and takes one back.

use vstd::prelude::*;
use vstd::arithmetic::div_mod::*;
use vstd::arithmetic::mul::*;
use crate::field::{Field, TwoAdicField};

verus! {

/// The number of elements of the field.
pub const ORDER: u64 = 0xFFFF_FFFF_0000_0001;

/// The largest `k` such that `2^k` divides the order of the multiplicative group.
pub const TWO_ADICITY: usize = 32;

/// The sum of two elements. This is `Add` of `p3_goldilocks::Goldilocks`, which reduces the sum
/// modulo the order; the canonical representative is taken of it.
#[verifier::external_body]
fn raw_add(a: u64, b: u64) -> (r: u64)
    ensures
        r == (a + b) % (ORDER as int),
{
    let sum = p3_goldilocks::Goldilocks::new(a) + p3_goldilocks::Goldilocks::new(b);
    p3_field::PrimeField64::as_canonical_u64(&sum)
}

/// The difference of two elements. This is `Sub` of `p3_goldilocks::Goldilocks`, which reduces the
/// difference modulo the order; the canonical representative is taken of it.
#[verifier::external_body]
fn raw_sub(a: u64, b: u64) -> (r: u64)
    ensures
        r == (a - b) % (ORDER as int),
{
    let difference = p3_goldilocks::Goldilocks::new(a) - p3_goldilocks::Goldilocks::new(b);
    p3_field::PrimeField64::as_canonical_u64(&difference)
}

/// The product of two elements. This is `Mul` of `p3_goldilocks::Goldilocks`, which reduces the
/// product modulo the order; the canonical representative is taken of it.
#[verifier::external_body]
fn raw_mul(a: u64, b: u64) -> (r: u64)
    ensures
        r == (a * b) % (ORDER as int),
{
    let product = p3_goldilocks::Goldilocks::new(a) * p3_goldilocks::Goldilocks::new(b);
    p3_field::PrimeField64::as_canonical_u64(&product)
}

/// The representative of an element that is less than the order. This is
/// `PrimeField64::as_canonical_u64` of `p3_goldilocks::Goldilocks`.
#[verifier::external_body]
fn raw_canonical(a: u64) -> (r: u64)
    ensures
        r == a as int % (ORDER as int),
{
    p3_field::PrimeField64::as_canonical_u64(&p3_goldilocks::Goldilocks::new(a))
}

/// The inverse of an element. This is `Field::try_inverse` of `p3_goldilocks::Goldilocks`: every
/// element but zero has an inverse, whose product with it is one.
#[verifier::external_body]
fn raw_try_inverse(a: u64) -> (r: Option<u64>)
    ensures
        match r {
            Some(x) => a as int % (ORDER as int) != 0 && x < ORDER && (a * x) % (ORDER as int) == 1,
            None => a as int % (ORDER as int) == 0,
        },
{
    match p3_field::Field::try_inverse(&p3_goldilocks::Goldilocks::new(a)) {
        Some(x) => Some(p3_field::PrimeField64::as_canonical_u64(&x)),
        None => None,
    }
}

/// The element that an integer stands for. This is `QuotientMap::from_int` of
/// `p3_goldilocks::Goldilocks`, which reduces the integer modulo the order.
#[verifier::external_body]
fn raw_from_int(n: usize) -> (r: u64)
    ensures
        r == n as int % (ORDER as int),
{
    let x: p3_goldilocks::Goldilocks = p3_field::integers::QuotientMap::from_int(n);
    p3_field::PrimeField64::as_canonical_u64(&x)
}

/// A generator of the subgroup of order `2^bits`. This is `TwoAdicField::two_adic_generator` of
/// `p3_goldilocks::Goldilocks`, whose table ends with the generator that [`two_adic_root`] starts
/// from and of whose entries each is the square of the next. It panics if `bits` exceeds 32.
#[verifier::external_body]
fn raw_two_adic_generator(bits: usize) -> (r: u64)
    requires
        bits <= TWO_ADICITY,
    ensures
        r == two_adic_root(bits as nat),
{
    let g: p3_goldilocks::Goldilocks = p3_field::TwoAdicField::two_adic_generator(bits);
    p3_field::PrimeField64::as_canonical_u64(&g)
}

/// The generator of the subgroup of order `2^bits`: one of order `2^32`, squared as often as
/// needed.
pub open spec fn two_adic_root(bits: nat) -> int
    decreases 32 - bits,
{
    if bits >= 32 {
        0x185629dcda58878c
    } else {
        (two_adic_root(bits + 1) * two_adic_root(bits + 1)) % (ORDER as int)
    }
}

/// One more square.
proof fn lemma_next_root(bits: nat, g: int, square: int)
    requires
        bits < 32,
        two_adic_root(bits + 1) == g,
        (g * g) % (ORDER as int) == square,
    ensures
        two_adic_root(bits) == square,
{
}

/// The last squares are minus one and one.
proof fn lemma_two_adic_roots()
    ensures
        two_adic_root(1) == ORDER - 1,
        two_adic_root(0) == 1,
{
    lemma_next_root(31, 0x185629dcda58878c, 0x400a7f755588e659);
    lemma_next_root(30, 0x400a7f755588e659, 0x7e9bd009b86a0845);
    lemma_next_root(29, 0x7e9bd009b86a0845, 0xdfa8c93ba46d2666);
    lemma_next_root(28, 0xdfa8c93ba46d2666, 0x59049500004a4485);
    lemma_next_root(27, 0x59049500004a4485, 0x10d78dd8915a171d);
    lemma_next_root(26, 0x10d78dd8915a171d, 0xed41d05b78d6e286);
    lemma_next_root(25, 0xed41d05b78d6e286, 0x4bbaf5976ecfefd8);
    lemma_next_root(24, 0x4bbaf5976ecfefd8, 0x86cdcc31c307e171);
    lemma_next_root(23, 0x86cdcc31c307e171, 0xea9d5a1336fbc98b);
    lemma_next_root(22, 0xea9d5a1336fbc98b, 0x4b2a18ade67246b5);
    lemma_next_root(21, 0x4b2a18ade67246b5, 0xf502aef532322654);
    lemma_next_root(20, 0xf502aef532322654, 0x30ba2ecd5e93e76d);
    lemma_next_root(19, 0x30ba2ecd5e93e76d, 0xfbd41c6b8caa3302);
    lemma_next_root(18, 0xfbd41c6b8caa3302, 0x81281a7b05f9beac);
    lemma_next_root(17, 0x81281a7b05f9beac, 0xabd0a6e8aa3d8a0e);
    lemma_next_root(16, 0xabd0a6e8aa3d8a0e, 0x54df9630bf79450e);
    lemma_next_root(15, 0x54df9630bf79450e, 0xf6b2cffe2306baac);
    lemma_next_root(14, 0xf6b2cffe2306baac, 0xe0ee099310bba1e2);
    lemma_next_root(13, 0xe0ee099310bba1e2, 0x1544ef2335d17997);
    lemma_next_root(12, 0x1544ef2335d17997, 0xf2c35199959dfcb6);
    lemma_next_root(11, 0xf2c35199959dfcb6, 0x653b4801da1c8cf);
    lemma_next_root(10, 0x653b4801da1c8cf, 0x9d8f2ad78bfed972);
    lemma_next_root(9, 0x9d8f2ad78bfed972, 0x1905d02a5c411f4e);
    lemma_next_root(8, 0x1905d02a5c411f4e, 0xbf79143ce60ca966);
    lemma_next_root(7, 0xbf79143ce60ca966, 0xf80007ff08000001);
    lemma_next_root(6, 0xf80007ff08000001, 0x8000000000);
    lemma_next_root(5, 0x8000000000, 0x3fffffffc000);
    lemma_next_root(4, 0x3fffffffc000, 0xefffffff00000001);
    lemma_next_root(3, 0xefffffff00000001, 0xfffffffeff000001);
    lemma_next_root(2, 0xfffffffeff000001, 0x1000000000000);
    lemma_next_root(1, 0x1000000000000, 0xffffffff00000000);
    lemma_next_root(0, 0xffffffff00000000, 0x1);
}

/// An element of the field.
#[derive(Clone, Copy, Debug)]
pub struct Goldilocks {
    value: u64,
}

impl Goldilocks {
    /// The element that a number stands for.
    pub fn new(value: u64) -> (r: Self)
        ensures
            r.value() == value as int % (ORDER as int),
    {
        Goldilocks { value }
    }

    /// The number less than the order that stands for the element.
    pub fn as_canonical_u64(self) -> (r: u64)
        ensures
            r == self.value(),
    {
        raw_canonical(self.value)
    }
}

impl Field for Goldilocks {
    type Value = int;

    closed spec fn value(self) -> int {
        self.value as int % (ORDER as int)
    }

    open spec fn is_element(v: int) -> bool {
        0 <= v < ORDER
    }

    open spec fn zero_value() -> int {
        0
    }

    open spec fn one_value() -> int {
        1
    }

    open spec fn plus(a: int, b: int) -> int {
        (a + b) % (ORDER as int)
    }

    open spec fn negate(a: int) -> int {
        (-a) % (ORDER as int)
    }

    open spec fn times(a: int, b: int) -> int {
        (a * b) % (ORDER as int)
    }

    open spec fn natural(n: nat) -> int {
        n as int % (ORDER as int)
    }

    proof fn lemma_value_is_element(self) {
    }

    proof fn lemma_closed(a: int, b: int) {
    }

    proof fn lemma_plus_group(a: int, b: int, c: int) {
        let p: int = ORDER as int;
        lemma_add_mod_noop(a + b, c, p);
        lemma_add_mod_noop((a + b) % p, c, p);
        lemma_add_mod_noop(a, b + c, p);
        lemma_add_mod_noop(a, (b + c) % p, p);
        lemma_mod_twice(a + b, p);
        lemma_mod_twice(b + c, p);
        if Self::is_element(a) {
            lemma_small_mod(a as nat, p as nat);
        }
        lemma_add_mod_noop(a, -a, p);
        lemma_add_mod_noop(a, (-a) % p, p);
        lemma_mod_twice(-a, p);
    }

    proof fn lemma_times_ring(a: int, b: int, c: int) {
        let p: int = ORDER as int;
        lemma_mul_is_commutative(a, b);
        lemma_mul_is_associative(a, b, c);
        lemma_mul_mod_noop_left(a * b, c, p);
        lemma_mul_mod_noop_right(a, b * c, p);
        if Self::is_element(a) {
            lemma_small_mod(a as nat, p as nat);
        }
        lemma_mul_mod_noop_right(a, b + c, p);
        lemma_mul_is_distributive_add(a, b, c);
        lemma_add_mod_noop(a * b, a * c, p);
    }

    proof fn lemma_natural(n: nat) {
        let p: int = ORDER as int;
        lemma_add_mod_noop(n as int, 1, p);
        lemma_add_mod_noop(n as int % p, 1, p);
        lemma_mod_twice(n as int, p);
    }

    fn zero() -> (r: Self) {
        Goldilocks { value: 0 }
    }

    fn one() -> (r: Self) {
        Goldilocks { value: 1 }
    }

    fn add(self, rhs: Self) -> (r: Self) {
        let value: u64 = raw_add(self.value, rhs.value);
        proof {
            let p: int = ORDER as int;
            lemma_mod_twice(self.value + rhs.value, p);
            lemma_add_mod_noop(self.value as int, rhs.value as int, p);
        }
        Goldilocks { value }
    }

    fn sub(self, rhs: Self) -> (r: Self) {
        let value: u64 = raw_sub(self.value, rhs.value);
        proof {
            let p: int = ORDER as int;
            let a: int = self.value as int;
            let b: int = rhs.value as int;
            lemma_mod_twice(a - b, p);
            lemma_add_mod_noop(a, -b, p);
            lemma_negated_remainder(b);
        }
        Goldilocks { value }
    }

    fn mul(self, rhs: Self) -> (r: Self) {
        let value: u64 = raw_mul(self.value, rhs.value);
        proof {
            let p: int = ORDER as int;
            lemma_mod_twice(self.value * rhs.value, p);
            lemma_mul_mod_noop(self.value as int, rhs.value as int, p);
        }
        Goldilocks { value }
    }

    fn equals(self, rhs: Self) -> (r: bool) {
        raw_canonical(self.value) == raw_canonical(rhs.value)
    }

    fn from_int(n: usize) -> (r: Self) {
        let value: u64 = raw_from_int(n);
        proof {
            lemma_mod_twice(n as int, ORDER as int);
        }
        Goldilocks { value }
    }

    fn try_inverse(self) -> (r: Option<Self>) {
        match raw_try_inverse(self.value) {
            Some(value) => {
                proof {
                    let p: int = ORDER as int;
                    lemma_small_mod(value as nat, p as nat);
                    lemma_mul_mod_noop_left(self.value as int, value as int, p);
                }
                Some(Goldilocks { value })
            },
            None => None,
        }
    }
}

/// The opposite of a remainder.
proof fn lemma_negated_remainder(b: int)
    ensures
        (-(b % (ORDER as int))) % (ORDER as int) == (-b) % (ORDER as int),
{
    let p: int = ORDER as int;
    lemma_sub_mod_noop_right(0, b, p);
}

impl TwoAdicField for Goldilocks {
    type PrimeSubfield = Goldilocks;

    open spec fn two_adicity() -> nat {
        TWO_ADICITY as nat
    }

    open spec fn generator(bits: nat) -> int {
        two_adic_root(bits)
    }

    open spec fn half() -> int {
        0x7FFF_FFFF_8000_0001
    }

    open spec fn embed(v: int) -> int {
        v
    }

    proof fn lemma_generators(bits: nat) {
        lemma_two_adic_roots();
    }

    proof fn lemma_half() {
    }

    proof fn lemma_embed(a: int, b: int) {
    }

    fn two_adic_generator(bits: usize) -> (r: Self) {
        let value: u64 = raw_two_adic_generator(bits);
        proof {
            lemma_small_mod(value as nat, ORDER as nat);
        }
        Goldilocks { value }
    }

    fn from_prime_subfield(x: Goldilocks) -> (r: Self) {
        x
    }
}

/// The values are the numbers below `2^64 - 2^32 + 1`, and the operations on them are those on
/// integers, modulo that number.
pub proof fn law_arithmetic_is_modular(a: int, b: int, n: nat)
    ensures
        ORDER == 0x1_0000_0000_0000_0000 - 0x1_0000_0000 + 1,
        <Goldilocks as Field>::is_element(a) <==> 0 <= a < 0xFFFF_FFFF_0000_0001,
        <Goldilocks as Field>::zero_value() == 0,
        <Goldilocks as Field>::one_value() == 1,
        <Goldilocks as Field>::plus(a, b) == (a + b) % 0xFFFF_FFFF_0000_0001,
        <Goldilocks as Field>::negate(a) == (-a) % 0xFFFF_FFFF_0000_0001,
        <Goldilocks as Field>::times(a, b) == (a * b) % 0xFFFF_FFFF_0000_0001,
        <Goldilocks as Field>::natural(n) == n as int % 0xFFFF_FFFF_0000_0001,
        <Goldilocks as TwoAdicField>::embed(a) == a,
        <Goldilocks as TwoAdicField>::half() * 2 == 0xFFFF_FFFF_0000_0001 + 1,
{
}

/// There are subgroups of order `2^bits` up to `2^32`. Each generator is the square of the next,
/// modulo the order, and the last is the chosen one.
pub proof fn law_generators_are_squares(bits: nat)
    ensures
        <Goldilocks as TwoAdicField>::two_adicity() == 32,
        <Goldilocks as TwoAdicField>::generator(32) == 0x185629dcda58878c,
        bits < 32 ==> <Goldilocks as TwoAdicField>::generator(bits) == (
        <Goldilocks as TwoAdicField>::generator(bits + 1)
            * <Goldilocks as TwoAdicField>::generator(bits + 1)) % 0xFFFF_FFFF_0000_0001,
{
}

} // verus!
