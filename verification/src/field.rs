//! The fields that the transforms work over.
//!
//! A field is described by the mathematical values of its elements: [`Field::value`] gives the
//! value of an element, and the operations on values form a commutative ring, which the proof
//! methods of the trait establish for every implementation.

use vstd::prelude::*;

verus! {

/// A field whose elements can be computed with.
///
/// The executable operations are specified by the operations on values. The latter may be total
/// functions on a type that is larger than the field: [`Field::is_element`] singles out the values
/// that elements have, and the result of every operation is one of them.
pub trait Field: Copy + Send + Sync {
    /// The type of the mathematical values of elements.
    type Value;

    /// The value of an element.
    spec fn value(self) -> Self::Value;

    /// Whether `v` is the value of a field element.
    spec fn is_element(v: Self::Value) -> bool;

    /// The neutral element of addition.
    spec fn zero_value() -> Self::Value;

    /// The neutral element of multiplication.
    spec fn one_value() -> Self::Value;

    /// The sum of two values.
    spec fn plus(a: Self::Value, b: Self::Value) -> Self::Value;

    /// The additive inverse of a value.
    spec fn negate(a: Self::Value) -> Self::Value;

    /// The product of two values.
    spec fn times(a: Self::Value, b: Self::Value) -> Self::Value;

    /// The sum of `n` ones.
    spec fn natural(n: nat) -> Self::Value;

    /// The value of every element is a field element.
    proof fn lemma_value_is_element(self)
        ensures
            Self::is_element(self.value()),
    ;

    /// The field is closed under its operations, and zero and one are two different elements of it.
    proof fn lemma_closed(a: Self::Value, b: Self::Value)
        ensures
            Self::is_element(Self::zero_value()),
            Self::is_element(Self::one_value()),
            Self::is_element(Self::plus(a, b)),
            Self::is_element(Self::negate(a)),
            Self::is_element(Self::times(a, b)),
            Self::zero_value() != Self::one_value(),
    ;

    /// Addition is a commutative group operation.
    proof fn lemma_plus_group(a: Self::Value, b: Self::Value, c: Self::Value)
        ensures
            Self::plus(a, b) == Self::plus(b, a),
            Self::plus(Self::plus(a, b), c) == Self::plus(a, Self::plus(b, c)),
            Self::is_element(a) ==> Self::plus(Self::zero_value(), a) == a,
            Self::plus(a, Self::negate(a)) == Self::zero_value(),
    ;

    /// Multiplication is commutative and associative, has a neutral element and distributes over
    /// addition.
    proof fn lemma_times_ring(a: Self::Value, b: Self::Value, c: Self::Value)
        ensures
            Self::times(a, b) == Self::times(b, a),
            Self::times(Self::times(a, b), c) == Self::times(a, Self::times(b, c)),
            Self::is_element(a) ==> Self::times(Self::one_value(), a) == a,
            Self::times(a, Self::plus(b, c)) == Self::plus(Self::times(a, b), Self::times(a, c)),
    ;

    /// The natural multiples of one, by recursion.
    proof fn lemma_natural(n: nat)
        ensures
            Self::natural(0) == Self::zero_value(),
            Self::natural(n + 1) == Self::plus(Self::natural(n), Self::one_value()),
    ;

    /// The element zero.
    fn zero() -> (r: Self)
        ensures
            r.value() == Self::zero_value(),
    ;

    /// The element one.
    fn one() -> (r: Self)
        ensures
            r.value() == Self::one_value(),
    ;

    /// The sum of two elements.
    fn add(self, rhs: Self) -> (r: Self)
        ensures
            r.value() == Self::plus(self.value(), rhs.value()),
    ;

    /// The difference of two elements.
    fn sub(self, rhs: Self) -> (r: Self)
        ensures
            r.value() == Self::plus(self.value(), Self::negate(rhs.value())),
    ;

    /// The product of two elements.
    fn mul(self, rhs: Self) -> (r: Self)
        ensures
            r.value() == Self::times(self.value(), rhs.value()),
    ;

    /// Whether two elements are equal.
    fn equals(self, rhs: Self) -> (r: bool)
        ensures
            r == (self.value() == rhs.value()),
    ;

    /// The image of an integer in the field.
    fn from_int(n: usize) -> (r: Self)
        ensures
            r.value() == Self::natural(n as nat),
    ;

    /// The multiplicative inverse, which every element but zero has.
    fn try_inverse(self) -> (r: Option<Self>)
        ensures
            match r {
                Some(x) => self.value() != Self::zero_value() && Self::times(
                    self.value(),
                    x.value(),
                ) == Self::one_value(),
                None => self.value() == Self::zero_value(),
            },
    ;
}

/// A field whose multiplicative group has subgroups of order `2^k`, up to some largest `k`.
pub trait TwoAdicField: Field {
    /// The smallest subfield, in which integers are cheap to invert.
    type PrimeSubfield: Field;

    /// The largest `k` such that there is a subgroup of order `2^k`.
    spec fn two_adicity() -> nat;

    /// The value of the chosen generator of the subgroup of order `2^bits`.
    spec fn generator(bits: nat) -> Self::Value;

    /// The value of one half.
    spec fn half() -> Self::Value;

    /// The value in this field of an element of the prime subfield.
    spec fn embed(v: <Self::PrimeSubfield as Field>::Value) -> Self::Value;

    /// The generators are field elements. The first is one and the second is minus one, and
    /// each is the square of the next.
    proof fn lemma_generators(bits: nat)
        ensures
            Self::is_element(Self::generator(bits)),
            Self::generator(0) == Self::one_value(),
            Self::two_adicity() >= 1 ==> Self::generator(1) == Self::negate(Self::one_value()),
            bits < Self::two_adicity() ==> Self::times(
                Self::generator(bits + 1),
                Self::generator(bits + 1),
            ) == Self::generator(bits),
    ;

    /// Two has an inverse wherever minus one has a square root of order two.
    proof fn lemma_half()
        ensures
            Self::two_adicity() >= 1 ==> Self::times(
                Self::plus(Self::one_value(), Self::one_value()),
                Self::half(),
            ) == Self::one_value(),
    ;

    /// The prime subfield is embedded by a ring homomorphism.
    proof fn lemma_embed(
        a: <Self::PrimeSubfield as Field>::Value,
        b: <Self::PrimeSubfield as Field>::Value,
    )
        ensures
            Self::embed(<Self::PrimeSubfield as Field>::zero_value()) == Self::zero_value(),
            Self::embed(<Self::PrimeSubfield as Field>::one_value()) == Self::one_value(),
            Self::embed(<Self::PrimeSubfield as Field>::plus(a, b)) == Self::plus(
                Self::embed(a),
                Self::embed(b),
            ),
            Self::embed(<Self::PrimeSubfield as Field>::times(a, b)) == Self::times(
                Self::embed(a),
                Self::embed(b),
            ),
    ;

    /// A generator of the multiplicative subgroup of order `2^bits`.
    fn two_adic_generator(bits: usize) -> (r: Self)
        requires
            bits <= Self::two_adicity(),
        ensures
            r.value() == Self::generator(bits as nat),
    ;

    /// The element of this field that an element of the prime subfield is.
    fn from_prime_subfield(x: Self::PrimeSubfield) -> (r: Self)
        ensures
            r.value() == Self::embed(x.value()),
    ;
}

} // verus!
