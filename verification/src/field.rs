//! Finite rings and fields by their canonical integer representatives.
//!
//! Every element of a ring is modelled by an integer in `[0, order)`: zero is
//! `0` and one is `1`. The operations of a ring are spec functions on those
//! integers, and its axioms are proof functions of the trait, so that code
//! written against [`FiniteField`] is verified for every field that implements
//! it.

use vstd::prelude::*;

verus! {

/// A finite commutative ring with one.
pub trait FiniteRing: Sized + Copy {
    /// The canonical representative of an element.
    spec fn val(self) -> int;

    /// The number of elements.
    spec fn order() -> int;

    /// The sum of two elements.
    spec fn plus(a: int, b: int) -> int;

    /// The additive inverse of an element.
    spec fn opposite(a: int) -> int;

    /// The product of two elements.
    spec fn times(a: int, b: int) -> int;

    /// Zero and one are two elements of the ring.
    proof fn law_order()
        ensures
            Self::order() >= 2,
    ;

    /// The representative of an element is canonical.
    proof fn law_val(self)
        ensures
            0 <= self.val() < Self::order(),
    ;

    /// Every operation yields a canonical representative.
    proof fn law_closed(a: int, b: int)
        ensures
            0 <= Self::plus(a, b) < Self::order(),
            0 <= Self::opposite(a) < Self::order(),
            0 <= Self::times(a, b) < Self::order(),
    ;

    /// Addition is commutative.
    proof fn law_plus_comm(a: int, b: int)
        ensures
            Self::plus(a, b) == Self::plus(b, a),
    ;

    /// Addition is associative.
    proof fn law_plus_assoc(a: int, b: int, c: int)
        ensures
            Self::plus(Self::plus(a, b), c) == Self::plus(a, Self::plus(b, c)),
    ;

    /// Zero is neutral for addition.
    proof fn law_plus_zero(a: int)
        ensures
            0 <= a < Self::order() ==> Self::plus(a, 0) == a,
    ;

    /// An element and its opposite add up to zero.
    proof fn law_plus_opposite(a: int)
        ensures
            Self::plus(a, Self::opposite(a)) == 0,
    ;

    /// Multiplication is commutative.
    proof fn law_times_comm(a: int, b: int)
        ensures
            Self::times(a, b) == Self::times(b, a),
    ;

    /// Multiplication is associative.
    proof fn law_times_assoc(a: int, b: int, c: int)
        ensures
            Self::times(Self::times(a, b), c) == Self::times(a, Self::times(b, c)),
    ;

    /// One is neutral for multiplication.
    proof fn law_times_one(a: int)
        ensures
            0 <= a < Self::order() ==> Self::times(a, 1) == a,
    ;

    /// Multiplication distributes over addition.
    proof fn law_distributive(a: int, b: int, c: int)
        ensures
            Self::times(a, Self::plus(b, c)) == Self::plus(Self::times(a, b), Self::times(a, c)),
    ;

    /// The element zero.
    fn zero() -> (r: Self)
        ensures
            r.val() == 0,
    ;

    /// The element one.
    fn one() -> (r: Self)
        ensures
            r.val() == 1,
    ;

    /// The sum.
    fn add(self, other: Self) -> (r: Self)
        ensures
            r.val() == Self::plus(self.val(), other.val()),
    ;

    /// The difference.
    fn sub(self, other: Self) -> (r: Self)
        ensures
            r.val() == Self::plus(self.val(), Self::opposite(other.val())),
    ;

    /// The additive inverse.
    fn neg(self) -> (r: Self)
        ensures
            r.val() == Self::opposite(self.val()),
    ;

    /// The product.
    fn mul(self, other: Self) -> (r: Self)
        ensures
            r.val() == Self::times(self.val(), other.val()),
    ;

    /// Whether two elements are the same.
    fn equals(self, other: Self) -> (r: bool)
        ensures
            r == (self.val() == other.val()),
    ;
}

/// The number that a sequence of bits denotes, least significant bit first.
pub open spec fn nat_of_bits(bits: Seq<bool>) -> nat
    decreases bits.len(),
{
    if bits.len() == 0 {
        0
    } else {
        (if bits[0] { 1nat } else { 0nat }) + 2 * nat_of_bits(bits.skip(1))
    }
}

/// The integers modulo a prime.
pub trait PrimeRing: FiniteRing {
    /// The operations are those of the integers, reduced by the order.
    proof fn law_modular(a: int, b: int)
        ensures
            Self::plus(a, b) == (a + b) % Self::order(),
            Self::opposite(a) == (-a) % Self::order(),
            Self::times(a, b) == (a * b) % Self::order(),
    ;

    /// How many bits an element is decomposed into.
    spec fn bit_count() -> nat;

    /// The binary digits of the representative, least significant first.
    fn bit_decomposition(self) -> (r: Vec<bool>)
        ensures
            r@.len() == Self::bit_count(),
            nat_of_bits(r@) == self.val(),
    ;

    /// `b` where `choice` holds and `a` elsewhere, without branching on it.
    fn conditional_select(a: Self, b: Self, choice: bool) -> (r: Self)
        ensures
            r.val() == (if choice { b.val() } else { a.val() }),
    ;
}

/// The representatives of a sequence of elements.
pub open spec fn field_vals<F: FiniteRing>(items: Seq<F>) -> Seq<int> {
    Seq::new(items.len(), |i: int| items[i].val())
}

/// Representatives are there in the order of the elements.
pub proof fn law_field_vals<F: FiniteRing>(items: Seq<F>)
    ensures
        field_vals(items).len() == items.len(),
        forall|i: int| 0 <= i < items.len() ==> #[trigger] field_vals(items)[i] == items[i].val(),
{
}

/// `n` ones added up in the ring `F`.
pub open spec fn cast<F: FiniteRing>(n: nat) -> int
    decreases n,
{
    if n == 0 {
        0
    } else {
        F::plus(cast::<F>((n - 1) as nat), 1)
    }
}

/// The `n`th power of `a` in the ring `F`.
pub open spec fn power<F: FiniteRing>(a: int, n: nat) -> int
    decreases n,
{
    if n == 0 {
        1
    } else {
        F::times(power::<F>(a, (n - 1) as nat), a)
    }
}

/// The difference of two elements of the ring `F`.
pub open spec fn minus<F: FiniteRing>(a: int, b: int) -> int {
    F::plus(a, F::opposite(b))
}

/// The element that the first `n` of `bits`, from `start` on, denote in binary.
pub open spec fn digit<F: FiniteRing>(bits: Seq<bool>, start: int, n: nat) -> int
    decreases n,
{
    if n == 0 {
        0
    } else {
        F::plus(
            digit::<F>(bits, start, (n - 1) as nat),
            F::times(
                if bits[start + n - 1] { 1 } else { 0 },
                power::<F>(F::plus(1, 1), (n - 1) as nat),
            ),
        )
    }
}

/// The element whose first `k` coordinates in the basis of the powers of `g`
/// are denoted by successive groups of `width` bits.
pub open spec fn compose<F: FiniteRing>(g: int, width: nat, bits: Seq<bool>, k: nat) -> int
    decreases k,
{
    if k == 0 {
        0
    } else {
        F::plus(
            compose::<F>(g, width, bits, (k - 1) as nat),
            F::times(
                digit::<F>(bits, (k - 1) * width, width),
                power::<F>(g, (k - 1) as nat),
            ),
        )
    }
}

/// A finite field with its prime subfield.
pub trait FiniteField: FiniteRing {
    /// The prime subfield.
    type PrimeField: PrimeRing;

    /// The dimension over the prime subfield.
    spec fn dimension() -> nat;

    /// The element whose powers are the basis over the prime subfield.
    spec fn generator_val() -> int;

    /// The bits of the coordinates of an element, group by group.
    spec fn bits_of(a: int) -> Seq<bool>;

    /// As many ones as the prime subfield has elements add up to zero.
    proof fn law_characteristic()
        ensures
            cast::<Self>(Self::PrimeField::order() as nat) == 0,
    ;

    /// An element is the combination of basis powers that its bits denote.
    proof fn law_bits(a: int)
        ensures
            0 <= a < Self::order() ==> Self::bits_of(a).len() == Self::dimension()
                * Self::PrimeField::bit_count() && compose::<Self>(
                Self::generator_val(),
                Self::PrimeField::bit_count(),
                Self::bits_of(a),
                Self::dimension(),
            ) == a,
    ;

    /// The dimension over the prime subfield.
    fn degree() -> (r: usize)
        ensures
            r == Self::dimension(),
    ;

    /// How many bits a coordinate is decomposed into.
    fn prime_bits() -> (r: usize)
        ensures
            r == Self::PrimeField::bit_count(),
    ;

    /// The element whose powers are the basis over the prime subfield.
    fn generator() -> (r: Self)
        ensures
            r.val() == Self::generator_val(),
    ;

    /// The element of the prime subfield, as an element of this field.
    fn from_prime(a: Self::PrimeField) -> (r: Self)
        ensures
            r.val() == cast::<Self>(a.val() as nat),
    ;

    /// The bits of the coordinates, group by group.
    fn coordinate_bits(self) -> (r: Vec<bool>)
        ensures
            r@ == Self::bits_of(self.val()),
    ;
}

/// A finite field that is its own prime subfield.
pub trait PrimeFiniteField: PrimeRing + FiniteField<PrimeField = Self> {

}

} // verus!
