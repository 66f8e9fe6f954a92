//! The prime fields of the library: two elements, and `2^61 - 1` elements.

use crate::field::{
    compose, nat_of_bits, power, FiniteField, FiniteRing, PrimeFiniteField, PrimeRing,
};
use crate::ring::{
    bits_of_nat, lemma_bits_of_nat, lemma_cast_identity, lemma_cast_modular, lemma_digit,
    lemma_one_times, lemma_zero_plus,
};
use subtle::{Choice, ConditionallySelectable};
use vstd::arithmetic::div_mod::{
    lemma_add_mod_noop, lemma_add_mod_noop_right, lemma_mod_bound, lemma_mul_mod_noop_left,
    lemma_mul_mod_noop_right, lemma_small_mod,
};
use vstd::arithmetic::mul::{lemma_mul_is_associative, lemma_mul_is_distributive_add};
use vstd::arithmetic::power2::{lemma2_to64, lemma_pow2_adds, pow2};
use vstd::prelude::*;

verus! {

/// The order of [`F61p`].
pub const MERSENNE_61: u64 = 0x1fff_ffff_ffff_ffff;

/// Calls `u64::conditional_select` of `subtle` on the choice made from a bit:
/// the result is `b` where the bit is set and `a` where it is not.
#[verifier::external_body]
fn select_word(a: u64, b: u64, choice: bool) -> (r: u64)
    ensures
        r == (if choice { b } else { a }),
{
    u64::conditional_select(&a, &b, Choice::from(choice as u8))
}

/// The integers modulo `m` are a ring.
proof fn lemma_residues(a: int, b: int, c: int, m: int)
    requires
        m >= 2,
    ensures
        0 <= a % m < m,
        ((a + b) % m + c) % m == (a + (b + c) % m) % m,
        (a + (-a) % m) % m == 0,
        ((a * b) % m * c) % m == (a * ((b * c) % m)) % m,
        (a * ((b + c) % m)) % m == ((a * b) % m + (a * c) % m) % m,
{
    lemma_mod_bound(a, m);
    lemma_add_mod_noop_right(a, b + c, m);
    lemma_add_mod_noop_right(c, a + b, m);
    lemma_add_mod_noop_right(a, -a, m);
    lemma_small_mod(0, m as nat);
    lemma_mul_mod_noop_left(a * b, c, m);
    lemma_mul_mod_noop_right(a, b * c, m);
    lemma_mul_is_associative(a, b, c);
    lemma_mul_mod_noop_right(a, b + c, m);
    lemma_mul_is_distributive_add(a, b, c);
    lemma_add_mod_noop(a * b, a * c, m);
}

/// The lowest `n` binary digits of a word, least significant first.
fn word_bits(a: u64, n: usize) -> (r: Vec<bool>)
    ensures
        r@ == bits_of_nat(a as nat, n as nat),
{
    let mut r: Vec<bool> = Vec::new();
    let mut rest: u64 = a;
    let mut i: usize = 0;
    while i < n
        invariant
            i <= n,
            r@ + bits_of_nat(rest as nat, (n - i) as nat) == bits_of_nat(a as nat, n as nat),
        decreases n - i,
    {
        proof {
            let s = r@.push(rest % 2 == 1) + bits_of_nat(rest as nat / 2, (n - i - 1) as nat);
            assert(s =~= r@ + bits_of_nat(rest as nat, (n - i) as nat));
        }
        r.push(rest % 2 == 1);
        rest = rest / 2;
        i = i + 1;
    }
    assert(r@ =~= r@ + bits_of_nat(rest as nat, 0));
    r
}

proof fn lemma_pow2_61()
    ensures
        pow2(61) == 0x2000_0000_0000_0000,
{
    lemma2_to64();
    lemma_pow2_adds(29, 32);
}

/// A prime field composes an element from its own binary digits.
proof fn lemma_prime_bits<F: PrimeRing>(a: int, width: nat, generator: int)
    requires
        0 <= a < F::order(),
        F::order() <= pow2(width),
    ensures
        bits_of_nat(a as nat, width).len() == width,
        nat_of_bits(bits_of_nat(a as nat, width)) == a,
        compose::<F>(generator, width, bits_of_nat(a as nat, width), 1) == a,
{
    let bits = bits_of_nat(a as nat, width);
    lemma_bits_of_nat(a as nat, width);
    lemma_digit::<F>(bits, width);
    assert(bits.take(width as int) =~= bits);
    lemma_cast_identity::<F>(a);
    assert(compose::<F>(generator, width, bits, 0) == 0);
    assert(power::<F>(generator, 0) == 1);
    lemma_one_times::<F>(a);
    lemma_zero_plus::<F>(a);
    assert(0 * width == 0);
}

/// The field of two elements.
#[derive(Clone, Copy, Debug, PartialEq, Eq, Structural)]
pub struct F2 {
    /// Whether the element is one.
    pub bit: bool,
}

impl F2 {
    /// One for `true`, zero for `false`.
    pub fn new(bit: bool) -> (r: Self)
        ensures
            r.bit == bit,
            r.val() == (if bit { 1int } else { 0int }),
    {
        F2 { bit }
    }
}

impl FiniteRing for F2 {
    open spec fn val(self) -> int {
        if self.bit {
            1
        } else {
            0
        }
    }

    open spec fn order() -> int {
        2
    }

    open spec fn plus(a: int, b: int) -> int {
        (a + b) % 2
    }

    open spec fn opposite(a: int) -> int {
        (-a) % 2
    }

    open spec fn times(a: int, b: int) -> int {
        (a * b) % 2
    }

    proof fn law_order() {
    }

    proof fn law_val(self) {
    }

    proof fn law_closed(a: int, b: int) {
    }

    proof fn law_plus_comm(a: int, b: int) {
    }

    proof fn law_plus_assoc(a: int, b: int, c: int) {
        lemma_residues(a, b, c, 2);
    }

    proof fn law_plus_zero(a: int) {
    }

    proof fn law_plus_opposite(a: int) {
        lemma_residues(a, 0, 0, 2);
    }

    proof fn law_times_comm(a: int, b: int) {
        assert(a * b == b * a) by (nonlinear_arith);
    }

    proof fn law_times_assoc(a: int, b: int, c: int) {
        lemma_residues(a, b, c, 2);
    }

    proof fn law_times_one(a: int) {
    }

    proof fn law_distributive(a: int, b: int, c: int) {
        lemma_residues(a, b, c, 2);
    }

    fn zero() -> (r: Self) {
        F2 { bit: false }
    }

    fn one() -> (r: Self) {
        F2 { bit: true }
    }

    fn add(self, other: Self) -> (r: Self) {
        F2 { bit: self.bit != other.bit }
    }

    fn sub(self, other: Self) -> (r: Self) {
        F2 { bit: self.bit != other.bit }
    }

    fn neg(self) -> (r: Self) {
        self
    }

    fn mul(self, other: Self) -> (r: Self) {
        proof {
            assert(self.val() * other.val() == (if self.bit && other.bit {
                1int
            } else {
                0int
            })) by (nonlinear_arith)
                requires
                    self.val() == (if self.bit { 1int } else { 0int }),
                    other.val() == (if other.bit { 1int } else { 0int }),
            ;
        }
        F2 { bit: self.bit && other.bit }
    }

    fn equals(self, other: Self) -> (r: bool) {
        self.bit == other.bit
    }
}

impl PrimeRing for F2 {
    proof fn law_modular(a: int, b: int) {
    }

    open spec fn bit_count() -> nat {
        1
    }

    fn bit_decomposition(self) -> (r: Vec<bool>) {
        proof {
            lemma2_to64();
            lemma_bits_of_nat(self.val() as nat, 1);
        }
        word_bits(if self.bit { 1 } else { 0 }, 1)
    }

    fn conditional_select(a: Self, b: Self, choice: bool) -> (r: Self) {
        let x: u64 = if a.bit { 1 } else { 0 };
        let y: u64 = if b.bit { 1 } else { 0 };
        F2 { bit: select_word(x, y, choice) == 1 }
    }
}

impl FiniteField for F2 {
    type PrimeField = F2;

    open spec fn dimension() -> nat {
        1
    }

    open spec fn generator_val() -> int {
        1
    }

    open spec fn bits_of(a: int) -> Seq<bool> {
        bits_of_nat(a as nat, 1)
    }

    proof fn law_characteristic() {
        lemma_cast_modular::<F2>(2);
    }

    proof fn law_bits(a: int) {
        if 0 <= a < 2 {
            lemma2_to64();
            lemma_prime_bits::<F2>(a, 1, 1);
        }
    }

    fn degree() -> (r: usize) {
        1
    }

    fn prime_bits() -> (r: usize) {
        1
    }

    fn generator() -> (r: Self) {
        F2 { bit: true }
    }

    fn from_prime(a: Self) -> (r: Self) {
        proof {
            lemma_cast_identity::<F2>(a.val());
        }
        a
    }

    fn coordinate_bits(self) -> (r: Vec<bool>) {
        word_bits(if self.bit { 1 } else { 0 }, 1)
    }
}

impl PrimeFiniteField for F2 {

}

/// The field of `2^61 - 1` elements.
#[derive(Clone, Copy, Debug, PartialEq, Eq, Structural)]
pub struct F61p {
    residue: u64,
}

impl F61p {
    #[verifier::type_invariant]
    closed spec fn inv(self) -> bool {
        self.residue < MERSENNE_61
    }

    /// The residue of a number.
    pub fn new(n: u64) -> (r: Self)
        ensures
            r.val() == n as int % 0x1fff_ffff_ffff_ffff,
    {
        F61p { residue: n % MERSENNE_61 }
    }

    /// The canonical representative.
    pub fn value(self) -> (r: u64)
        ensures
            r == self.val(),
    {
        proof {
            use_type_invariant(&self);
        }
        self.residue
    }
}

impl FiniteRing for F61p {
    closed spec fn val(self) -> int {
        self.residue as int % 0x1fff_ffff_ffff_ffff
    }

    open spec fn order() -> int {
        0x1fff_ffff_ffff_ffff
    }

    open spec fn plus(a: int, b: int) -> int {
        (a + b) % 0x1fff_ffff_ffff_ffff
    }

    open spec fn opposite(a: int) -> int {
        (-a) % 0x1fff_ffff_ffff_ffff
    }

    open spec fn times(a: int, b: int) -> int {
        (a * b) % 0x1fff_ffff_ffff_ffff
    }

    proof fn law_order() {
    }

    proof fn law_val(self) {
    }

    proof fn law_closed(a: int, b: int) {
        lemma_mod_bound(a * b, Self::order());
    }

    proof fn law_plus_comm(a: int, b: int) {
    }

    proof fn law_plus_assoc(a: int, b: int, c: int) {
        lemma_residues(a, b, c, Self::order());
    }

    proof fn law_plus_zero(a: int) {
    }

    proof fn law_plus_opposite(a: int) {
        lemma_residues(a, 0, 0, Self::order());
    }

    proof fn law_times_comm(a: int, b: int) {
        assert(a * b == b * a) by (nonlinear_arith);
    }

    proof fn law_times_assoc(a: int, b: int, c: int) {
        lemma_residues(a, b, c, Self::order());
    }

    proof fn law_times_one(a: int) {
    }

    proof fn law_distributive(a: int, b: int, c: int) {
        lemma_residues(a, b, c, Self::order());
    }

    fn zero() -> (r: Self) {
        F61p { residue: 0 }
    }

    fn one() -> (r: Self) {
        F61p { residue: 1 }
    }

    fn add(self, other: Self) -> (r: Self) {
        proof {
            use_type_invariant(&self);
            use_type_invariant(&other);
        }
        F61p { residue: (self.residue + other.residue) % MERSENNE_61 }
    }

    fn sub(self, other: Self) -> (r: Self) {
        self.add(other.neg())
    }

    fn neg(self) -> (r: Self) {
        proof {
            use_type_invariant(&self);
        }
        F61p { residue: (MERSENNE_61 - self.residue) % MERSENNE_61 }
    }

    fn mul(self, other: Self) -> (r: Self) {
        proof {
            use_type_invariant(&self);
            use_type_invariant(&other);
        }
        let a: u128 = self.residue as u128;
        let b: u128 = other.residue as u128;
        assert(a * b <= 0x1fff_ffff_ffff_ffff * 0x1fff_ffff_ffff_ffff) by (nonlinear_arith)
            requires
                0 <= a <= 0x1fff_ffff_ffff_ffff,
                0 <= b <= 0x1fff_ffff_ffff_ffff,
        ;
        F61p { residue: ((a * b) % (MERSENNE_61 as u128)) as u64 }
    }

    fn equals(self, other: Self) -> (r: bool) {
        proof {
            use_type_invariant(&self);
            use_type_invariant(&other);
        }
        self.residue == other.residue
    }
}

impl PrimeRing for F61p {
    proof fn law_modular(a: int, b: int) {
    }

    open spec fn bit_count() -> nat {
        61
    }

    fn bit_decomposition(self) -> (r: Vec<bool>) {
        proof {
            use_type_invariant(&self);
            lemma_pow2_61();
            lemma_bits_of_nat(self.val() as nat, 61);
        }
        word_bits(self.residue, 61)
    }

    fn conditional_select(a: Self, b: Self, choice: bool) -> (r: Self) {
        proof {
            use_type_invariant(&a);
            use_type_invariant(&b);
        }
        F61p { residue: select_word(a.residue, b.residue, choice) }
    }
}

impl FiniteField for F61p {
    type PrimeField = F61p;

    open spec fn dimension() -> nat {
        1
    }

    open spec fn generator_val() -> int {
        37
    }

    open spec fn bits_of(a: int) -> Seq<bool> {
        bits_of_nat(a as nat, 61)
    }

    proof fn law_characteristic() {
        lemma_cast_modular::<F61p>(0x1fff_ffff_ffff_ffff);
    }

    proof fn law_bits(a: int) {
        if 0 <= a < Self::order() {
            lemma_pow2_61();
            lemma_prime_bits::<F61p>(a, 61, 37);
        }
    }

    fn degree() -> (r: usize) {
        1
    }

    fn prime_bits() -> (r: usize) {
        61
    }

    fn generator() -> (r: Self) {
        F61p { residue: 37 }
    }

    fn from_prime(a: Self) -> (r: Self) {
        proof {
            a.law_val();
            lemma_cast_identity::<F61p>(a.val());
        }
        a
    }

    fn coordinate_bits(self) -> (r: Vec<bool>) {
        proof {
            use_type_invariant(&self);
        }
        word_bits(self.residue, 61)
    }
}

impl PrimeFiniteField for F61p {

}

/// The bits of an element of a prime field are its binary digits, least significant
/// first.
pub proof fn law_prime_coordinates(a: int)
    ensures
        0 <= a < 2 ==> F2::bits_of(a).len() == 1 && nat_of_bits(F2::bits_of(a)) == a,
        0 <= a < 0x1fff_ffff_ffff_ffff ==> F61p::bits_of(a).len() == 61 && nat_of_bits(
            F61p::bits_of(a),
        ) == a,
{
    lemma2_to64();
    lemma_pow2_61();
    if 0 <= a < 2 {
        lemma_prime_bits::<F2>(a, 1, 1);
    }
    if 0 <= a < 0x1fff_ffff_ffff_ffff {
        lemma_prime_bits::<F61p>(a, 61, 1);
    }
}

} // verus!
