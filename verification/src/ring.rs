//! Consequences of the ring axioms that the protocols rest on.

use crate::field::{
    cast, digit, minus, nat_of_bits, power, FiniteField, FiniteRing, PrimeFiniteField, PrimeRing,
};
use vstd::prelude::*;

verus! {

/// Powers add up: the power to no factors is one, that to one factor is the element,
/// and that to the factors of two powers together is their product.
pub proof fn law_power<F: FiniteRing>(a: int, m: nat, n: nat)
    requires
        0 <= a < F::order(),
    ensures
        power::<F>(a, 0) == 1,
        power::<F>(a, 1) == a,
        power::<F>(a, m + n) == F::times(power::<F>(a, m), power::<F>(a, n)),
    decreases n,
{
    F::law_order();
    lemma_one_times::<F>(a);
    assert(power::<F>(a, 0) == 1);
    assert(power::<F>(a, 1) == F::times(1, a));
    lemma_power_closed::<F>(a, m);
    if n == 0 {
        F::law_times_one(power::<F>(a, m));
    } else {
        let k = (n - 1) as nat;
        law_power::<F>(a, m, k);
        assert(power::<F>(a, m + n) == F::times(power::<F>(a, m + k), a));
        F::law_times_assoc(power::<F>(a, m), power::<F>(a, k), a);
    }
}

/// Two sums added up are the sums of the parts.
pub proof fn lemma_plus_swap<F: FiniteRing>(a: int, b: int, c: int, d: int)
    ensures
        F::plus(F::plus(a, b), F::plus(c, d)) == F::plus(F::plus(a, c), F::plus(b, d)),
{
    F::law_plus_assoc(a, b, F::plus(c, d));
    F::law_plus_assoc(b, c, d);
    F::law_plus_comm(b, c);
    F::law_plus_assoc(c, b, d);
    F::law_plus_assoc(a, c, F::plus(b, d));
}

/// An element is determined by its sum with another.
pub proof fn lemma_plus_cancel<F: FiniteRing>(a: int, b: int, c: int)
    requires
        0 <= a < F::order(),
        0 <= b < F::order(),
        F::plus(a, c) == F::plus(b, c),
    ensures
        a == b,
{
    F::law_plus_assoc(a, c, F::opposite(c));
    F::law_plus_assoc(b, c, F::opposite(c));
    F::law_plus_opposite(c);
    F::law_plus_zero(a);
    F::law_plus_zero(b);
}

/// Zero is neutral on the left too.
pub proof fn lemma_zero_plus<F: FiniteRing>(a: int)
    requires
        0 <= a < F::order(),
    ensures
        F::plus(0, a) == a,
        F::plus(a, 0) == a,
{
    F::law_plus_comm(0, a);
    F::law_plus_zero(a);
}

/// What adds up to zero with an element is its opposite.
pub proof fn lemma_opposite_unique<F: FiniteRing>(a: int, b: int)
    requires
        0 <= b < F::order(),
        F::plus(a, b) == 0,
    ensures
        b == F::opposite(a),
{
    F::law_plus_opposite(a);
    F::law_closed(a, a);
    F::law_plus_comm(a, b);
    F::law_plus_comm(a, F::opposite(a));
    lemma_plus_cancel::<F>(b, F::opposite(a), a);
}

/// Anything times zero is zero.
pub proof fn lemma_times_zero<F: FiniteRing>(a: int)
    ensures
        F::times(a, 0) == 0,
        F::times(0, a) == 0,
{
    F::law_order();
    let z = F::times(a, 0);
    F::law_closed(a, 0);
    F::law_plus_zero(0);
    F::law_distributive(a, 0, 0);
    lemma_zero_plus::<F>(z);
    lemma_plus_cancel::<F>(z, 0, z);
    F::law_times_comm(a, 0);
}

/// One is neutral on the left too.
pub proof fn lemma_one_times<F: FiniteRing>(a: int)
    requires
        0 <= a < F::order(),
    ensures
        F::times(1, a) == a,
        F::times(a, 1) == a,
{
    F::law_times_comm(1, a);
    F::law_times_one(a);
}

/// Multiplication distributes over addition on the left too.
pub proof fn lemma_distributive_left<F: FiniteRing>(a: int, b: int, c: int)
    ensures
        F::times(F::plus(a, b), c) == F::plus(F::times(a, c), F::times(b, c)),
{
    F::law_times_comm(F::plus(a, b), c);
    F::law_distributive(c, a, b);
    F::law_times_comm(c, a);
    F::law_times_comm(c, b);
}

/// The opposite of zero is zero.
pub proof fn lemma_opposite_zero<F: FiniteRing>()
    ensures
        F::opposite(0) == 0,
{
    F::law_order();
    F::law_plus_zero(0);
    lemma_opposite_unique::<F>(0, 0);
}

/// The opposite of an opposite is the element itself.
pub proof fn lemma_opposite_opposite<F: FiniteRing>(a: int)
    requires
        0 <= a < F::order(),
    ensures
        F::opposite(F::opposite(a)) == a,
{
    F::law_plus_opposite(a);
    F::law_plus_comm(a, F::opposite(a));
    lemma_opposite_unique::<F>(F::opposite(a), a);
}

/// The opposite of a sum is the sum of the opposites.
pub proof fn lemma_opposite_plus<F: FiniteRing>(a: int, b: int)
    ensures
        F::opposite(F::plus(a, b)) == F::plus(F::opposite(a), F::opposite(b)),
{
    F::law_order();
    lemma_plus_swap::<F>(a, b, F::opposite(a), F::opposite(b));
    F::law_plus_opposite(a);
    F::law_plus_opposite(b);
    F::law_plus_zero(0);
    F::law_closed(F::opposite(a), F::opposite(b));
    lemma_opposite_unique::<F>(F::plus(a, b), F::plus(F::opposite(a), F::opposite(b)));
}

/// A factor's opposite gives the product's opposite.
pub proof fn lemma_times_opposite<F: FiniteRing>(a: int, b: int)
    ensures
        F::times(a, F::opposite(b)) == F::opposite(F::times(a, b)),
        F::times(F::opposite(a), b) == F::opposite(F::times(a, b)),
{
    F::law_distributive(a, b, F::opposite(b));
    F::law_plus_opposite(b);
    lemma_times_zero::<F>(a);
    F::law_closed(a, F::opposite(b));
    lemma_opposite_unique::<F>(F::times(a, b), F::times(a, F::opposite(b)));
    lemma_distributive_left::<F>(a, F::opposite(a), b);
    F::law_plus_opposite(a);
    lemma_times_zero::<F>(b);
    F::law_closed(F::opposite(a), b);
    lemma_opposite_unique::<F>(F::times(a, b), F::times(F::opposite(a), b));
}

/// What is subtracted after it was added leaves the element.
pub proof fn lemma_plus_minus<F: FiniteRing>(a: int, b: int)
    requires
        0 <= a < F::order(),
    ensures
        minus::<F>(F::plus(a, b), b) == a,
        F::plus(minus::<F>(a, b), b) == a,
        F::plus(b, minus::<F>(a, b)) == a,
{
    F::law_plus_assoc(a, b, F::opposite(b));
    F::law_plus_opposite(b);
    F::law_plus_zero(a);
    F::law_plus_assoc(a, F::opposite(b), b);
    F::law_plus_comm(F::opposite(b), b);
    F::law_plus_comm(b, minus::<F>(a, b));
}

/// Multiplication distributes over a difference.
pub proof fn lemma_distributive_minus<F: FiniteRing>(a: int, b: int, c: int)
    ensures
        F::times(a, minus::<F>(b, c)) == minus::<F>(F::times(a, b), F::times(a, c)),
        F::times(minus::<F>(b, c), a) == minus::<F>(F::times(b, a), F::times(c, a)),
{
    F::law_distributive(a, b, F::opposite(c));
    lemma_times_opposite::<F>(a, c);
    F::law_times_comm(a, minus::<F>(b, c));
    F::law_times_comm(a, b);
    F::law_times_comm(a, c);
}

/// The difference of two sums is the sum of the differences.
pub proof fn lemma_minus_plus<F: FiniteRing>(a: int, b: int, c: int, d: int)
    ensures
        minus::<F>(F::plus(a, b), F::plus(c, d)) == F::plus(minus::<F>(a, c), minus::<F>(b, d)),
{
    lemma_opposite_plus::<F>(c, d);
    lemma_plus_swap::<F>(a, b, F::opposite(c), F::opposite(d));
}

/// A difference of equals is zero, and only of equals.
pub proof fn lemma_minus_zero<F: FiniteRing>(a: int, b: int)
    requires
        0 <= a < F::order(),
        0 <= b < F::order(),
    ensures
        minus::<F>(a, b) == 0 <==> a == b,
{
    F::law_plus_opposite(b);
    if minus::<F>(a, b) == 0 {
        lemma_plus_cancel::<F>(a, b, F::opposite(b));
    }
}

/// A power is a canonical representative.
pub proof fn lemma_power_closed<F: FiniteRing>(a: int, n: nat)
    ensures
        0 <= power::<F>(a, n) < F::order(),
{
    F::law_order();
    if n > 0 {
        F::law_closed(power::<F>(a, (n - 1) as nat), a);
    }
}

/// A cast is a canonical representative.
pub proof fn lemma_cast_closed<F: FiniteRing>(n: nat)
    ensures
        0 <= cast::<F>(n) < F::order(),
{
    F::law_order();
    if n > 0 {
        F::law_closed(cast::<F>((n - 1) as nat), 1);
    }
}

/// Casting respects addition.
pub proof fn lemma_cast_plus<F: FiniteRing>(m: nat, n: nat)
    ensures
        cast::<F>(m + n) == F::plus(cast::<F>(m), cast::<F>(n)),
    decreases n,
{
    if n == 0 {
        lemma_cast_closed::<F>(m);
        F::law_plus_zero(cast::<F>(m));
    } else {
        lemma_cast_plus::<F>(m, (n - 1) as nat);
        assert(m + n - 1 == m + (n - 1) as nat);
        F::law_plus_assoc(cast::<F>(m), cast::<F>((n - 1) as nat), 1);
    }
}

/// Casting respects multiplication.
pub proof fn lemma_cast_times<F: FiniteRing>(m: nat, n: nat)
    ensures
        cast::<F>(m * n) == F::times(cast::<F>(m), cast::<F>(n)),
    decreases n,
{
    if n == 0 {
        assert(m * n == 0);
        lemma_times_zero::<F>(cast::<F>(m));
    } else {
        let k = (n - 1) as nat;
        lemma_cast_times::<F>(m, k);
        assert(m * n == m * k + m) by (nonlinear_arith)
            requires
                n == k + 1,
        ;
        lemma_cast_plus::<F>(m * k, m);
        F::law_distributive(cast::<F>(m), cast::<F>(k), 1);
        lemma_cast_closed::<F>(m);
        F::law_times_one(cast::<F>(m));
    }
}

/// Casting one gives one.
pub proof fn lemma_cast_one<F: FiniteRing>()
    ensures
        cast::<F>(0) == 0,
        cast::<F>(1) == 1,
{
    F::law_order();
    assert(cast::<F>(0) == 0);
    lemma_zero_plus::<F>(1);
    assert(cast::<F>(1) == F::plus(cast::<F>(0), 1));
}

/// Casting by a power of two is a power of two.
pub proof fn lemma_cast_pow2<F: FiniteRing>(n: nat)
    ensures
        cast::<F>(vstd::arithmetic::power2::pow2(n)) == power::<F>(F::plus(1, 1), n),
    decreases n,
{
    lemma_cast_one::<F>();
    if n == 0 {
        vstd::arithmetic::power2::lemma2_to64();
    } else {
        let k = (n - 1) as nat;
        lemma_cast_pow2::<F>(k);
        vstd::arithmetic::power2::lemma_pow2_unfold(n);
        lemma_cast_times::<F>(vstd::arithmetic::power2::pow2(k), 2);
        lemma_cast_plus::<F>(1, 1);
        assert(vstd::arithmetic::power2::pow2(n) == vstd::arithmetic::power2::pow2(k) * 2);
    }
}

/// In a ring of integers modulo a prime, casting is reducing.
pub proof fn lemma_cast_modular<F: PrimeRing>(n: nat)
    ensures
        cast::<F>(n) == n as int % F::order(),
    decreases n,
{
    F::law_order();
    if n == 0 {
        vstd::arithmetic::div_mod::lemma_small_mod(0, F::order() as nat);
    } else {
        lemma_cast_modular::<F>((n - 1) as nat);
        F::law_modular((n - 1) % F::order(), 1);
        vstd::arithmetic::div_mod::lemma_add_mod_noop(n - 1, 1, F::order());
        vstd::arithmetic::div_mod::lemma_add_mod_noop((n - 1) % F::order(), 1, F::order());
        vstd::arithmetic::div_mod::lemma_mod_twice(n - 1, F::order());
    }
}

/// In a field that is its own prime subfield, casting keeps the elements.
pub proof fn lemma_cast_identity<F: PrimeRing>(a: int)
    requires
        0 <= a < F::order(),
    ensures
        cast::<F>(a as nat) == a,
{
    lemma_cast_modular::<F>(a as nat);
    vstd::arithmetic::div_mod::lemma_small_mod(a as nat, F::order() as nat);
}

/// Multiples of the characteristic are cast to zero.
proof fn lemma_cast_characteristic<F: FiniteField>(k: nat)
    ensures
        cast::<F>((k * F::PrimeField::order()) as nat) == 0,
{
    F::PrimeField::law_order();
    F::law_characteristic();
    let p = F::PrimeField::order() as nat;
    lemma_cast_times::<F>(k, p);
    lemma_times_zero::<F>(cast::<F>(k));
}

/// Casting does not see a reduction by the characteristic.
pub proof fn lemma_cast_mod<F: FiniteField>(n: nat)
    ensures
        cast::<F>((n as int % F::PrimeField::order()) as nat) == cast::<F>(n),
{
    F::PrimeField::law_order();
    let p = F::PrimeField::order();
    let q = n as int / p;
    let r = n as int % p;
    vstd::arithmetic::div_mod::lemma_fundamental_div_mod(n as int, p);
    vstd::arithmetic::div_mod::lemma_div_pos_is_pos(n as int, p);
    assert(n as int == q * p + r) by (nonlinear_arith)
        requires
            n as int == p * q + r,
    ;
    assert(q * p >= 0) by (nonlinear_arith)
        requires
            q >= 0,
            p >= 2,
    ;
    lemma_cast_characteristic::<F>(q as nat);
    lemma_cast_plus::<F>((q * p) as nat, r as nat);
    lemma_cast_closed::<F>(r as nat);
    lemma_zero_plus::<F>(cast::<F>(r as nat));
}

/// The element of the field that stands for an element of the prime subfield.
pub open spec fn embed<F: FiniteField>(a: int) -> int {
    cast::<F>((a % F::PrimeField::order()) as nat)
}

/// Embedding respects the operations of the prime subfield.
pub proof fn lemma_embed<F: FiniteField>(a: int, b: int)
    requires
        0 <= a < F::PrimeField::order(),
        0 <= b < F::PrimeField::order(),
    ensures
        0 <= embed::<F>(a) < F::order(),
        embed::<F>(F::PrimeField::plus(a, b)) == F::plus(embed::<F>(a), embed::<F>(b)),
        embed::<F>(F::PrimeField::times(a, b)) == F::times(embed::<F>(a), embed::<F>(b)),
        embed::<F>(F::PrimeField::opposite(a)) == F::opposite(embed::<F>(a)),
        embed::<F>(0) == 0,
        embed::<F>(1) == 1,
{
    let p = F::PrimeField::order();
    F::PrimeField::law_order();
    F::PrimeField::law_modular(a, b);
    F::PrimeField::law_closed(a, b);
    F::PrimeField::law_plus_opposite(a);
    vstd::arithmetic::div_mod::lemma_small_mod(a as nat, p as nat);
    vstd::arithmetic::div_mod::lemma_small_mod(b as nat, p as nat);
    vstd::arithmetic::div_mod::lemma_small_mod(0, p as nat);
    vstd::arithmetic::div_mod::lemma_small_mod(1, p as nat);
    vstd::arithmetic::div_mod::lemma_small_mod(F::PrimeField::opposite(a) as nat, p as nat);
    vstd::arithmetic::div_mod::lemma_mod_twice(a + b, p);
    vstd::arithmetic::div_mod::lemma_mod_twice(a * b, p);
    assert(a * b >= 0) by (nonlinear_arith)
        requires
            a >= 0,
            b >= 0,
    ;
    lemma_cast_closed::<F>(a as nat);
    lemma_cast_one::<F>();
    lemma_cast_mod::<F>((a + b) as nat);
    lemma_cast_plus::<F>(a as nat, b as nat);
    lemma_cast_mod::<F>((a * b) as nat);
    lemma_cast_times::<F>(a as nat, b as nat);
    let o = F::PrimeField::opposite(a);
    F::PrimeField::law_modular(a, o);
    lemma_cast_mod::<F>((a + o) as nat);
    lemma_cast_plus::<F>(a as nat, o as nat);
    lemma_cast_closed::<F>(o as nat);
    lemma_opposite_unique::<F>(cast::<F>(a as nat), cast::<F>(o as nat));
}

/// In a field that is its own prime subfield, embedding keeps the elements.
pub proof fn lemma_embed_identity<F: PrimeFiniteField>(a: int)
    requires
        0 <= a < F::order(),
    ensures
        embed::<F>(a) == a,
{
    vstd::arithmetic::div_mod::lemma_small_mod(a as nat, F::order() as nat);
    lemma_cast_identity::<F>(a);
}

/// The lowest `n` binary digits of a number, least significant first.
pub open spec fn bits_of_nat(a: nat, n: nat) -> Seq<bool>
    decreases n,
{
    if n == 0 {
        Seq::empty()
    } else {
        seq![a % 2 == 1] + bits_of_nat(a / 2, (n - 1) as nat)
    }
}

/// A number is the number of its binary digits.
pub proof fn lemma_bits_of_nat(a: nat, n: nat)
    ensures
        bits_of_nat(a, n).len() == n,
        a < vstd::arithmetic::power2::pow2(n) ==> nat_of_bits(bits_of_nat(a, n)) == a,
    decreases n,
{
    if n == 0 {
        vstd::arithmetic::power2::lemma2_to64();
    } else {
        let k = (n - 1) as nat;
        lemma_bits_of_nat(a / 2, k);
        vstd::arithmetic::power2::lemma_pow2_unfold(n);
        assert(bits_of_nat(a, n).skip(1) =~= bits_of_nat(a / 2, k));
    }
}

/// A sequence of bits and one more bit at its end.
pub proof fn lemma_nat_of_bits_push(bits: Seq<bool>, b: bool)
    ensures
        nat_of_bits(bits.push(b)) == nat_of_bits(bits) + (if b {
            vstd::arithmetic::power2::pow2(bits.len())
        } else {
            0
        }),
    decreases bits.len(),
{
    if bits.len() == 0 {
        vstd::arithmetic::power2::lemma2_to64();
        assert(bits.push(b).skip(1) =~= Seq::empty());
        assert(nat_of_bits(bits.push(b).skip(1)) == 0);
    } else {
        lemma_nat_of_bits_push(bits.skip(1), b);
        assert(bits.push(b).skip(1) =~= bits.skip(1).push(b));
        vstd::arithmetic::power2::lemma_pow2_unfold(bits.len());
    }
}

/// The digit of the first bits of a sequence is their number in the ring.
pub proof fn lemma_digit<F: FiniteRing>(bits: Seq<bool>, n: nat)
    requires
        n <= bits.len(),
    ensures
        digit::<F>(bits, 0, n) == cast::<F>(nat_of_bits(bits.take(n as int))),
    decreases n,
{
    lemma_cast_one::<F>();
    if n == 0 {
        assert(bits.take(0) =~= Seq::empty());
    } else {
        let k = (n - 1) as nat;
        lemma_digit::<F>(bits, k);
        let b = bits[k as int];
        assert(bits.take(n as int) =~= bits.take(k as int).push(b));
        lemma_nat_of_bits_push(bits.take(k as int), b);
        let p = vstd::arithmetic::power2::pow2(k);
        lemma_cast_pow2::<F>(k);
        lemma_cast_closed::<F>(p);
        lemma_cast_closed::<F>(nat_of_bits(bits.take(k as int)));
        lemma_one_times::<F>(cast::<F>(p));
        lemma_times_zero::<F>(cast::<F>(p));
        lemma_zero_plus::<F>(cast::<F>(nat_of_bits(bits.take(k as int))));
        lemma_cast_plus::<F>(nat_of_bits(bits.take(k as int)), p);
    }
}

} // verus!
