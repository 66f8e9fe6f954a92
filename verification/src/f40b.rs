//! The field of `2^40` elements, as polynomials over the two-element field
//! modulo `x^40 + x^5 + x^4 + x^3 + 1`.
//!
//! An element is the integer whose binary digits are the coefficients. The
//! powers of `x` are the basis over the prime subfield.

use crate::field::{cast, compose, digit, power, FiniteField, FiniteRing, PrimeRing};
use crate::prime_fields::F2;
use crate::ring::{lemma_one_times, lemma_times_zero, lemma_zero_plus};
use vstd::arithmetic::power2::pow2;
use vstd::bits::{lemma_u64_pow2_no_overflow, lemma_u64_shl_is_mul};
use vstd::prelude::*;

verus! {

/// All forty coefficients.
pub const COEFFICIENTS: u64 = 0xff_ffff_ffff;

/// `x^40` reduced: `x^5 + x^4 + x^3 + 1`.
pub const REDUCTION: u64 = 0x39;

/// The coefficient of `x^k`.
pub open spec fn coefficient(b: u64, k: nat) -> bool {
    (b >> (k as u64)) & 1 == 1
}

/// The product with `x`.
pub open spec fn times_x(a: u64) -> u64 {
    if (a >> 39) & 1 == 1 {
        ((a << 1) & COEFFICIENTS) ^ REDUCTION
    } else {
        (a << 1) & COEFFICIENTS
    }
}

/// The product with `x^n`.
pub open spec fn times_x_pow(a: u64, n: nat) -> u64
    decreases n,
{
    if n == 0 {
        a
    } else {
        times_x(times_x_pow(a, (n - 1) as nat))
    }
}

/// The product with the polynomial of the lowest `n` coefficients of `b`.
pub open spec fn product(a: u64, b: u64, n: nat) -> u64
    decreases n,
{
    if n == 0 {
        0
    } else {
        product(a, b, (n - 1) as nat) ^ (if coefficient(b, (n - 1) as nat) {
            times_x_pow(a, (n - 1) as nat)
        } else {
            0
        })
    }
}

/// The element that an integer stands for.
pub open spec fn reduce(a: int) -> u64 {
    (a % 0x100_0000_0000) as u64
}

proof fn lemma_times_x_linear(a: u64, b: u64)
    ensures
        times_x(a ^ b) == times_x(a) ^ times_x(b),
        times_x(a) <= COEFFICIENTS,
        times_x(0) == 0,
{
    assert(times_x(a ^ b) == times_x(a) ^ times_x(b)) by (bit_vector);
    assert(times_x(a) <= COEFFICIENTS) by (bit_vector);
    assert(times_x(0) == 0) by (bit_vector);
}

proof fn lemma_xor_swap(a: u64, b: u64, c: u64, d: u64)
    ensures
        (a ^ b) ^ (c ^ d) == (a ^ c) ^ (b ^ d),
        a ^ 0 == a,
        0u64 ^ a == a,
        a ^ b == b ^ a,
        a ^ a == 0,
        (a ^ b) ^ c == a ^ (b ^ c),
        (a <= COEFFICIENTS && b <= COEFFICIENTS) ==> a ^ b <= COEFFICIENTS,
{
    assert((a ^ b) ^ (c ^ d) == (a ^ c) ^ (b ^ d)) by (bit_vector);
    assert(a ^ 0 == a && 0u64 ^ a == a && a ^ b == b ^ a && a ^ a == 0) by (bit_vector);
    assert((a ^ b) ^ c == a ^ (b ^ c)) by (bit_vector);
    assert((a <= COEFFICIENTS && b <= COEFFICIENTS) ==> a ^ b <= COEFFICIENTS) by (bit_vector);
}

proof fn lemma_times_x_pow_linear(a: u64, b: u64, n: nat)
    ensures
        times_x_pow(a ^ b, n) == times_x_pow(a, n) ^ times_x_pow(b, n),
        times_x_pow(0, n) == 0,
        a <= COEFFICIENTS ==> times_x_pow(a, n) <= COEFFICIENTS,
    decreases n,
{
    if n > 0 {
        let k = (n - 1) as nat;
        lemma_times_x_pow_linear(a, b, k);
        lemma_times_x_linear(times_x_pow(a, k), times_x_pow(b, k));
    }
}

proof fn lemma_times_x_pow_commutes(a: u64, m: nat, n: nat)
    ensures
        times_x_pow(times_x_pow(a, m), n) == times_x_pow(a, m + n),
    decreases n,
{
    if n > 0 {
        lemma_times_x_pow_commutes(a, m, (n - 1) as nat);
    }
}

proof fn lemma_product_closed(a: u64, b: u64, n: nat)
    requires
        a <= COEFFICIENTS,
    ensures
        product(a, b, n) <= COEFFICIENTS,
        product(0, b, n) == 0,
    decreases n,
{
    lemma_xor_swap(0, 0, 0, 0);
    if n > 0 {
        let k = (n - 1) as nat;
        lemma_product_closed(a, b, k);
        lemma_times_x_pow_linear(a, 0, k);
        lemma_xor_swap(product(a, b, k), times_x_pow(a, k), 0, 0);
        lemma_xor_swap(product(a, b, k), 0, 0, 0);
    }
}

/// The product is linear in its first factor.
proof fn lemma_product_linear_left(a: u64, c: u64, b: u64, n: nat)
    ensures
        product(a ^ c, b, n) == product(a, b, n) ^ product(c, b, n),
    decreases n,
{
    lemma_xor_swap(0, 0, 0, 0);
    if n > 0 {
        let k = (n - 1) as nat;
        lemma_product_linear_left(a, c, b, k);
        lemma_times_x_pow_linear(a, c, k);
        if coefficient(b, k) {
            lemma_xor_swap(
                product(a, b, k),
                product(c, b, k),
                times_x_pow(a, k),
                times_x_pow(c, k),
            );
        } else {
            lemma_xor_swap(product(a, b, k), product(c, b, k), 0, 0);
        }
    }
}

/// The product is linear in its second factor.
proof fn lemma_product_linear_right(a: u64, b: u64, c: u64, n: nat)
    requires
        n <= 40,
    ensures
        product(a, b ^ c, n) == product(a, b, n) ^ product(a, c, n),
    decreases n,
{
    lemma_xor_swap(0, 0, 0, 0);
    if n > 0 {
        let k = (n - 1) as nat;
        lemma_product_linear_right(a, b, c, k);
        let t = times_x_pow(a, k);
        let s = k as u64;
        assert(((b ^ c) >> s) & 1 == ((b >> s) & 1) ^ ((c >> s) & 1)) by (bit_vector)
            requires
                s < 64,
        ;
        assert((b >> s) & 1 <= 1 && (c >> s) & 1 <= 1) by (bit_vector);
        let cb = (b >> s) & 1;
        let cc = (c >> s) & 1;
        assert((cb ^ cc == 1) <==> ((cb == 1) != (cc == 1))) by (bit_vector)
            requires
                cb <= 1,
                cc <= 1,
        ;
        let pb = product(a, b, k);
        let pc = product(a, c, k);
        lemma_xor_swap(pb, if cb == 1 { t } else { 0 }, pc, if cc == 1 { t } else { 0 });
        lemma_xor_swap(pb, pc, if cb == 1 { t } else { 0 }, if cc == 1 { t } else { 0 });
        lemma_xor_swap(t, t, 0, 0);
        lemma_xor_swap(t, 0, 0, 0);
    }
}

/// Multiplying the first factor by `x` multiplies the product by `x`.
proof fn lemma_product_times_x_left(a: u64, b: u64, n: nat)
    ensures
        product(times_x(a), b, n) == times_x(product(a, b, n)),
    decreases n,
{
    lemma_times_x_linear(0, 0);
    if n > 0 {
        let k = (n - 1) as nat;
        lemma_product_times_x_left(a, b, k);
        lemma_times_x_pow_commutes(a, 1, k);
        lemma_times_x_pow_commutes(a, k, 1);
        assert(times_x_pow(a, 1) == times_x(a)) by {
            assert(times_x_pow(a, 0) == a);
        }
        assert(times_x_pow(times_x_pow(a, k), 1) == times_x(times_x_pow(a, k))) by {
            assert(times_x_pow(times_x_pow(a, k), 0) == times_x_pow(a, k));
        }
        assert(1 + k == k + 1);
        lemma_times_x_linear(product(a, b, k), times_x_pow(a, k));
        lemma_times_x_linear(product(a, b, k), 0);
    }
}

proof fn lemma_product_times_x_pow_left(a: u64, b: u64, m: nat, n: nat)
    ensures
        product(times_x_pow(a, m), b, n) == times_x_pow(product(a, b, n), m),
    decreases m,
{
    if m > 0 {
        lemma_product_times_x_pow_left(a, b, (m - 1) as nat, n);
        lemma_product_times_x_left(times_x_pow(a, (m - 1) as nat), b, n);
    }
}

/// The powers of `x` below the degree are the powers of two.
proof fn lemma_one_times_x_pow(n: nat)
    requires
        n < 40,
    ensures
        times_x_pow(1, n) == 1u64 << (n as u64),
    decreases n,
{
    if n == 0 {
        assert(1u64 << 0u64 == 1) by (bit_vector);
    } else {
        lemma_one_times_x_pow((n - 1) as nat);
        let s = (n - 1) as u64;
        let t = n as u64;
        assert(times_x(1u64 << s) == 1u64 << t) by (bit_vector)
            requires
                s < 39,
                t == s + 1,
        ;
    }
}

/// The product of one with an element is the element.
proof fn lemma_product_one_prefix(b: u64, n: nat)
    requires
        n <= 40,
    ensures
        product(1, b, n) == b & ((1u64 << (n as u64)) - 1) as u64,
    decreases n,
{
    if n == 0 {
        assert(b & ((1u64 << 0u64) - 1) as u64 == 0) by (bit_vector);
    } else {
        let k = (n - 1) as nat;
        lemma_product_one_prefix(b, k);
        lemma_one_times_x_pow(k);
        let s = k as u64;
        let t = n as u64;
        assert((b & ((1u64 << s) - 1) as u64) ^ (if (b >> s) & 1 == 1 {
            1u64 << s
        } else {
            0
        }) == b & ((1u64 << t) - 1) as u64) by (bit_vector)
            requires
                s < 40,
                t == s + 1,
        ;
    }
}

proof fn lemma_product_one(b: u64)
    requires
        b <= COEFFICIENTS,
    ensures
        product(1, b, 40) == b,
{
    lemma_product_one_prefix(b, 40);
    assert(b & ((1u64 << 40u64) - 1) as u64 == b) by (bit_vector)
        requires
            b <= COEFFICIENTS,
    ;
}

/// `x^40` acts as its reduction, on the polynomials of the first `n`
/// coefficients.
proof fn lemma_reduction_prefix(a: u64, n: nat)
    requires
        n <= 40,
    ensures
        ({
            let p = product(1, a, n);
            times_x_pow(p, 40) == ((p ^ times_x_pow(p, 3)) ^ times_x_pow(p, 4)) ^ times_x_pow(p, 5)
        }),
    decreases n,
{
    lemma_xor_swap(0, 0, 0, 0);
    if n == 0 {
        lemma_times_x_pow_linear(0, 0, 40);
        lemma_times_x_pow_linear(0, 0, 3);
        lemma_times_x_pow_linear(0, 0, 4);
        lemma_times_x_pow_linear(0, 0, 5);
    } else {
        let k = (n - 1) as nat;
        lemma_reduction_prefix(a, k);
        let p = product(1, a, k);
        let t = times_x_pow(1, k);
        if coefficient(a, k) {
            assert(product(1, a, n) == p ^ t);
            lemma_times_x_pow_linear(p, t, 40);
            lemma_times_x_pow_linear(p, t, 3);
            lemma_times_x_pow_linear(p, t, 4);
            lemma_times_x_pow_linear(p, t, 5);
            lemma_reduction_of_power(k);
            let (p3, p4, p5) = (times_x_pow(p, 3), times_x_pow(p, 4), times_x_pow(p, 5));
            let (t3, t4, t5) = (times_x_pow(t, 3), times_x_pow(t, 4), times_x_pow(t, 5));
            assert((((p ^ p3) ^ p4) ^ p5) ^ (((t ^ t3) ^ t4) ^ t5) == (((p ^ t) ^ (p3 ^ t3)) ^ (p4
                ^ t4)) ^ (p5 ^ t5)) by (bit_vector);
        } else {
            lemma_xor_swap(p, 0, 0, 0);
        }
    }
}

/// `x^40` acts as its reduction on a power of `x`.
proof fn lemma_reduction_of_power(k: nat)
    ensures
        ({
            let t = times_x_pow(1, k);
            times_x_pow(t, 40) == ((t ^ times_x_pow(t, 3)) ^ times_x_pow(t, 4)) ^ times_x_pow(t, 5)
        }),
{
    let t = times_x_pow(1, k);
    lemma_times_x_pow_commutes(1, k, 40);
    lemma_times_x_pow_commutes(1, 40, k);
    lemma_times_x_pow_commutes(1, k, 3);
    lemma_times_x_pow_commutes(1, 3, k);
    lemma_times_x_pow_commutes(1, k, 4);
    lemma_times_x_pow_commutes(1, 4, k);
    lemma_times_x_pow_commutes(1, k, 5);
    lemma_times_x_pow_commutes(1, 5, k);
    lemma_one_times_x_pow(3);
    lemma_one_times_x_pow(4);
    lemma_one_times_x_pow(5);
    lemma_one_times_x_pow(39);
    assert(times_x(1u64 << 39u64) == 0x39) by (bit_vector);
    assert(times_x_pow(1, 40) == 0x39);
    assert(0x39u64 == ((1u64 ^ (1u64 << 3u64)) ^ (1u64 << 4u64)) ^ (1u64 << 5u64)) by (bit_vector);
    let (a3, a4, a5) = (times_x_pow(1, 3), times_x_pow(1, 4), times_x_pow(1, 5));
    lemma_times_x_pow_linear((1 ^ a3) ^ a4, a5, k);
    lemma_times_x_pow_linear(1 ^ a3, a4, k);
    lemma_times_x_pow_linear(1, a3, k);
}

/// `x^40` acts as its reduction.
proof fn lemma_reduction(a: u64)
    requires
        a <= COEFFICIENTS,
    ensures
        times_x_pow(a, 40) == ((a ^ times_x_pow(a, 3)) ^ times_x_pow(a, 4)) ^ times_x_pow(a, 5),
{
    lemma_product_one(a);
    lemma_reduction_prefix(a, 40);
}

/// The product with the reduction of `x^40`.
proof fn lemma_product_reduction(a: u64, n: nat)
    requires
        6 <= n <= 40,
    ensures
        product(a, REDUCTION, n) == ((a ^ times_x_pow(a, 3)) ^ times_x_pow(a, 4)) ^ times_x_pow(
            a,
            5,
        ),
    decreases n,
{
    let r = 0x39u64;
    let k = (n - 1) as nat;
    let p = product(a, r, k);
    lemma_xor_swap(p, 0, 0, 0);
    if n > 6 {
        lemma_product_reduction(a, k);
        let s = k as u64;
        assert((r >> s) & 1 != 1) by (bit_vector)
            requires
                r == 0x39,
                6 <= s < 64,
        ;
        assert(!coefficient(r, k));
    } else {
        assert((r >> 0u64) & 1 == 1 && (r >> 1u64) & 1 != 1 && (r >> 2u64) & 1 != 1 && (r >> 3u64)
            & 1 == 1 && (r >> 4u64) & 1 == 1 && (r >> 5u64) & 1 == 1) by (bit_vector)
            requires
                r == 0x39,
        ;
        lemma_xor_swap(a, 0, 0, 0);
        reveal_with_fuel(product, 7);
        assert(product(a, r, 0) == 0);
        assert(times_x_pow(a, 0) == a);
        assert(product(a, r, 1) == a);
        assert(product(a, r, 2) == a);
        assert(product(a, r, 3) == a);
        assert(product(a, r, 4) == a ^ times_x_pow(a, 3));
        assert(product(a, r, 5) == (a ^ times_x_pow(a, 3)) ^ times_x_pow(a, 4));
    }
}

/// Shifting the second factor up multiplies the product by `x`.
proof fn lemma_product_shifted(a: u64, b: u64, n: nat)
    requires
        n <= 39,
    ensures
        product(a, b << 1, n + 1) == times_x(product(a, b, n)),
    decreases n,
{
    lemma_times_x_linear(0, 0);
    lemma_xor_swap(0, 0, 0, 0);
    let c = b << 1;
    if n == 0 {
        assert(((b << 1) >> 0u64) & 1 != 1) by (bit_vector);
        assert(product(a, c, 0) == 0);
        assert(!coefficient(c, 0));
    } else {
        let k = (n - 1) as nat;
        lemma_product_shifted(a, b, k);
        let s = k as u64;
        let t = n as u64;
        assert(((b << 1) >> t) & 1 == (b >> s) & 1) by (bit_vector)
            requires
                t == s + 1,
                t < 64,
        ;
        assert(coefficient(c, n) == coefficient(b, k));
        lemma_times_x_linear(product(a, b, k), times_x_pow(a, k));
        lemma_times_x_linear(product(a, b, k), 0);
    }
}

/// The product sees only the coefficients that it is asked for.
proof fn lemma_product_agree(a: u64, b: u64, c: u64, n: nat)
    requires
        forall|k: nat| k < n ==> coefficient(b, k) == coefficient(c, k),
    ensures
        product(a, b, n) == product(a, c, n),
    decreases n,
{
    if n > 0 {
        lemma_product_agree(a, b, c, (n - 1) as nat);
        assert(coefficient(b, (n - 1) as nat) == coefficient(c, (n - 1) as nat));
    }
}

/// Multiplying the second factor by `x` multiplies the product by `x`.
proof fn lemma_product_times_x_right(a: u64, b: u64)
    requires
        a <= COEFFICIENTS,
        b <= COEFFICIENTS,
    ensures
        product(a, times_x(b), 40) == times_x(product(a, b, 40)),
{
    let c = b & 0x7f_ffff_ffff;
    let p = product(a, b, 39);
    lemma_xor_swap(p, 0, 0, 0);
    assert forall|k: nat| k < 39 implies coefficient(b, k) == coefficient(c, k) by {
        let s = k as u64;
        assert((b >> s) & 1 == ((b & 0x7f_ffff_ffff) >> s) & 1) by (bit_vector)
            requires
                s < 39,
        ;
    }
    lemma_product_agree(a, b, c, 39);
    lemma_product_shifted(a, c, 39);
    if coefficient(b, 39) {
        assert(times_x(b) == ((b & 0x7f_ffff_ffff) << 1) ^ 0x39) by (bit_vector)
            requires
                (b >> 39) & 1 == 1,
                b <= COEFFICIENTS,
        ;
        lemma_product_linear_right(a, c << 1, 0x39, 40);
        lemma_product_reduction(a, 40);
        lemma_reduction(a);
        lemma_times_x_linear(p, times_x_pow(a, 39));
    } else {
        assert(times_x(b) == ((b & 0x7f_ffff_ffff) << 1)) by (bit_vector)
            requires
                (b >> 39) & 1 != 1,
                b <= COEFFICIENTS,
        ;
    }
}

proof fn lemma_product_times_x_pow_right(a: u64, b: u64, m: nat)
    requires
        a <= COEFFICIENTS,
        b <= COEFFICIENTS,
    ensures
        product(a, times_x_pow(b, m), 40) == times_x_pow(product(a, b, 40), m),
    decreases m,
{
    if m > 0 {
        lemma_product_times_x_pow_right(a, b, (m - 1) as nat);
        lemma_times_x_pow_linear(b, 0, (m - 1) as nat);
        lemma_product_times_x_right(a, times_x_pow(b, (m - 1) as nat));
    }
}

proof fn lemma_product_comm_prefix(a: u64, b: u64, n: nat)
    requires
        b <= COEFFICIENTS,
        n <= 40,
    ensures
        product(product(1, a, n), b, 40) == product(b, a, n),
    decreases n,
{
    lemma_product_closed(0, b, 40);
    if n > 0 {
        let k = (n - 1) as nat;
        lemma_product_comm_prefix(a, b, k);
        let p = product(1, a, k);
        lemma_xor_swap(p, 0, 0, 0);
        lemma_xor_swap(product(b, a, k), 0, 0, 0);
        lemma_product_linear_left(p, times_x_pow(1, k), b, 40);
        lemma_product_times_x_pow_left(1, b, k, 40);
        lemma_product_one(b);
    }
}

/// The product is commutative.
proof fn lemma_product_comm(a: u64, b: u64)
    requires
        a <= COEFFICIENTS,
        b <= COEFFICIENTS,
    ensures
        product(a, b, 40) == product(b, a, 40),
{
    lemma_product_one(a);
    lemma_product_comm_prefix(a, b, 40);
}

proof fn lemma_product_zero(a: u64, n: nat)
    requires
        n <= 40,
    ensures
        product(a, 0, n) == 0,
    decreases n,
{
    lemma_xor_swap(0, 0, 0, 0);
    if n > 0 {
        lemma_product_zero(a, (n - 1) as nat);
        let s = (n - 1) as u64;
        assert((0u64 >> s) & 1 != 1) by (bit_vector);
    }
}

proof fn lemma_product_assoc_prefix(a: u64, b: u64, c: u64, n: nat)
    requires
        a <= COEFFICIENTS,
        b <= COEFFICIENTS,
        n <= 40,
    ensures
        product(product(a, b, 40), c, n) == product(a, product(b, c, n), 40),
    decreases n,
{
    if n == 0 {
        lemma_product_zero(a, 40);
    } else {
        let k = (n - 1) as nat;
        lemma_product_assoc_prefix(a, b, c, k);
        let p = product(b, c, k);
        lemma_xor_swap(p, 0, 0, 0);
        lemma_xor_swap(product(product(a, b, 40), c, k), 0, 0, 0);
        lemma_product_times_x_pow_right(a, b, k);
        lemma_product_linear_right(a, p, times_x_pow(b, k), 40);
    }
}

/// The product is associative.
proof fn lemma_product_assoc(a: u64, b: u64, c: u64)
    requires
        a <= COEFFICIENTS,
        b <= COEFFICIENTS,
    ensures
        product(product(a, b, 40), c, 40) == product(a, product(b, c, 40), 40),
{
    lemma_product_assoc_prefix(a, b, c, 40);
}

/// The product with `x` shifts the coefficients up and reduces.
fn shift(a: u64) -> (r: u64)
    ensures
        r == times_x(a),
{
    if (a >> 39) & 1 == 1 {
        ((a << 1) & COEFFICIENTS) ^ REDUCTION
    } else {
        (a << 1) & COEFFICIENTS
    }
}

/// An element of the field.
#[derive(Clone, Copy, Debug, PartialEq, Eq, Structural)]
pub struct F40b {
    coefficients: u64,
}

impl F40b {
    #[verifier::type_invariant]
    closed spec fn inv(self) -> bool {
        self.coefficients <= COEFFICIENTS
    }

    /// The element with the lowest forty binary digits of `n` as coefficients.
    pub fn new(n: u64) -> (r: Self)
        ensures
            r.val() == n as int % 0x100_0000_0000,
    {
        assert(n & 0xff_ffff_ffff == n % 0x100_0000_0000) by (bit_vector);
        F40b { coefficients: n & COEFFICIENTS }
    }

    /// The coefficients as binary digits.
    pub fn value(self) -> (r: u64)
        ensures
            r == self.val(),
    {
        proof {
            use_type_invariant(&self);
        }
        self.coefficients
    }
}

impl FiniteRing for F40b {
    closed spec fn val(self) -> int {
        self.coefficients as int % 0x100_0000_0000
    }

    open spec fn order() -> int {
        0x100_0000_0000
    }

    open spec fn plus(a: int, b: int) -> int {
        (reduce(a) ^ reduce(b)) as int
    }

    open spec fn opposite(a: int) -> int {
        reduce(a) as int
    }

    open spec fn times(a: int, b: int) -> int {
        product(reduce(a), reduce(b), 40) as int
    }

    proof fn law_order() {
    }

    proof fn law_val(self) {
    }

    proof fn law_closed(a: int, b: int) {
        lemma_xor_swap(reduce(a), reduce(b), 0, 0);
        lemma_product_closed(reduce(a), reduce(b), 40);
    }

    proof fn law_plus_comm(a: int, b: int) {
        lemma_xor_swap(reduce(a), reduce(b), 0, 0);
    }

    proof fn law_plus_assoc(a: int, b: int, c: int) {
        lemma_xor_swap(reduce(a), reduce(b), reduce(c), 0);
        lemma_xor_swap(reduce(b), reduce(c), 0, 0);
    }

    proof fn law_plus_zero(a: int) {
        lemma_xor_swap(reduce(a), 0, 0, 0);
    }

    proof fn law_plus_opposite(a: int) {
        lemma_xor_swap(reduce(a), 0, 0, 0);
    }

    proof fn law_times_comm(a: int, b: int) {
        lemma_product_comm(reduce(a), reduce(b));
    }

    proof fn law_times_assoc(a: int, b: int, c: int) {
        lemma_product_closed(reduce(a), reduce(b), 40);
        lemma_product_closed(reduce(b), reduce(c), 40);
        lemma_product_assoc(reduce(a), reduce(b), reduce(c));
    }

    proof fn law_times_one(a: int) {
        lemma_product_one(reduce(a));
        lemma_product_comm(reduce(a), 1);
    }

    proof fn law_distributive(a: int, b: int, c: int) {
        lemma_xor_swap(reduce(b), reduce(c), 0, 0);
        lemma_product_closed(reduce(a), reduce(b), 40);
        lemma_product_closed(reduce(a), reduce(c), 40);
        lemma_product_linear_right(reduce(a), reduce(b), reduce(c), 40);
    }

    fn zero() -> (r: Self) {
        F40b { coefficients: 0 }
    }

    fn one() -> (r: Self) {
        F40b { coefficients: 1 }
    }

    fn add(self, other: Self) -> (r: Self) {
        proof {
            use_type_invariant(&self);
            use_type_invariant(&other);
            lemma_xor_swap(self.coefficients, other.coefficients, 0, 0);
        }
        F40b { coefficients: self.coefficients ^ other.coefficients }
    }

    fn sub(self, other: Self) -> (r: Self) {
        proof {
            use_type_invariant(&self);
            use_type_invariant(&other);
            lemma_xor_swap(self.coefficients, other.coefficients, 0, 0);
        }
        F40b { coefficients: self.coefficients ^ other.coefficients }
    }

    fn neg(self) -> (r: Self) {
        self
    }

    fn mul(self, other: Self) -> (r: Self) {
        proof {
            use_type_invariant(&self);
            use_type_invariant(&other);
        }
        let a: u64 = self.coefficients;
        let b: u64 = other.coefficients;
        let mut sum: u64 = 0;
        let mut multiple: u64 = a;
        let mut i: u64 = 0;
        while i < 40
            invariant
                i <= 40,
                a <= COEFFICIENTS,
                multiple == times_x_pow(a, i as nat),
                sum == product(a, b, i as nat),
            decreases 40 - i,
        {
            proof {
                lemma_xor_swap(sum, 0, 0, 0);
            }
            if (b >> i) & 1 == 1 {
                sum = sum ^ multiple;
            }
            multiple = shift(multiple);
            i = i + 1;
        }
        proof {
            lemma_product_closed(a, b, 40);
        }
        F40b { coefficients: sum }
    }

    fn equals(self, other: Self) -> (r: bool) {
        proof {
            use_type_invariant(&self);
            use_type_invariant(&other);
        }
        self.coefficients == other.coefficients
    }
}

/// Powers of the generator are powers of `x`.
proof fn lemma_generator_power(n: nat)
    ensures
        power::<F40b>(2, n) == times_x_pow(1, n),
    decreases n,
{
    assert(times_x(1) == 2) by (bit_vector);
    if n > 0 {
        let k = (n - 1) as nat;
        lemma_generator_power(k);
        lemma_times_x_pow_linear(1, 0, k);
        let t = times_x_pow(1, k);
        lemma_product_comm(t, 2);
        lemma_product_times_x_left(1, t, 40);
        lemma_product_one(t);
    }
}

/// The generator is a root of `x^40 + x^5 + x^4 + x^3 + 1`, and its lower powers are
/// the elements with one coefficient each.
pub proof fn law_generator(n: nat)
    ensures
        n < 40 ==> power::<F40b>(F40b::generator_val(), n) == pow2(n),
        ({
            let x = F40b::generator_val();
            power::<F40b>(x, 40) == F40b::plus(
                F40b::plus(
                    F40b::plus(power::<F40b>(x, 5), power::<F40b>(x, 4)),
                    power::<F40b>(x, 3),
                ),
                1,
            )
        }),
{
    lemma_generator_power(n);
    if n < 40 {
        lemma_one_times_x_pow(n);
        lemma_u64_pow2_no_overflow(n);
        lemma_u64_shl_is_mul(1, n as u64);
    }
    lemma_generator_power(3);
    lemma_generator_power(4);
    lemma_generator_power(5);
    lemma_generator_power(40);
    lemma_one_times_x_pow(3);
    lemma_one_times_x_pow(4);
    lemma_one_times_x_pow(5);
    lemma_one_times_x_pow(39);
    assert(times_x(1u64 << 39u64) == 0x39) by (bit_vector);
    assert(0x39u64 == (((1u64 << 5u64) ^ (1u64 << 4u64)) ^ (1u64 << 3u64)) ^ 1u64 && 1u64 << 3u64
        == 8 && 1u64 << 4u64 == 16 && 1u64 << 5u64 == 32 && 32u64 ^ 16u64 == 48 && 48u64 ^ 8u64
        == 56 && 56u64 ^ 1u64 == 57) by (bit_vector);
}

/// The bits of a power of the generator: only the one of that power is set.
pub proof fn law_bits_of_power(n: nat, k: int)
    requires
        n < 40,
        0 <= k < 40,
    ensures
        F40b::bits_of(power::<F40b>(F40b::generator_val(), n))[k] == (k == n),
{
    lemma_generator_power(n);
    lemma_one_times_x_pow(n);
    let (s, t) = (n as u64, k as u64);
    assert((1u64 << s) <= 0xff_ffff_ffff && (((1u64 << s) >> t) & 1 == 1 <==> s == t))
        by (bit_vector)
        requires
            s < 40,
            t < 40,
    ;
    assert(reduce(power::<F40b>(2, n)) == 1u64 << s);
}

/// Elements are added coefficient by coefficient.
pub proof fn law_coefficients_of_sum(a: int, b: int, k: int)
    requires
        0 <= k < 40,
    ensures
        F40b::bits_of(F40b::plus(a, b))[k] == (F40b::bits_of(a)[k] != F40b::bits_of(b)[k]),
{
    let (u, v, s) = (reduce(a), reduce(b), k as u64);
    F40b::law_closed(a, b);
    assert(((u ^ v) >> s) & 1 == 1 <==> ((u >> s) & 1 == 1) != ((v >> s) & 1 == 1))
        by (bit_vector)
        requires
            s < 40,
    ;
    assert(reduce(F40b::plus(a, b)) == u ^ v);
}

/// The first `k` coefficients compose to the polynomial that they are the
/// coefficients of.
proof fn lemma_compose(a: u64, bits: Seq<bool>, k: nat)
    requires
        bits.len() == 40,
        forall|i: int| 0 <= i < 40 ==> bits[i] == coefficient(a, i as nat),
        k <= 40,
    ensures
        compose::<F40b>(2, 1, bits, k) == product(1, a, k),
    decreases k,
{
    if k > 0 {
        let j = (k - 1) as nat;
        lemma_compose(a, bits, j);
        lemma_generator_power(j);
        let t = times_x_pow(1, j) as int;
        lemma_times_x_pow_linear(1, 0, j);
        lemma_product_closed(1, a, j);
        lemma_one_times::<F40b>(t);
        lemma_times_zero::<F40b>(t);
        let bit: int = if bits[j as int] {
            1
        } else {
            0
        };
        assert(digit::<F40b>(bits, j as int, 0) == 0);
        assert(power::<F40b>(F40b::plus(1, 1), 0) == 1);
        lemma_one_times::<F40b>(bit);
        lemma_zero_plus::<F40b>(bit);
        assert(digit::<F40b>(bits, j as int, 1) == bit);
        assert(j * 1 == j);
    }
}

impl FiniteField for F40b {
    type PrimeField = F2;

    open spec fn dimension() -> nat {
        40
    }

    open spec fn generator_val() -> int {
        2
    }

    open spec fn bits_of(a: int) -> Seq<bool> {
        Seq::new(40, |i: int| coefficient(reduce(a), i as nat))
    }

    proof fn law_characteristic() {
        assert(F2::order() == 2);
        assert(F2::bit_count() == 1);
        lemma_xor_swap(1, 0, 0, 0);
        assert(cast::<Self>(0) == 0);
        assert(cast::<Self>(1) == 1);
    }

    proof fn law_bits(a: int) {
        if 0 <= a < Self::order() {
            lemma_compose(reduce(a), Self::bits_of(a), 40);
            lemma_product_one(reduce(a));
        }
    }

    fn degree() -> (r: usize) {
        40
    }

    fn prime_bits() -> (r: usize) {
        1
    }

    fn generator() -> (r: Self) {
        F40b { coefficients: 2 }
    }

    fn from_prime(a: F2) -> (r: Self) {
        proof {
            lemma_xor_swap(1, 0, 0, 0);
            assert(cast::<Self>(0) == 0);
            assert(cast::<Self>(1) == 1);
        }
        F40b { coefficients: if a.bit { 1 } else { 0 } }
    }

    fn coordinate_bits(self) -> (r: Vec<bool>) {
        proof {
            use_type_invariant(&self);
        }
        let a: u64 = self.coefficients;
        let mut r: Vec<bool> = Vec::new();
        let mut i: u64 = 0;
        while i < 40
            invariant
                i <= 40,
                r@.len() == i,
                forall|j: int| 0 <= j < i ==> r@[j] == coefficient(a, j as nat),
            decreases 40 - i,
        {
            r.push((a >> i) & 1 == 1);
            i = i + 1;
        }
        assert(r@ =~= Self::bits_of(self.val()));
        r
    }
}

} // verus!
