//! The bytes that elements are sent as.

use crate::f40b::F40b;
use crate::field::{FiniteField, FiniteRing, PrimeRing};
use crate::prime_fields::{F2, F61p};
use vstd::arithmetic::power2::{lemma2_to64, lemma2_to64_rest, lemma_pow2_adds, pow2};
use vstd::prelude::*;

verus! {

/// The number that bytes denote, least significant byte first.
pub open spec fn nat_of_bytes(bytes: Seq<u8>) -> nat
    decreases bytes.len(),
{
    if bytes.len() == 0 {
        0
    } else {
        bytes[0] as nat + 256 * nat_of_bytes(bytes.skip(1))
    }
}

/// The lowest `len` bytes of a number, least significant byte first.
pub open spec fn bytes_of_nat(n: nat, len: nat) -> Seq<u8>
    decreases len,
{
    if len == 0 {
        Seq::empty()
    } else {
        seq![(n % 256) as u8] + bytes_of_nat(n / 256, (len - 1) as nat)
    }
}

/// How many numbers `len` bytes denote.
pub open spec fn byte_range(len: nat) -> nat
    decreases len,
{
    if len == 0 {
        1
    } else {
        256 * byte_range((len - 1) as nat)
    }
}

proof fn lemma_bytes_len(n: nat, len: nat)
    ensures
        bytes_of_nat(n, len).len() == len,
    decreases len,
{
    if len > 0 {
        lemma_bytes_len(n / 256, (len - 1) as nat);
    }
}

proof fn lemma_nat_of_bytes_bound(bytes: Seq<u8>)
    ensures
        nat_of_bytes(bytes) < byte_range(bytes.len()),
    decreases bytes.len(),
{
    if bytes.len() > 0 {
        lemma_nat_of_bytes_bound(bytes.skip(1));
    }
}

proof fn lemma_word_range(len: nat)
    requires
        len <= 8,
    ensures
        byte_range(len) <= 0x1_0000_0000_0000_0000,
        len <= 7 ==> byte_range(len) <= 0x100_0000_0000_0000,
{
    reveal_with_fuel(byte_range, 9);
}

/// A number is what its bytes denote, where they are enough.
pub proof fn law_number_roundtrip(n: nat, len: nat)
    requires
        n < byte_range(len),
    ensures
        bytes_of_nat(n, len).len() == len,
        nat_of_bytes(bytes_of_nat(n, len)) == n,
    decreases len,
{
    lemma_bytes_len(n, len);
    if len > 0 {
        law_number_roundtrip(n / 256, (len - 1) as nat);
        assert(bytes_of_nat(n, len).skip(1) =~= bytes_of_nat(n / 256, (len - 1) as nat));
    }
}

/// Bytes are those of the number that they denote.
pub proof fn law_bytes_roundtrip(bytes: Seq<u8>)
    ensures
        bytes_of_nat(nat_of_bytes(bytes), bytes.len()) == bytes,
    decreases bytes.len(),
{
    if bytes.len() > 0 {
        law_bytes_roundtrip(bytes.skip(1));
        let n = nat_of_bytes(bytes);
        assert(n % 256 == bytes[0] && n / 256 == nat_of_bytes(bytes.skip(1)));
        assert(bytes_of_nat(n, bytes.len()) =~= bytes);
    }
}

/// The number that bytes denote: the first byte counts once, and each byte counts
/// two hundred and fifty-six times what the one before it does.
pub proof fn law_byte_order(bytes: Seq<u8>, byte: u8)
    ensures
        nat_of_bytes(Seq::empty()) == 0,
        nat_of_bytes(bytes.push(byte)) == nat_of_bytes(bytes) + byte * pow2(8 * bytes.len()),
    decreases bytes.len(),
{
    lemma2_to64();
    if bytes.len() == 0 {
        assert(bytes.push(byte).skip(1) =~= Seq::empty());
        assert(nat_of_bytes(bytes.push(byte).skip(1)) == 0);
        assert(nat_of_bytes(bytes) == 0);
        assert(pow2(8 * bytes.len()) == 1);
    } else {
        let rest = bytes.skip(1);
        assert(bytes.push(byte).skip(1) =~= rest.push(byte));
        law_byte_order(rest, byte);
        lemma_pow2_adds(8, 8 * rest.len());
        assert(pow2(8) == 256);
        let p = pow2(8 * rest.len());
        assert(256 * (nat_of_bytes(rest) + byte * p) == 256 * nat_of_bytes(rest) + byte * (256
            * p)) by (nonlinear_arith);
    }
}

/// Bytes that are not those of an element.
#[derive(Clone, Copy, Debug, PartialEq, Eq, Structural)]
pub struct FromBytesError;

/// A ring whose elements are sent as the bytes of their representatives.
pub trait CanonicalSerialize: FiniteRing {
    /// How many bytes an element is sent as.
    spec fn byte_count() -> nat;

    /// The bytes are enough for every element, and fit in a machine word.
    proof fn law_byte_count()
        ensures
            1 <= Self::byte_count() <= 8,
            Self::order() <= byte_range(Self::byte_count()),
    ;

    /// How many bytes an element is sent as.
    fn byte_repr_len() -> (r: usize)
        ensures
            r == Self::byte_count(),
    ;

    /// The representative.
    fn to_word(self) -> (r: u64)
        ensures
            r == self.val(),
    ;

    /// The element with the given representative, if there is one.
    fn from_word(n: u64) -> (r: Option<Self>)
        ensures
            r is Some <==> n < Self::order(),
            r matches Some(element) ==> element.val() == n,
    ;
}

impl CanonicalSerialize for F2 {
    open spec fn byte_count() -> nat {
        1
    }

    proof fn law_byte_count() {
        reveal_with_fuel(byte_range, 2);
    }

    fn byte_repr_len() -> (r: usize) {
        1
    }

    fn to_word(self) -> (r: u64) {
        if self.bit {
            1
        } else {
            0
        }
    }

    fn from_word(n: u64) -> (r: Option<Self>) {
        if n < 2 {
            Some(F2::new(n == 1))
        } else {
            None
        }
    }
}

impl CanonicalSerialize for F40b {
    open spec fn byte_count() -> nat {
        5
    }

    proof fn law_byte_count() {
        reveal_with_fuel(byte_range, 6);
    }

    fn byte_repr_len() -> (r: usize) {
        5
    }

    fn to_word(self) -> (r: u64) {
        self.value()
    }

    fn from_word(n: u64) -> (r: Option<Self>) {
        if n < 0x100_0000_0000 {
            Some(F40b::new(n))
        } else {
            None
        }
    }
}

impl CanonicalSerialize for F61p {
    open spec fn byte_count() -> nat {
        8
    }

    proof fn law_byte_count() {
        reveal_with_fuel(byte_range, 9);
    }

    fn byte_repr_len() -> (r: usize) {
        8
    }

    fn to_word(self) -> (r: u64) {
        self.value()
    }

    fn from_word(n: u64) -> (r: Option<Self>) {
        if n < 0x1fff_ffff_ffff_ffff {
            Some(F61p::new(n))
        } else {
            None
        }
    }
}

/// The fields have two, `2^40` and `2^61 - 1` elements, an element has as many bits as
/// it takes, and each field has its generator.
pub proof fn law_field_sizes()
    ensures
        F2::order() == 2,
        F40b::order() == pow2(40),
        F61p::order() == pow2(61) - 1,
        F2::dimension() == 1 && F2::bit_count() == 1,
        F40b::dimension() == 40 && <F40b as FiniteField>::PrimeField::bit_count() == 1,
        F61p::dimension() == 1 && F61p::bit_count() == 61,
        F2::generator_val() == 1 && F40b::generator_val() == 2 && F61p::generator_val() == 37,
{
    lemma2_to64();
    lemma2_to64_rest();
}

/// A bit is sent as one byte, and the elements of the two larger fields as five and
/// as eight.
pub proof fn law_byte_counts()
    ensures
        F2::byte_count() == 1,
        F40b::byte_count() == 5,
        F61p::byte_count() == 8,
{
}

/// The bytes of the representative with the value `a`.
pub open spec fn element_bytes<F: CanonicalSerialize>(a: int) -> Seq<u8> {
    bytes_of_nat(a as nat, F::byte_count())
}

/// The bytes that an element is sent as.
pub fn to_bytes<F: CanonicalSerialize>(element: F) -> (r: Vec<u8>)
    ensures
        r@ == element_bytes::<F>(element.val()),
        r@.len() == F::byte_count(),
{
    let len: usize = F::byte_repr_len();
    let mut rest: u64 = element.to_word();
    let mut out: Vec<u8> = Vec::new();
    let mut i: usize = 0;
    proof {
        element.law_val();
        lemma_bytes_len(element.val() as nat, len as nat);
        assert(out@ + bytes_of_nat(rest as nat, len as nat) =~= bytes_of_nat(
            rest as nat,
            len as nat,
        ));
    }
    while i < len
        invariant
            i <= len,
            out@ + bytes_of_nat(rest as nat, (len - i) as nat) == bytes_of_nat(
                element.val() as nat,
                len as nat,
            ),
        decreases len - i,
    {
        let ghost before = out@;
        let byte: u8 = (rest % 256) as u8;
        out.push(byte);
        proof {
            assert(out@ + bytes_of_nat(rest as nat / 256, (len - i - 1) as nat) =~= before
                + bytes_of_nat(rest as nat, (len - i) as nat));
        }
        rest = rest / 256;
        i = i + 1;
    }
    assert(out@ + bytes_of_nat(rest as nat, 0) =~= out@);
    out
}

/// The element that was sent as `bytes`.
pub fn from_bytes<F: CanonicalSerialize>(bytes: &[u8]) -> (r: Result<F, FromBytesError>)
    requires
        bytes@.len() == F::byte_count(),
    ensures
        r is Ok <==> nat_of_bytes(bytes@) < F::order(),
        r matches Ok(element) ==> element.val() == nat_of_bytes(bytes@),
{
    proof {
        F::law_byte_count();
    }
    let mut n: u64 = 0;
    let mut i: usize = bytes.len();
    while i > 0
        invariant
            i <= bytes@.len() <= 8,
            n == nat_of_bytes(bytes@.skip(i as int)),
        decreases i,
    {
        i = i - 1;
        proof {
            let above = bytes@.skip(i + 1);
            lemma_nat_of_bytes_bound(above);
            lemma_word_range(above.len());
            assert(bytes@.skip(i as int).skip(1) =~= above);
        }
        n = 256 * n + bytes[i] as u64;
    }
    assert(bytes@.skip(0) =~= bytes@);
    match F::from_word(n) {
        Some(element) => Ok(element),
        None => Err(FromBytesError),
    }
}

/// The bytes of an element denote that element, and no other bytes do.
pub proof fn law_element_roundtrip<F: CanonicalSerialize>(element: F, bytes: Seq<u8>)
    requires
        bytes.len() == F::byte_count(),
    ensures
        nat_of_bytes(element_bytes::<F>(element.val())) == element.val(),
        nat_of_bytes(bytes) == element.val() ==> bytes == element_bytes::<F>(element.val()),
{
    element.law_val();
    F::law_byte_count();
    law_number_roundtrip(element.val() as nat, F::byte_count());
    law_bytes_roundtrip(bytes);
}

} // verus!
