//! Linear operations on values that one party authenticates to another.
//!
//! The prover holds a value and its MAC, the verifier holds the global key
//! `delta` and a local key. The three fit together when
//! `mac == delta * value + key`. Both sides apply the same operation to what
//! they hold, without talking to each other.

use core::marker::PhantomData;
use crate::field::{minus, FiniteField, FiniteRing};
use crate::ring::embed;
use vstd::arithmetic::div_mod::lemma_small_mod;
use vstd::prelude::*;

verus! {

/// A value with its MAC, as its owner holds it.
#[derive(Clone, Copy)]
pub struct MacProver<FE: FiniteField> {
    pub value: FE::PrimeField,
    pub mac: FE,
}

impl<FE: FiniteField> MacProver<FE> {
    /// A value with its MAC.
    pub fn new(value: FE::PrimeField, mac: FE) -> (r: Self)
        ensures
            r.value == value,
            r.mac == mac,
    {
        MacProver { value, mac }
    }

    /// The authenticated value.
    pub fn value(&self) -> (r: FE::PrimeField)
        ensures
            r == self.value,
    {
        self.value
    }

    /// The MAC.
    pub fn mac(&self) -> (r: FE)
        ensures
            r == self.mac,
    {
        self.mac
    }
}

/// The local key to an authenticated value, as the other party holds it.
#[derive(Clone, Copy)]
pub struct MacVerifier<FE: FiniteField> {
    pub mac: FE,
}

impl<FE: FiniteField> MacVerifier<FE> {
    /// A local key.
    pub fn new(mac: FE) -> (r: Self)
        ensures
            r.mac == mac,
    {
        MacVerifier { mac }
    }

    /// The local key.
    pub fn mac(&self) -> (r: FE)
        ensures
            r == self.mac,
    {
        self.mac
    }
}

/// `a` times the value `c` of the prime subfield.
pub fn scale<FE: FiniteField>(c: FE::PrimeField, a: FE) -> (r: FE)
    ensures
        r.val() == FE::times(embed::<FE>(c.val()), a.val()),
{
    proof {
        c.law_val();
        lemma_small_mod(c.val() as nat, FE::PrimeField::order() as nat);
    }
    FE::from_prime(c).mul(a)
}

/// The prover's side of the linear operations.
pub struct FComProver<FE: FiniteField> {
    field: PhantomData<FE>,
}

impl<FE: FiniteField> FComProver<FE> {
    /// The prover's side.
    pub fn new() -> (r: Self) {
        FComProver { field: PhantomData }
    }

    /// The sum of two authenticated values.
    pub fn add(&self, a: MacProver<FE>, b: MacProver<FE>) -> (r: MacProver<FE>)
        ensures
            r.value.val() == FE::PrimeField::plus(a.value.val(), b.value.val()),
            r.mac.val() == FE::plus(a.mac.val(), b.mac.val()),
    {
        MacProver::new(a.value.add(b.value), a.mac.add(b.mac))
    }

    /// The additive inverse of an authenticated value.
    pub fn neg(&self, a: MacProver<FE>) -> (r: MacProver<FE>)
        ensures
            r.value.val() == FE::PrimeField::opposite(a.value.val()),
            r.mac.val() == FE::opposite(a.mac.val()),
    {
        MacProver::new(a.value.neg(), a.mac.neg())
    }

    /// An authenticated value and a public constant added up.
    pub fn affine_add_cst(&self, cst: FE::PrimeField, a: MacProver<FE>) -> (r: MacProver<FE>)
        ensures
            r.value.val() == FE::PrimeField::plus(a.value.val(), cst.val()),
            r.mac == a.mac,
    {
        MacProver::new(a.value.add(cst), a.mac)
    }

    /// The product of an authenticated value and a public constant.
    pub fn affine_mult_cst(&self, cst: FE::PrimeField, a: MacProver<FE>) -> (r: MacProver<FE>)
        ensures
            r.value.val() == FE::PrimeField::times(cst.val(), a.value.val()),
            r.mac.val() == FE::times(embed::<FE>(cst.val()), a.mac.val()),
    {
        MacProver::new(cst.mul(a.value), scale(cst, a.mac))
    }
}

/// The verifier's side of the linear operations, with its global key.
#[derive(Clone, Copy)]
pub struct FComVerifier<FE: FiniteField> {
    pub delta: FE,
}

impl<FE: FiniteField> FComVerifier<FE> {
    /// The verifier's side with the global key `delta`.
    pub fn new(delta: FE) -> (r: Self)
        ensures
            r.delta == delta,
    {
        FComVerifier { delta }
    }

    /// The global key.
    pub fn delta(&self) -> (r: FE)
        ensures
            r == self.delta,
    {
        self.delta
    }

    /// The key to the sum of two authenticated values.
    pub fn add(&self, a: MacVerifier<FE>, b: MacVerifier<FE>) -> (r: MacVerifier<FE>)
        ensures
            r.mac.val() == FE::plus(a.mac.val(), b.mac.val()),
    {
        MacVerifier::new(a.mac.add(b.mac))
    }

    /// The key to the additive inverse of an authenticated value.
    pub fn neg(&self, a: MacVerifier<FE>) -> (r: MacVerifier<FE>)
        ensures
            r.mac.val() == FE::opposite(a.mac.val()),
    {
        MacVerifier::new(a.mac.neg())
    }

    /// The key to the sum of an authenticated value and a public constant.
    pub fn affine_add_cst(&self, cst: FE::PrimeField, a: MacVerifier<FE>) -> (r: MacVerifier<FE>)
        ensures
            r.mac.val() == minus::<FE>(
                a.mac.val(),
                FE::times(embed::<FE>(cst.val()), self.delta.val()),
            ),
    {
        MacVerifier::new(a.mac.sub(scale(cst, self.delta)))
    }

    /// The key to the product of an authenticated value and a public constant.
    pub fn affine_mult_cst(&self, cst: FE::PrimeField, a: MacVerifier<FE>) -> (r: MacVerifier<FE>)
        ensures
            r.mac.val() == FE::times(embed::<FE>(cst.val()), a.mac.val()),
    {
        MacVerifier::new(scale(cst, a.mac))
    }
}

} // verus!
