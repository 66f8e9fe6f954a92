//! Authenticated values of higher degree.
//!
//! The prover holds a polynomial whose leading coefficient is the value, and the
//! verifier its evaluation at the global key. Linear operations act on both.

use crate::field::{minus, power, FiniteField, FiniteRing};
use crate::homcom::{MacProver, MacVerifier};
use crate::ring::{
    embed, lemma_distributive_left, lemma_distributive_minus, lemma_minus_plus, lemma_one_times,
    lemma_opposite_plus, lemma_plus_swap, lemma_power_closed, lemma_times_zero, lemma_zero_plus,
};
use vstd::prelude::*;

verus! {

/// The value of a polynomial, constant coefficient first, at `x`.
pub open spec fn evaluate<F: FiniteRing>(poly: Seq<int>, x: int) -> int
    decreases poly.len(),
{
    if poly.len() == 0 {
        0
    } else {
        F::plus(poly[0], F::times(x, evaluate::<F>(poly.skip(1), x)))
    }
}

/// The coefficients of the sum.
pub open spec fn poly_sum<F: FiniteRing>(p: Seq<int>, q: Seq<int>) -> Seq<int> {
    Seq::new(p.len(), |i: int| F::plus(p[i], q[i]))
}

/// The coefficients of the product with a constant.
pub open spec fn poly_multiple<F: FiniteRing>(c: int, p: Seq<int>) -> Seq<int> {
    Seq::new(p.len(), |i: int| F::times(c, p[i]))
}

/// The coefficients of the difference.
pub open spec fn poly_minus<F: FiniteRing>(p: Seq<int>, q: Seq<int>) -> Seq<int> {
    Seq::new(p.len(), |i: int| minus::<F>(p[i], q[i]))
}

/// The coefficients with a constant added to the leading one.
pub open spec fn poly_shifted<F: FiniteRing>(p: Seq<int>, c: int) -> Seq<int> {
    p.update(p.len() - 1, F::plus(p[p.len() - 1], c))
}

/// The coefficients of a value of degree one, raised to degree `d`.
pub open spec fn poly_raised<F: FiniteRing>(value: int, mac: int, d: nat) -> Seq<int> {
    Seq::new(
        d + 1,
        |i: int|
            if i == d {
                value
            } else if i == d - 1 {
                F::opposite(mac)
            } else {
                0
            },
    )
}

/// The value that a polynomial authenticates.
pub open spec fn leading(p: Seq<int>) -> int {
    p[p.len() - 1]
}

/// A value of degree `D`, as its owner holds it.
pub struct HDMacProver<FE: FiniteField, const D: usize> {
    poly: Vec<FE>,
}

impl<FE: FiniteField, const D: usize> View for HDMacProver<FE, D> {
    type V = Seq<int>;

    closed spec fn view(&self) -> Seq<int> {
        Seq::new(self.poly@.len(), |i: int| self.poly@[i].val())
    }
}

impl<FE: FiniteField, const D: usize> HDMacProver<FE, D> {
    #[verifier::type_invariant]
    closed spec fn inv(&self) -> bool {
        self.poly@.len() == D + 1
    }

    /// A value with the given coefficients.
    pub fn new(poly: Vec<FE>) -> (r: Self)
        requires
            poly@.len() == D + 1,
        ensures
            r@ == Seq::new(poly@.len(), |i: int| poly@[i].val()),
    {
        HDMacProver { poly }
    }

    /// The coefficients, which the proofs are made of.
    pub fn coefficients(&self) -> (r: &Vec<FE>)
        ensures
            r@.len() == D + 1,
            self@ == Seq::new(r@.len(), |i: int| r@[i].val()),
    {
        proof {
            use_type_invariant(self);
        }
        &self.poly
    }

    /// The value itself: the leading coefficient.
    pub fn value(&self) -> (r: FE)
        ensures
            self@.len() == D + 1,
            r.val() == leading(self@),
            r.val() == self@[D as int],
    {
        proof {
            use_type_invariant(self);
        }
        self.poly[D]
    }

    /// The value of degree one, raised to degree `D`.
    pub fn from(a: MacProver<FE>) -> (r: Self)
        requires
            1 <= D < usize::MAX,
        ensures
            r@ == poly_raised::<FE>(embed::<FE>(a.value.val()), a.mac.val(), D as nat),
            r@.len() == D + 1,
            r@[D as int] == embed::<FE>(a.value.val()),
            r@[D - 1] == FE::opposite(a.mac.val()),
            forall|i: int| 0 <= i < D - 1 ==> #[trigger] r@[i] == 0,
    {
        let mut poly: Vec<FE> = Vec::new();
        let mut i: usize = 0;
        while i < D - 1
            invariant
                1 <= D,
                i <= D - 1,
                poly@.len() == i,
                forall|j: int| 0 <= j < i ==> (#[trigger] poly@[j]).val() == 0,
            decreases D - i,
        {
            poly.push(FE::zero());
            i = i + 1;
        }
        poly.push(a.mac.neg());
        poly.push(crate::copee::lift_prime_to_field::<FE>(a.value));
        let r = HDMacProver { poly };
        assert(r@ =~= poly_raised::<FE>(embed::<FE>(a.value.val()), a.mac.val(), D as nat));
        r
    }

    /// The sum of two values.
    pub fn add(&self, other: &Self) -> (r: Self)
        ensures
            self@.len() == D + 1,
            other@.len() == D + 1,
            r@ == poly_sum::<FE>(self@, other@),
            r@.len() == D + 1,
            forall|i: int| 0 <= i <= D ==> #[trigger] r@[i] == FE::plus(self@[i], other@[i]),
    {
        proof {
            use_type_invariant(self);
            use_type_invariant(other);
        }
        let mut poly: Vec<FE> = Vec::new();
        let mut i: usize = 0;
        while i < self.poly.len()
            invariant
                i <= self.poly@.len(),
                self.poly@.len() == D + 1,
                other.poly@.len() == D + 1,
                poly@.len() == i,
                forall|j: int|
                    0 <= j < i ==> (#[trigger] poly@[j]).val() == FE::plus(self@[j], other@[j]),
            decreases self.poly.len() - i,
        {
            poly.push(self.poly[i].add(other.poly[i]));
            i = i + 1;
        }
        let r = HDMacProver { poly };
        assert(r@ =~= poly_sum::<FE>(self@, other@));
        r
    }

    /// The difference of two values.
    pub fn sub(&self, other: &Self) -> (r: Self)
        ensures
            self@.len() == D + 1,
            other@.len() == D + 1,
            r@ == poly_minus::<FE>(self@, other@),
            r@.len() == D + 1,
            forall|i: int| 0 <= i <= D ==> #[trigger] r@[i] == minus::<FE>(self@[i], other@[i]),
    {
        proof {
            use_type_invariant(self);
            use_type_invariant(other);
        }
        let mut poly: Vec<FE> = Vec::new();
        let mut i: usize = 0;
        while i < self.poly.len()
            invariant
                i <= self.poly@.len(),
                self.poly@.len() == D + 1,
                other.poly@.len() == D + 1,
                poly@.len() == i,
                forall|j: int|
                    0 <= j < i ==> (#[trigger] poly@[j]).val() == minus::<FE>(self@[j], other@[j]),
            decreases self.poly.len() - i,
        {
            poly.push(self.poly[i].sub(other.poly[i]));
            i = i + 1;
        }
        let r = HDMacProver { poly };
        assert(r@ =~= poly_minus::<FE>(self@, other@));
        r
    }

    /// The value plus a public constant.
    pub fn add_constant(&self, c: FE) -> (r: Self)
        ensures
            self@.len() == D + 1,
            r@ == poly_shifted::<FE>(self@, c.val()),
            r@.len() == D + 1,
            r@[D as int] == FE::plus(self@[D as int], c.val()),
            forall|i: int| 0 <= i < D ==> #[trigger] r@[i] == self@[i],
    {
        proof {
            use_type_invariant(self);
        }
        let mut poly: Vec<FE> = crate::mpc_conv::copy_vec(&self.poly);
        let last: FE = poly[D].add(c);
        poly.set(D, last);
        let r = HDMacProver { poly };
        assert(r@ =~= poly_shifted::<FE>(self@, c.val()));
        r
    }

    /// The product of the value with a public constant.
    pub fn mul_constant(&self, c: FE) -> (r: Self)
        ensures
            self@.len() == D + 1,
            r@ == poly_multiple::<FE>(c.val(), self@),
            r@.len() == D + 1,
            forall|i: int| 0 <= i <= D ==> #[trigger] r@[i] == FE::times(c.val(), self@[i]),
    {
        proof {
            use_type_invariant(self);
        }
        let mut poly: Vec<FE> = Vec::new();
        let mut i: usize = 0;
        while i < self.poly.len()
            invariant
                i <= self.poly@.len(),
                self.poly@.len() == D + 1,
                poly@.len() == i,
                forall|j: int|
                    0 <= j < i ==> (#[trigger] poly@[j]).val() == FE::times(c.val(), self@[j]),
            decreases self.poly.len() - i,
        {
            poly.push(c.mul(self.poly[i]));
            i = i + 1;
        }
        let r = HDMacProver { poly };
        assert(r@ =~= poly_multiple::<FE>(c.val(), self@));
        r
    }
}

/// What the verifier holds of a value.
pub struct KeyView {
    pub mac: int,
    pub degree: nat,
}

/// The key to a value, with the degree up to which it has been raised.
#[derive(Clone, Copy)]
pub struct HDMacVerifier<FE: FiniteField> {
    pub mac: FE,
    pub qs_degree: usize,
}

impl<FE: FiniteField> View for HDMacVerifier<FE> {
    type V = KeyView;

    open spec fn view(&self) -> KeyView {
        KeyView { mac: self.mac.val(), degree: self.qs_degree as nat }
    }
}

/// The greater of two degrees.
pub open spec fn greater(a: nat, b: nat) -> nat {
    if a >= b {
        a
    } else {
        b
    }
}

/// A key raised to a higher degree.
pub open spec fn raised_mac<F: FiniteRing>(key: KeyView, degree: nat, delta: int) -> int {
    F::times(key.mac, power::<F>(delta, (degree - key.degree) as nat))
}

/// The key to a sum.
pub open spec fn key_sum<F: FiniteRing>(a: KeyView, b: KeyView, delta: int) -> KeyView {
    let d = greater(a.degree, b.degree);
    KeyView {
        mac: F::plus(raised_mac::<F>(a, d, delta), raised_mac::<F>(b, d, delta)),
        degree: d,
    }
}

/// The key to a difference.
pub open spec fn key_minus<F: FiniteRing>(a: KeyView, b: KeyView, delta: int) -> KeyView {
    let d = greater(a.degree, b.degree);
    KeyView {
        mac: minus::<F>(raised_mac::<F>(a, d, delta), raised_mac::<F>(b, d, delta)),
        degree: d,
    }
}

/// The key to the sum with a constant.
pub open spec fn key_shifted<F: FiniteRing>(a: KeyView, c: int, delta: int) -> KeyView {
    KeyView { mac: F::plus(a.mac, F::times(c, power::<F>(delta, a.degree))), degree: a.degree }
}

/// The key to the product with a constant.
pub open spec fn key_multiple<F: FiniteRing>(c: int, a: KeyView) -> KeyView {
    KeyView { mac: F::times(c, a.mac), degree: a.degree }
}

/// `delta` to the power of `n`.
fn power_of<F: FiniteRing>(delta: F, n: usize) -> (r: F)
    ensures
        r.val() == power::<F>(delta.val(), n as nat),
{
    let mut r = F::one();
    let mut i: usize = 0;
    while i < n
        invariant
            i <= n,
            r.val() == power::<F>(delta.val(), i as nat),
        decreases n - i,
    {
        r = r.mul(delta);
        i = i + 1;
    }
    r
}

impl<FE: FiniteField> HDMacVerifier<FE> {
    /// The key to a value of degree one.
    pub fn from(a: MacVerifier<FE>) -> (r: Self)
        ensures
            r@ == (KeyView { mac: FE::opposite(a.mac.val()), degree: 1 }),
    {
        HDMacVerifier { mac: a.mac.neg(), qs_degree: 1 }
    }

    /// The key raised to a higher degree.
    fn raised(&self, degree: usize, delta: FE) -> (r: FE)
        requires
            self.qs_degree <= degree,
        ensures
            r.val() == raised_mac::<FE>(self@, degree as nat, delta.val()),
    {
        self.mac.mul(power_of(delta, degree - self.qs_degree))
    }

    /// The key to a sum.
    pub fn add(&self, delta: FE, other: &Self) -> (r: Self)
        ensures
            r@ == key_sum::<FE>(self@, other@, delta.val()),
            self@.degree >= other@.degree ==> r@.degree == self@.degree && r@.mac == FE::plus(
                self@.mac,
                FE::times(
                    other@.mac,
                    power::<FE>(delta.val(), (self@.degree - other@.degree) as nat),
                ),
            ),
            self@.degree < other@.degree ==> r@.degree == other@.degree && r@.mac == FE::plus(
                FE::times(
                    self@.mac,
                    power::<FE>(delta.val(), (other@.degree - self@.degree) as nat),
                ),
                other@.mac,
            ),
    {
        proof {
            self.mac.law_val();
            other.mac.law_val();
            FE::law_times_one(self@.mac);
            FE::law_times_one(other@.mac);
        }
        let d: usize = if self.qs_degree >= other.qs_degree {
            self.qs_degree
        } else {
            other.qs_degree
        };
        HDMacVerifier { mac: self.raised(d, delta).add(other.raised(d, delta)), qs_degree: d }
    }

    /// The key to a difference.
    pub fn sub(&self, delta: FE, other: &Self) -> (r: Self)
        ensures
            r@ == key_minus::<FE>(self@, other@, delta.val()),
            self@.degree >= other@.degree ==> r@.degree == self@.degree && r@.mac == minus::<FE>(
                self@.mac,
                FE::times(
                    other@.mac,
                    power::<FE>(delta.val(), (self@.degree - other@.degree) as nat),
                ),
            ),
            self@.degree < other@.degree ==> r@.degree == other@.degree && r@.mac == minus::<FE>(
                FE::times(
                    self@.mac,
                    power::<FE>(delta.val(), (other@.degree - self@.degree) as nat),
                ),
                other@.mac,
            ),
    {
        proof {
            self.mac.law_val();
            other.mac.law_val();
            FE::law_times_one(self@.mac);
            FE::law_times_one(other@.mac);
        }
        let d: usize = if self.qs_degree >= other.qs_degree {
            self.qs_degree
        } else {
            other.qs_degree
        };
        HDMacVerifier { mac: self.raised(d, delta).sub(other.raised(d, delta)), qs_degree: d }
    }

    /// The key to the sum with a public constant.
    pub fn add_constant(&self, delta: FE, c: FE) -> (r: Self)
        ensures
            r@ == key_shifted::<FE>(self@, c.val(), delta.val()),
            r@.degree == self@.degree,
            r@.mac == FE::plus(
                self@.mac,
                FE::times(c.val(), power::<FE>(delta.val(), self@.degree)),
            ),
    {
        let r = HDMacVerifier {
            mac: self.mac.add(c.mul(power_of(delta, self.qs_degree))),
            qs_degree: self.qs_degree,
        };
        r
    }

    /// The key to the product with a public constant.
    pub fn mul_constant(&self, c: FE) -> (r: Self)
        ensures
            r@ == key_multiple::<FE>(c.val(), self@),
            r@.degree == self@.degree,
            r@.mac == FE::times(c.val(), self@.mac),
    {
        HDMacVerifier { mac: c.mul(self.mac), qs_degree: self.qs_degree }
    }
}

/// Whether a polynomial and a key belong together: the key, raised to the degree
/// of the polynomial, is the value of the polynomial at `delta`.
pub open spec fn hd_paired<F: FiniteRing>(poly: Seq<int>, key: KeyView, delta: int) -> bool {
    &&& poly.len() > key.degree
    &&& evaluate::<F>(poly, delta) == raised_mac::<F>(key, (poly.len() - 1) as nat, delta)
}

/// Powers multiply by adding their exponents.
pub proof fn lemma_power_add<F: FiniteRing>(a: int, m: nat, n: nat)
    ensures
        F::times(power::<F>(a, m), power::<F>(a, n)) == power::<F>(a, m + n),
    decreases n,
{
    lemma_power_closed::<F>(a, m);
    if n == 0 {
        lemma_one_times::<F>(power::<F>(a, m));
    } else {
        let k = (n - 1) as nat;
        lemma_power_add::<F>(a, m, k);
        F::law_times_assoc(power::<F>(a, m), power::<F>(a, k), a);
        assert(m + n - 1 == m + k);
    }
}

proof fn lemma_evaluate_sum<F: FiniteRing>(p: Seq<int>, q: Seq<int>, x: int)
    requires
        p.len() == q.len(),
    ensures
        evaluate::<F>(poly_sum::<F>(p, q), x) == F::plus(
            evaluate::<F>(p, x),
            evaluate::<F>(q, x),
        ),
    decreases p.len(),
{
    F::law_order();
    if p.len() == 0 {
        lemma_zero_plus::<F>(0);
    } else {
        lemma_evaluate_sum::<F>(p.skip(1), q.skip(1), x);
        assert(poly_sum::<F>(p, q).skip(1) =~= poly_sum::<F>(p.skip(1), q.skip(1)));
        let (a, b) = (evaluate::<F>(p.skip(1), x), evaluate::<F>(q.skip(1), x));
        F::law_distributive(x, a, b);
        lemma_plus_swap::<F>(p[0], q[0], F::times(x, a), F::times(x, b));
    }
}

proof fn lemma_evaluate_multiple<F: FiniteRing>(c: int, p: Seq<int>, x: int)
    ensures
        evaluate::<F>(poly_multiple::<F>(c, p), x) == F::times(c, evaluate::<F>(p, x)),
    decreases p.len(),
{
    if p.len() == 0 {
        lemma_times_zero::<F>(c);
    } else {
        lemma_evaluate_multiple::<F>(c, p.skip(1), x);
        assert(poly_multiple::<F>(c, p).skip(1) =~= poly_multiple::<F>(c, p.skip(1)));
        let a = evaluate::<F>(p.skip(1), x);
        F::law_distributive(c, p[0], F::times(x, a));
        F::law_times_assoc(c, x, a);
        F::law_times_comm(c, x);
        F::law_times_assoc(x, c, a);
    }
}

proof fn lemma_evaluate_minus<F: FiniteRing>(p: Seq<int>, q: Seq<int>, x: int)
    requires
        p.len() == q.len(),
    ensures
        evaluate::<F>(poly_minus::<F>(p, q), x) == minus::<F>(
            evaluate::<F>(p, x),
            evaluate::<F>(q, x),
        ),
    decreases p.len(),
{
    F::law_order();
    if p.len() == 0 {
        F::law_plus_opposite(0);
    } else {
        lemma_evaluate_minus::<F>(p.skip(1), q.skip(1), x);
        assert(poly_minus::<F>(p, q).skip(1) =~= poly_minus::<F>(p.skip(1), q.skip(1)));
        let (a, b) = (evaluate::<F>(p.skip(1), x), evaluate::<F>(q.skip(1), x));
        lemma_distributive_minus::<F>(x, a, b);
        lemma_minus_plus::<F>(p[0], F::times(x, a), q[0], F::times(x, b));
    }
}

proof fn lemma_evaluate_shifted<F: FiniteRing>(p: Seq<int>, c: int, x: int)
    requires
        p.len() > 0,
        0 <= c < F::order(),
    ensures
        evaluate::<F>(poly_shifted::<F>(p, c), x) == F::plus(
            evaluate::<F>(p, x),
            F::times(c, power::<F>(x, (p.len() - 1) as nat)),
        ),
    decreases p.len(),
{
    F::law_order();
    let q = poly_shifted::<F>(p, c);
    if p.len() == 1 {
        assert(p.skip(1) =~= Seq::empty());
        assert(q.skip(1) =~= Seq::empty());
        assert(evaluate::<F>(p.skip(1), x) == 0);
        assert(evaluate::<F>(q.skip(1), x) == 0);
        assert(q[0] == F::plus(p[0], c));
        lemma_times_zero::<F>(x);
        F::law_plus_assoc(p[0], c, 0);
        F::law_plus_comm(c, 0);
        F::law_plus_assoc(p[0], 0, c);
        assert(power::<F>(x, 0) == 1);
        lemma_one_times::<F>(c);
    } else {
        let k = (p.len() - 2) as nat;
        lemma_evaluate_shifted::<F>(p.skip(1), c, x);
        assert(q.skip(1) =~= poly_shifted::<F>(p.skip(1), c));
        let a = evaluate::<F>(p.skip(1), x);
        let w = power::<F>(x, k);
        assert(power::<F>(x, (p.len() - 1) as nat) == F::times(w, x));
        assert(q[0] == p[0]);
        F::law_distributive(x, a, F::times(c, w));
        F::law_times_comm(x, F::times(c, w));
        F::law_times_assoc(c, w, x);
        F::law_plus_assoc(p[0], F::times(x, a), F::times(F::times(c, w), x));
    }
}

proof fn lemma_evaluate_raised<F: FiniteRing>(value: int, mac: int, d: nat, x: int)
    requires
        d >= 1,
        0 <= value < F::order(),
    ensures
        evaluate::<F>(poly_raised::<F>(value, mac, d), x) == F::times(
            F::plus(F::opposite(mac), F::times(x, value)),
            power::<F>(x, (d - 1) as nat),
        ),
    decreases d,
{
    let p = poly_raised::<F>(value, mac, d);
    F::law_order();
    let base = F::plus(F::opposite(mac), F::times(x, value));
    F::law_closed(F::opposite(mac), F::times(x, value));
    if d == 1 {
        let q = p.skip(1);
        assert(q.len() == 1 && q[0] == value);
        assert(q.skip(1) =~= Seq::empty());
        assert(evaluate::<F>(q.skip(1), x) == 0);
        lemma_times_zero::<F>(x);
        lemma_zero_plus::<F>(value);
        assert(evaluate::<F>(q, x) == value);
        assert(power::<F>(x, 0) == 1);
        lemma_one_times::<F>(base);
    } else {
        let k = (d - 1) as nat;
        lemma_evaluate_raised::<F>(value, mac, k, x);
        assert(p.skip(1) =~= poly_raised::<F>(value, mac, k));
        let e = evaluate::<F>(p.skip(1), x);
        F::law_closed(x, e);
        lemma_zero_plus::<F>(F::times(x, e));
        let w = power::<F>(x, (k - 1) as nat);
        F::law_times_comm(x, F::times(base, w));
        F::law_times_assoc(base, w, x);
    }
}

/// A value of degree one is raised to a value of higher degree.
pub proof fn law_hd_raised<FE: FiniteField>(value: int, mac: int, key: int, delta: int, d: nat)
    requires
        d >= 1,
        0 <= value < FE::PrimeField::order(),
        0 <= key < FE::order(),
        mac == FE::plus(FE::times(delta, embed::<FE>(value)), key),
    ensures
        hd_paired::<FE>(
            poly_raised::<FE>(embed::<FE>(value), mac, d),
            (KeyView { mac: FE::opposite(key), degree: 1 }),
            delta,
        ),
        leading(poly_raised::<FE>(embed::<FE>(value), mac, d)) == embed::<FE>(value),
{
    let e = embed::<FE>(value);
    let t = FE::times(delta, e);
    crate::ring::lemma_embed::<FE>(value, value);
    lemma_evaluate_raised::<FE>(e, mac, d, delta);
    lemma_opposite_plus::<FE>(t, key);
    let (nt, nk) = (FE::opposite(t), FE::opposite(key));
    FE::law_plus_comm(nt, nk);
    FE::law_plus_assoc(nk, nt, t);
    FE::law_plus_comm(nt, t);
    FE::law_plus_opposite(t);
    FE::law_closed(key, 0);
    lemma_zero_plus::<FE>(nk);
}

/// Raising a key in two steps is raising it at once.
proof fn lemma_raise_twice<F: FiniteRing>(key: KeyView, d: nat, top: nat, delta: int)
    requires
        key.degree <= d <= top,
    ensures
        F::times(raised_mac::<F>(key, d, delta), power::<F>(delta, (top - d) as nat))
            == raised_mac::<F>(key, top, delta),
{
    let (a, b) = ((d - key.degree) as nat, (top - d) as nat);
    F::law_times_assoc(key.mac, power::<F>(delta, a), power::<F>(delta, b));
    lemma_power_add::<F>(delta, a, b);
    assert(a + b == top - key.degree);
}

/// Sums of values belong to sums of keys.
pub proof fn law_hd_sum<F: FiniteRing>(
    p: Seq<int>,
    q: Seq<int>,
    a: KeyView,
    b: KeyView,
    delta: int,
)
    requires
        p.len() == q.len(),
        hd_paired::<F>(p, a, delta),
        hd_paired::<F>(q, b, delta),
    ensures
        hd_paired::<F>(poly_sum::<F>(p, q), key_sum::<F>(a, b, delta), delta),
        leading(poly_sum::<F>(p, q)) == F::plus(leading(p), leading(q)),
{
    let top = (p.len() - 1) as nat;
    let d = greater(a.degree, b.degree);
    lemma_evaluate_sum::<F>(p, q, delta);
    lemma_raise_twice::<F>(a, d, top, delta);
    lemma_raise_twice::<F>(b, d, top, delta);
    lemma_distributive_left::<F>(
        raised_mac::<F>(a, d, delta),
        raised_mac::<F>(b, d, delta),
        power::<F>(delta, (top - d) as nat),
    );
}

/// Differences of values belong to differences of keys.
pub proof fn law_hd_minus<F: FiniteRing>(
    p: Seq<int>,
    q: Seq<int>,
    a: KeyView,
    b: KeyView,
    delta: int,
)
    requires
        p.len() == q.len(),
        hd_paired::<F>(p, a, delta),
        hd_paired::<F>(q, b, delta),
    ensures
        hd_paired::<F>(poly_minus::<F>(p, q), key_minus::<F>(a, b, delta), delta),
        leading(poly_minus::<F>(p, q)) == minus::<F>(leading(p), leading(q)),
{
    let top = (p.len() - 1) as nat;
    let d = greater(a.degree, b.degree);
    lemma_evaluate_minus::<F>(p, q, delta);
    lemma_raise_twice::<F>(a, d, top, delta);
    lemma_raise_twice::<F>(b, d, top, delta);
    lemma_distributive_minus::<F>(
        power::<F>(delta, (top - d) as nat),
        raised_mac::<F>(a, d, delta),
        raised_mac::<F>(b, d, delta),
    );
}

/// Shifted values belong to shifted keys.
pub proof fn law_hd_shifted<F: FiniteRing>(p: Seq<int>, a: KeyView, c: int, delta: int)
    requires
        hd_paired::<F>(p, a, delta),
        0 <= c < F::order(),
    ensures
        hd_paired::<F>(poly_shifted::<F>(p, c), key_shifted::<F>(a, c, delta), delta),
        leading(poly_shifted::<F>(p, c)) == F::plus(leading(p), c),
{
    let top = (p.len() - 1) as nat;
    let rest = (top - a.degree) as nat;
    lemma_evaluate_shifted::<F>(p, c, delta);
    let (u, v) = (power::<F>(delta, a.degree), power::<F>(delta, rest));
    lemma_distributive_left::<F>(a.mac, F::times(c, u), v);
    F::law_times_assoc(c, u, v);
    lemma_power_add::<F>(delta, a.degree, rest);
    assert(a.degree + rest == top);
}

/// Multiples of values belong to multiples of keys.
pub proof fn law_hd_multiple<F: FiniteRing>(c: int, p: Seq<int>, a: KeyView, delta: int)
    requires
        hd_paired::<F>(p, a, delta),
    ensures
        hd_paired::<F>(poly_multiple::<F>(c, p), key_multiple::<F>(c, a), delta),
        leading(poly_multiple::<F>(c, p)) == F::times(c, leading(p)),
{
    let rest = (p.len() - 1 - a.degree) as nat;
    lemma_evaluate_multiple::<F>(c, p, delta);
    F::law_times_assoc(c, a.mac, power::<F>(delta, rest));
}

} // verus!
