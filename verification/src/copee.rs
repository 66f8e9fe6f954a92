//! Correlated oblivious products with a fixed element, bit by bit.
//!
//! The receiver holds `delta`, and for each of its bits one of two keyed
//! functions of which the sender holds both. For an input `x` of the sender the
//! two end up with `w` and `w - delta * x`.

use crate::field::{
    cast, compose, digit, field_vals, minus, nat_of_bits, power, FiniteField, FiniteRing, PrimeRing,
};
use crate::homcom::scale;
use crate::ring::{
    embed, lemma_cast_one, lemma_cast_plus, lemma_distributive_minus, lemma_embed, lemma_minus_plus,
    lemma_one_times, lemma_opposite_zero, lemma_plus_minus, lemma_power_closed, lemma_times_zero,
    lemma_zero_plus,
};
use vstd::arithmetic::div_mod::lemma_small_mod;
use vstd::prelude::*;

verus! {

/// The basis of a field over its prime subfield: the powers of its generator.
pub fn generate_powers<FE: FiniteField>() -> (r: Vec<FE>)
    ensures
        r@.len() == FE::dimension(),
        forall|i: int|
            0 <= i < r@.len() ==> (#[trigger] r@[i]).val() == power::<FE>(
                FE::generator_val(),
                i as nat,
            ),
{
    let degree: usize = FE::degree();
    let generator = FE::generator();
    let mut acc = FE::one();
    let mut out: Vec<FE> = Vec::new();
    let mut i: usize = 0;
    while i < degree
        invariant
            i <= degree,
            out@.len() == i,
            generator.val() == FE::generator_val(),
            acc.val() == power::<FE>(FE::generator_val(), i as nat),
            forall|j: int|
                0 <= j < i ==> (#[trigger] out@[j]).val() == power::<FE>(
                    FE::generator_val(),
                    j as nat,
                ),
        decreases degree - i,
    {
        out.push(acc);
        acc = acc.mul(generator);
        i = i + 1;
    }
    out
}

/// The powers of two, one for each bit of an element of the prime subfield.
pub fn generate_twos<FE: FiniteField>() -> (r: Vec<FE>)
    ensures
        r@.len() == FE::PrimeField::bit_count(),
        forall|j: int|
            0 <= j < r@.len() ==> (#[trigger] r@[j]).val() == power::<FE>(
                FE::plus(1, 1),
                j as nat,
            ),
{
    let nbits: usize = FE::prime_bits();
    let two = FE::one().add(FE::one());
    let mut acc = FE::one();
    let mut out: Vec<FE> = Vec::new();
    let mut i: usize = 0;
    while i < nbits
        invariant
            i <= nbits,
            out@.len() == i,
            two.val() == FE::plus(1, 1),
            acc.val() == power::<FE>(FE::plus(1, 1), i as nat),
            forall|j: int|
                0 <= j < i ==> (#[trigger] out@[j]).val() == power::<FE>(
                    FE::plus(1, 1),
                    j as nat,
                ),
        decreases nbits - i,
    {
        out.push(acc);
        acc = acc.mul(two);
        i = i + 1;
    }
    out
}

/// The element of the prime subfield, as an element of `MF`.
pub fn lift_prime_to_field<MF: FiniteField>(value: MF::PrimeField) -> (r: MF)
    ensures
        r.val() == embed::<MF>(value.val()),
{
    let bits = value.bit_decomposition();
    let mut out = MF::zero();
    let mut i: usize = bits.len();
    proof {
        lemma_cast_one::<MF>();
        assert(bits@.skip(i as int) =~= Seq::empty());
    }
    while i > 0
        invariant
            i <= bits.len(),
            out.val() == cast::<MF>(nat_of_bits(bits@.skip(i as int))),
        decreases i,
    {
        i = i - 1;
        proof {
            let rest = bits@.skip(i as int);
            assert(rest.skip(1) =~= bits@.skip(i as int + 1));
            let n = nat_of_bits(rest.skip(1));
            lemma_cast_plus::<MF>(n, n);
            lemma_cast_plus::<MF>(n + n, 1);
            lemma_cast_one::<MF>();
            assert(2 * n == n + n);
        }
        out = out.add(out);
        if bits[i] {
            out = out.add(MF::one());
        }
    }
    proof {
        assert(bits@.skip(0) =~= bits@);
        value.law_val();
        lemma_small_mod(value.val() as nat, MF::PrimeField::order() as nat);
    }
    out
}

/// Elements of the prime subfield, from `start` on, weighted by powers of two.
pub open spec fn row_weight<F: FiniteField>(vals: Seq<int>, start: int, n: nat) -> int
    decreases n,
{
    if n == 0 {
        0
    } else {
        F::plus(
            row_weight::<F>(vals, start, (n - 1) as nat),
            F::times(
                embed::<F>(vals[start + n - 1]),
                power::<F>(F::plus(1, 1), (n - 1) as nat),
            ),
        )
    }
}

/// Groups of `width` elements weighted by powers of two, weighted by the powers
/// of the generator.
pub open spec fn weight<F: FiniteField>(vals: Seq<int>, width: nat, k: nat) -> int
    decreases k,
{
    if k == 0 {
        0
    } else {
        F::plus(
            weight::<F>(vals, width, (k - 1) as nat),
            F::times(
                row_weight::<F>(vals, (k - 1) * width, width),
                power::<F>(F::generator_val(), (k - 1) as nat),
            ),
        )
    }
}

/// The weight of one value for each bit of an element of `F`.
pub open spec fn full_weight<F: FiniteField>(vals: Seq<int>) -> int {
    weight::<F>(vals, F::PrimeField::bit_count(), F::dimension())
}

/// How many bits an element has.
pub open spec fn bit_total<F: FiniteField>() -> nat {
    F::dimension() * F::PrimeField::bit_count()
}

/// The weight of one value for each bit.
fn weigh<FE: FiniteField>(powers: &Vec<FE>, twos: &Vec<FE>, vals: &Vec<FE::PrimeField>) -> (r: FE)
    requires
        powers@.len() == FE::dimension(),
        twos@.len() == FE::PrimeField::bit_count(),
        vals@.len() == bit_total::<FE>(),
        forall|i: int|
            0 <= i < powers@.len() ==> (#[trigger] powers@[i]).val() == power::<FE>(
                FE::generator_val(),
                i as nat,
            ),
        forall|j: int|
            0 <= j < twos@.len() ==> (#[trigger] twos@[j]).val() == power::<FE>(
                FE::plus(1, 1),
                j as nat,
            ),
    ensures
        r.val() == full_weight::<FE>(field_vals(vals@)),
{
    let nbits: usize = twos.len();
    let total: usize = vals.len();
    let ghost all = field_vals(vals@);
    let mut out = FE::zero();
    let mut start: usize = 0;
    let mut i: usize = 0;
    while i < powers.len()
        invariant
            i <= powers.len(),
            start == i * nbits,
            nbits == twos@.len(),
            total == vals@.len(),
            total == powers@.len() * nbits,
            all == field_vals(vals@),
            forall|k: int|
                0 <= k < powers@.len() ==> (#[trigger] powers@[k]).val() == power::<FE>(
                    FE::generator_val(),
                    k as nat,
                ),
            forall|j: int|
                0 <= j < twos@.len() ==> (#[trigger] twos@[j]).val() == power::<FE>(
                    FE::plus(1, 1),
                    j as nat,
                ),
            out.val() == weight::<FE>(all, nbits as nat, i as nat),
        decreases powers.len() - i,
    {
        assert((i + 1) * nbits == start + nbits && start + nbits <= total) by (nonlinear_arith)
            requires
                start == i * nbits,
                total == powers@.len() * nbits,
                i + 1 <= powers@.len(),
        ;
        let mut sum = FE::zero();
        let mut j: usize = 0;
        while j < nbits
            invariant
                j <= nbits,
                nbits == twos@.len(),
                start + nbits <= total,
                total == vals@.len(),
                all == field_vals(vals@),
                forall|k: int|
                    0 <= k < twos@.len() ==> (#[trigger] twos@[k]).val() == power::<FE>(
                        FE::plus(1, 1),
                        k as nat,
                    ),
                sum.val() == row_weight::<FE>(all, start as int, j as nat),
            decreases nbits - j,
        {
            sum = sum.add(scale(vals[start + j], twos[j]));
            j = j + 1;
        }
        out = out.add(sum.mul(powers[i]));
        start = start + nbits;
        i = i + 1;
    }
    out
}

/// The sender's side.
pub struct SpdzCopeeSender<FE: FiniteField> {
    powers: Vec<FE>,
    twos: Vec<FE>,
    counter: u64,
}

/// What the sender sends for an input `x`: for each bit of `delta` the
/// difference of the two functions, less `x`.
pub open spec fn corrections<F: FiniteField>(w0: Seq<int>, w1: Seq<int>, x: int) -> Seq<int> {
    Seq::new(
        w0.len(),
        |k: int| minus::<F::PrimeField>(minus::<F::PrimeField>(w0[k], w1[k]), x),
    )
}

impl<FE: FiniteField> SpdzCopeeSender<FE> {
    #[verifier::type_invariant]
    closed spec fn inv(&self) -> bool {
        &&& self.powers@.len() == FE::dimension()
        &&& self.twos@.len() == FE::PrimeField::bit_count()
        &&& forall|i: int|
            0 <= i < self.powers@.len() ==> (#[trigger] self.powers@[i]).val() == power::<FE>(
                FE::generator_val(),
                i as nat,
            )
        &&& forall|j: int|
            0 <= j < self.twos@.len() ==> (#[trigger] self.twos@[j]).val() == power::<FE>(
                FE::plus(1, 1),
                j as nat,
            )
    }

    /// How many inputs have been sent.
    pub closed spec fn counter(&self) -> u64 {
        self.counter
    }

    /// The sender's side before the first input.
    pub fn init() -> (r: Self)
        ensures
            r.counter() == 0,
    {
        SpdzCopeeSender { powers: generate_powers(), twos: generate_twos(), counter: 0 }
    }

    /// The block on which both functions are evaluated for the next input.
    pub fn block(&self) -> (r: u128)
        ensures
            r == self.counter(),
    {
        self.counter as u128
    }

    /// Sends an input, from the values of both functions for each bit of the
    /// receiver's element: what is sent, and what the sender keeps.
    pub fn send(
        &mut self,
        w0: &Vec<FE::PrimeField>,
        w1: &Vec<FE::PrimeField>,
        input: FE::PrimeField,
    ) -> (r: (Vec<FE::PrimeField>, FE))
        requires
            w0@.len() == bit_total::<FE>(),
            w1@.len() == bit_total::<FE>(),
            old(self).counter() < u64::MAX,
        ensures
            field_vals(r.0@) == corrections::<FE>(
                field_vals(w0@),
                field_vals(w1@),
                input.val(),
            ),
            r.0@.len() == w0@.len(),
            forall|k: int|
                0 <= k < r.0@.len() ==> (#[trigger] r.0@[k]).val() == minus::<FE::PrimeField>(
                    minus::<FE::PrimeField>(w0@[k].val(), w1@[k].val()),
                    input.val(),
                ),
            r.1.val() == full_weight::<FE>(field_vals(w0@)),
            final(self).counter() == old(self).counter() + 1,
    {
        proof {
            use_type_invariant(&*self);
        }
        let w = weigh(&self.powers, &self.twos, w0);
        let mut sent: Vec<FE::PrimeField> = Vec::new();
        let mut k: usize = 0;
        while k < w0.len()
            invariant
                k <= w0.len(),
                w0@.len() == w1@.len(),
                sent@.len() == k,
                forall|i: int|
                    0 <= i < k ==> (#[trigger] sent@[i]).val() == minus::<FE::PrimeField>(
                        minus::<FE::PrimeField>(w0@[i].val(), w1@[i].val()),
                        input.val(),
                    ),
            decreases w0.len() - k,
        {
            sent.push(w0[k].sub(w1[k]).sub(input));
            k = k + 1;
        }
        assert(field_vals(sent@) =~= corrections::<FE>(
            field_vals(w0@),
            field_vals(w1@),
            input.val(),
        ));
        self.counter = self.counter + 1;
        (sent, w)
    }
}

/// The receiver's side.
pub struct SpdzCopeeReceiver<FE: FiniteField> {
    choices: Vec<bool>,
    powers: Vec<FE>,
    twos: Vec<FE>,
    counter: u64,
}

/// The values that the receiver weighs: its function for each bit, corrected
/// where the bit is set.
pub open spec fn selected<F: FiniteField>(bits: Seq<bool>, w: Seq<int>, tau: Seq<int>) -> Seq<int> {
    Seq::new(
        w.len(),
        |k: int|
            if bits[k] {
                F::PrimeField::plus(tau[k], w[k])
            } else {
                w[k]
            },
    )
}

impl<FE: FiniteField> SpdzCopeeReceiver<FE> {
    #[verifier::type_invariant]
    closed spec fn inv(&self) -> bool {
        &&& self.choices@.len() == bit_total::<FE>()
        &&& self.powers@.len() == FE::dimension()
        &&& self.twos@.len() == FE::PrimeField::bit_count()
        &&& forall|i: int|
            0 <= i < self.powers@.len() ==> (#[trigger] self.powers@[i]).val() == power::<FE>(
                FE::generator_val(),
                i as nat,
            )
        &&& forall|j: int|
            0 <= j < self.twos@.len() ==> (#[trigger] self.twos@[j]).val() == power::<FE>(
                FE::plus(1, 1),
                j as nat,
            )
    }

    /// How many inputs have been received.
    pub closed spec fn counter(&self) -> u64 {
        self.counter
    }

    /// The bits of the receiver's element.
    pub closed spec fn bits(&self) -> Seq<bool> {
        self.choices@
    }

    /// The receiver's side with its element, before the first input.
    pub fn init_with_delta(delta: FE) -> (r: Self)
        ensures
            r.bits() == FE::bits_of(delta.val()),
            r.counter() == 0,
    {
        proof {
            delta.law_val();
            FE::law_bits(delta.val());
        }
        SpdzCopeeReceiver {
            choices: delta.coordinate_bits(),
            powers: generate_powers(),
            twos: generate_twos(),
            counter: 0,
        }
    }

    /// The bits of the element, which choose the functions.
    pub fn choices(&self) -> (r: &Vec<bool>)
        ensures
            r@ == self.bits(),
    {
        &self.choices
    }

    /// The block on which the functions are evaluated for the next input.
    pub fn block(&self) -> (r: u128)
        ensures
            r == self.counter(),
    {
        self.counter as u128
    }

    /// Receives an input, from the values of the chosen functions and what was
    /// sent for each bit.
    pub fn receive(&mut self, w: &Vec<FE::PrimeField>, sent: &Vec<FE::PrimeField>) -> (r: FE)
        requires
            w@.len() == bit_total::<FE>(),
            sent@.len() == bit_total::<FE>(),
            old(self).counter() < u64::MAX,
        ensures
            r.val() == full_weight::<FE>(
                selected::<FE>(
                    old(self).bits(),
                    field_vals(w@),
                    field_vals(sent@),
                ),
            ),
            final(self).counter() == old(self).counter() + 1,
            final(self).bits() == old(self).bits(),
    {
        proof {
            use_type_invariant(&*self);
        }
        let mut vals: Vec<FE::PrimeField> = Vec::new();
        let choices = &self.choices;
        let mut k: usize = 0;
        while k < w.len()
            invariant
                k <= w.len(),
                w@.len() == sent@.len(),
                w@.len() == choices@.len(),
                vals@.len() == k,
                forall|i: int|
                    0 <= i < k ==> (#[trigger] vals@[i]).val() == (if choices@[i] {
                        FE::PrimeField::plus(sent@[i].val(), w@[i].val())
                    } else {
                        w@[i].val()
                    }),
            decreases w.len() - k,
        {
            let tau = sent[k].add(w[k]);
            vals.push(FE::PrimeField::conditional_select(w[k], tau, choices[k]));
            k = k + 1;
        }
        assert(field_vals(vals@) =~= selected::<FE>(
            self.choices@,
            field_vals(w@),
            field_vals(sent@),
        ));
        let out = weigh(&self.powers, &self.twos, &vals);
        self.counter = self.counter + 1;
        out
    }
}

/// Whether all values are canonical representatives of the prime subfield.
pub open spec fn all_canonical<F: FiniteField>(vals: Seq<int>) -> bool {
    forall|k: int|
        0 <= k < vals.len() ==> 0 <= #[trigger] vals[k] && vals[k] < F::PrimeField::order()
}

/// The values less `x` where a bit is set.
pub open spec fn lowered<F: FiniteField>(bits: Seq<bool>, w: Seq<int>, x: int) -> Seq<int> {
    Seq::new(
        w.len(),
        |k: int|
            if bits[k] {
                minus::<F::PrimeField>(w[k], x)
            } else {
                w[k]
            },
    )
}

proof fn lemma_row_weight<F: FiniteField>(
    bits: Seq<bool>,
    w: Seq<int>,
    x: int,
    start: int,
    n: nat,
)
    requires
        all_canonical::<F>(w),
        0 <= x < F::PrimeField::order(),
        bits.len() == w.len(),
        0 <= start,
        start + n <= w.len(),
    ensures
        row_weight::<F>(lowered::<F>(bits, w, x), start, n) == minus::<F>(
            row_weight::<F>(w, start, n),
            F::times(embed::<F>(x), digit::<F>(bits, start, n)),
        ),
    decreases n,
{
    let ex = embed::<F>(x);
    F::law_order();
    if n == 0 {
        lemma_times_zero::<F>(ex);
        lemma_opposite_zero::<F>();
        lemma_zero_plus::<F>(0);
    } else {
        let j = (n - 1) as nat;
        lemma_row_weight::<F>(bits, w, x, start, j);
        let v = lowered::<F>(bits, w, x);
        let k = start + j;
        let p = power::<F>(F::plus(1, 1), j);
        lemma_power_closed::<F>(F::plus(1, 1), j);
        let b: int = if bits[k] {
            1
        } else {
            0
        };
        let ew = embed::<F>(w[k]);
        assert(0 <= w[k] < F::PrimeField::order());
        F::law_closed(ew, p);
        let term = F::times(ex, F::times(b, p));
        assert(F::times(embed::<F>(v[k]), p) == minus::<F>(F::times(ew, p), term)) by {
            if bits[k] {
                lemma_embed::<F>(x, w[k]);
                F::PrimeField::law_closed(x, 0);
                lemma_embed::<F>(w[k], F::PrimeField::opposite(x));
                lemma_distributive_minus::<F>(p, ew, ex);
                lemma_one_times::<F>(p);
            } else {
                lemma_times_zero::<F>(p);
                lemma_times_zero::<F>(ex);
                lemma_opposite_zero::<F>();
                lemma_zero_plus::<F>(F::times(ew, p));
            }
        }
        let d = digit::<F>(bits, start, j);
        F::law_distributive(ex, d, F::times(b, p));
        lemma_minus_plus::<F>(
            row_weight::<F>(w, start, j),
            F::times(ew, p),
            F::times(ex, d),
            term,
        );
    }
}

proof fn lemma_weight<F: FiniteField>(bits: Seq<bool>, w: Seq<int>, x: int, width: nat, k: nat)
    requires
        all_canonical::<F>(w),
        0 <= x < F::PrimeField::order(),
        bits.len() == w.len(),
        k * width <= w.len(),
    ensures
        weight::<F>(lowered::<F>(bits, w, x), width, k) == minus::<F>(
            weight::<F>(w, width, k),
            F::times(
                embed::<F>(x),
                compose::<F>(F::generator_val(), width, bits, k),
            ),
        ),
    decreases k,
{
    let ex = embed::<F>(x);
    F::law_order();
    if k == 0 {
        lemma_times_zero::<F>(ex);
        lemma_opposite_zero::<F>();
        lemma_zero_plus::<F>(0);
    } else {
        let j = (k - 1) as nat;
        assert(k * width == j * width + width && j * width >= 0) by (nonlinear_arith)
            requires
                k == j + 1,
                j >= 0,
                width >= 0,
        ;
        lemma_weight::<F>(bits, w, x, width, j);
        lemma_row_weight::<F>(bits, w, x, (j * width) as int, width);
        let g = power::<F>(F::generator_val(), j);
        let rw = row_weight::<F>(w, (j * width) as int, width);
        let d = digit::<F>(bits, (j * width) as int, width);
        lemma_distributive_minus::<F>(g, rw, F::times(ex, d));
        F::law_times_assoc(ex, d, g);
        let c = compose::<F>(F::generator_val(), width, bits, j);
        F::law_distributive(ex, c, F::times(d, g));
        lemma_minus_plus::<F>(
            weight::<F>(w, width, j),
            F::times(rw, g),
            F::times(ex, c),
            F::times(ex, F::times(d, g)),
        );
    }
}

proof fn lemma_zero_weight<F: FiniteField>(vals: Seq<int>, width: nat, k: nat)
    requires
        k * width <= vals.len(),
        forall|i: int| 0 <= i < vals.len() ==> #[trigger] vals[i] == 0,
    ensures
        weight::<F>(vals, width, k) == 0,
    decreases k,
{
    F::law_order();
    if k > 0 {
        let j = (k - 1) as nat;
        assert(j * width + width == k * width && 0 <= j * width) by (nonlinear_arith)
            requires
                k == j + 1,
                width >= 0,
        ;
        lemma_zero_weight::<F>(vals, width, j);
        lemma_zero_row::<F>(vals, (j * width) as int, width);
        let p = power::<F>(F::generator_val(), j);
        F::law_times_comm(0, p);
        lemma_times_zero::<F>(p);
        lemma_zero_plus::<F>(0);
    }
}

proof fn lemma_zero_row<F: FiniteField>(vals: Seq<int>, start: int, n: nat)
    requires
        0 <= start,
        start + n <= vals.len(),
        forall|i: int| 0 <= i < vals.len() ==> #[trigger] vals[i] == 0,
    ensures
        row_weight::<F>(vals, start, n) == 0,
    decreases n,
{
    F::law_order();
    if n > 0 {
        let j = (n - 1) as nat;
        lemma_zero_row::<F>(vals, start, j);
        let p = power::<F>(F::plus(1, 1), j);
        assert(vals[start + j] == 0);
        F::PrimeField::law_order();
        lemma_embed::<F>(0, 0);
        F::law_times_comm(0, p);
        lemma_times_zero::<F>(p);
        lemma_zero_plus::<F>(0);
    }
}

/// Zeros weigh nothing. What the sender keeps and what the receiver gets of an
/// input come from the values of the functions alone.
pub proof fn law_zero_weight<F: FiniteField>(vals: Seq<int>)
    requires
        vals.len() == bit_total::<F>(),
        forall|i: int| 0 <= i < vals.len() ==> #[trigger] vals[i] == 0,
    ensures
        full_weight::<F>(vals) == 0,
{
    lemma_zero_weight::<F>(vals, F::PrimeField::bit_count(), F::dimension());
}

/// The receiver ends up with what the sender keeps less `delta` times the input,
/// where for each bit of `delta` the receiver has the second of the two
/// functions if it is set, and the first if it is not.
pub proof fn law_copee<F: FiniteField>(delta: int, w0: Seq<int>, w1: Seq<int>, x: int)
    requires
        0 <= delta < F::order(),
        0 <= x < F::PrimeField::order(),
        w0.len() == bit_total::<F>(),
        w1.len() == bit_total::<F>(),
        all_canonical::<F>(w0),
        all_canonical::<F>(w1),
    ensures
        ({
            let bits = F::bits_of(delta);
            let w = Seq::new(
                w0.len(),
                |k: int|
                    if bits[k] {
                        w1[k]
                    } else {
                        w0[k]
                    },
            );
            full_weight::<F>(selected::<F>(bits, w, corrections::<F>(w0, w1, x))) == minus::<F>(
                full_weight::<F>(w0),
                F::times(delta, embed::<F>(x)),
            )
        }),
{
    let bits = F::bits_of(delta);
    F::law_bits(delta);
    let w = Seq::new(
        w0.len(),
        |k: int|
            if bits[k] {
                w1[k]
            } else {
                w0[k]
            },
    );
    let sent = corrections::<F>(w0, w1, x);
    let chosen = selected::<F>(bits, w, sent);
    assert forall|k: int| 0 <= k < w0.len() implies chosen[k] == lowered::<F>(
        bits,
        w0,
        x,
    )[k] by {
        if bits[k] {
            let (a, b) = (w0[k], w1[k]);
            assert(0 <= w0[k] < F::PrimeField::order());
            assert(0 <= w1[k] < F::PrimeField::order());
            let nx = F::PrimeField::opposite(x);
            let nb = F::PrimeField::opposite(b);
            F::PrimeField::law_plus_assoc(F::PrimeField::plus(a, nb), nx, b);
            F::PrimeField::law_plus_comm(nx, b);
            F::PrimeField::law_plus_assoc(F::PrimeField::plus(a, nb), b, nx);
            lemma_plus_minus::<F::PrimeField>(a, b);
        }
    }
    assert(chosen =~= lowered::<F>(bits, w0, x));
    lemma_weight::<F>(bits, w0, x, F::PrimeField::bit_count(), F::dimension());
    F::law_times_comm(delta, embed::<F>(x));
}

} // verus!
