//! EdaBits from daBits that are expanded out of a short seed.
//!
//! A peer expands authenticated seed daBits by a local generator, reads the
//! clear bits of its private edaBits off the outputs, shares them with shares of
//! zero for the other peer, and proves that they match the outputs.

use crate::bit_adder::{seq_views, BitAdder};
use crate::bits::{convert_bits_to_field, least, number};
use crate::copee::lift_prime_to_field;
use crate::errors::EdabitsError;
use crate::f40b::F40b;
use crate::field::{
    digit, minus, nat_of_bits, power, FiniteField, FiniteRing, PrimeFiniteField, PrimeRing,
};
use crate::flow::{Flow, FlowView};
use crate::hd_quicksilver::{
    hd_paired, key_minus, key_multiple, key_shifted, key_sum, law_hd_minus, law_hd_multiple,
    law_hd_raised, law_hd_shifted, law_hd_sum, leading, poly_minus, poly_multiple, poly_raised,
    poly_shifted, poly_sum, HDMacProver, HDMacVerifier, KeyView,
};
use crate::homcom::{MacProver, MacVerifier};
use crate::mpc_conv::{
    EdabitsProver, EdabitsVerifier, GlobalEdabit, PrivateEdabit, PrivateEdabitState, SharedEdabit,
};
use crate::mpc_edabits_common::{
    combinable, combination_start, opened_from, shared_views, MpcEdabitsCommon,
};
use crate::mpc_homcom::{PeerFieldMacs, PeerRole};
use crate::prime_fields::F2;
use crate::ring::{
    embed, lemma_cast_modular, lemma_digit, lemma_embed, lemma_minus_zero, lemma_one_times,
    lemma_opposite_opposite, lemma_opposite_plus, lemma_opposite_zero, lemma_times_opposite,
    lemma_times_zero, lemma_zero_plus,
};
use crate::share::AuthenticatedShare;
use vstd::prelude::*;

verus! {

/// A daBit of higher degree, as its owner holds it.
pub struct ExpandedProverDabit<FE: PrimeFiniteField, const D2: usize, const DP: usize> {
    pub bit: HDMacProver<F40b, D2>,
    pub value: HDMacProver<FE, DP>,
}

impl<FE: PrimeFiniteField, const D2: usize, const DP: usize> ExpandedProverDabit<FE, D2, DP> {
    /// Whether the daBit holds one bit in both fields.
    pub open spec fn consistent(&self) -> bool {
        &&& leading(self.bit@) == 0 || leading(self.bit@) == 1
        &&& leading(self.value@) == leading(self.bit@)
    }

    /// The bit.
    pub fn clear_bit(&self) -> (r: F2)
        requires
            self.consistent(),
        ensures
            r.val() == leading(self.bit@),
    {
        if self.bit.value().equals(F40b::zero()) {
            F2::zero()
        } else {
            F2::one()
        }
    }
}

/// The keys to a daBit of higher degree.
#[derive(Clone, Copy)]
pub struct ExpandedVerifierDabit<FE: PrimeFiniteField> {
    pub bit: HDMacVerifier<F40b>,
    pub value: HDMacVerifier<FE>,
}

/// Checkpoint of the pipeline: private edaBits that have not been checked yet,
/// with the daBits they were read off.
pub struct UncheckedPrivateEdabitState<FE: PrimeFiniteField, const D2: usize, const DP: usize> {
    pub state: PrivateEdabitState<FE>,
    pub local_dabits: Vec<ExpandedProverDabit<FE, D2, DP>>,
    pub remote_dabits: Vec<ExpandedVerifierDabit<FE>>,
}

impl<FE: PrimeFiniteField, const D2: usize, const DP: usize> UncheckedPrivateEdabitState<
    FE,
    D2,
    DP,
> {
    /// The private edaBits, where both proofs of the other peer were accepted: the
    /// one over the bits is looked at first.
    pub fn verify_private_edabits(self, bits: bool, field: bool) -> (r: Result<
        PrivateEdabitState<FE>,
        EdabitsError,
    >)
        ensures
            match proof_verdict(bits, field) {
                Ok(_) => r is Ok && r->Ok_0 == self.state,
                Err(error) => r is Err && r->Err_0 == error,
            },
            bits && field ==> r is Ok && r->Ok_0 == self.state,
            !bits ==> r is Err && r->Err_0 == EdabitsError::BitProof,
            bits && !field ==> r is Err && r->Err_0 == EdabitsError::FieldProof,
    {
        match proofs_accepted(bits, field) {
            Ok(_) => Ok(self.state),
            Err(error) => Err(error),
        }
    }
}

/// What the verdicts on two proofs come to: the first one that was not accepted.
pub open spec fn proof_verdict(bits: bool, field: bool) -> Result<(), EdabitsError> {
    if !bits {
        Err(EdabitsError::BitProof)
    } else if !field {
        Err(EdabitsError::FieldProof)
    } else {
        Ok(())
    }
}

/// The first `k` powers of two, and at least the first.
pub fn gen_powers_of_two<FE: FiniteRing>(k: usize) -> (r: Vec<FE>)
    ensures
        r@.len() == (if k == 0 {
            1
        } else {
            k as int
        }),
        forall|i: int|
            0 <= i < r@.len() ==> (#[trigger] r@[i]).val() == power::<FE>(
                FE::plus(1, 1),
                i as nat,
            ),
{
    let two = FE::one().add(FE::one());
    let mut acc = FE::one();
    let mut out: Vec<FE> = Vec::new();
    out.push(acc);
    let mut i: usize = 1;
    assert(power::<FE>(FE::plus(1, 1), 0) == 1);
    while i < k
        invariant
            1 <= i,
            i <= k || i == 1,
            out@.len() == i,
            two.val() == FE::plus(1, 1),
            acc.val() == power::<FE>(FE::plus(1, 1), (i - 1) as nat),
            forall|j: int|
                0 <= j < i ==> (#[trigger] out@[j]).val() == power::<FE>(
                    FE::plus(1, 1),
                    j as nat,
                ),
        decreases k - i,
    {
        acc = acc.mul(two);
        out.push(acc);
        i = i + 1;
    }
    out
}

/// The owner's view of its private edaBits.
pub fn extract_prover_edabits<FE: FiniteField>(private_edabits: &[PrivateEdabit<FE>]) -> (r: Vec<
    EdabitsProver<FE>,
>)
    ensures
        r@.len() == private_edabits@.len(),
        forall|i: int|
            0 <= i < r@.len() ==> {
                let shared = private_edabits@[i].shared;
                &&& (#[trigger] r@[i]).bits@ == Seq::new(
                    shared.bits@.len(),
                    |j: int| shared.bits@[j].local,
                )
                &&& r@[i].value == shared.value.local
            },
{
    let mut out: Vec<EdabitsProver<FE>> = Vec::new();
    let mut i: usize = 0;
    while i < private_edabits.len()
        invariant
            i <= private_edabits.len(),
            out@.len() == i,
            forall|k: int|
                0 <= k < i ==> {
                    let shared = private_edabits@[k].shared;
                    &&& (#[trigger] out@[k]).bits@ == Seq::new(
                        shared.bits@.len(),
                        |j: int| shared.bits@[j].local,
                    )
                    &&& out@[k].value == shared.value.local
                },
        decreases private_edabits.len() - i,
    {
        let shared = &private_edabits[i].shared;
        let bits = crate::mpc_edabits_common::local_batch(shared.bits.as_slice());
        assert(bits@ =~= Seq::new(shared.bits@.len(), |j: int| shared.bits@[j].local));
        out.push(EdabitsProver { bits, value: shared.value.local });
        i = i + 1;
    }
    out
}

/// The keys to the edaBits that the other peer owns.
pub fn extract_verifier_edabits<FE: FiniteField>(peer_private_edabits: &[SharedEdabit<FE>]) -> (r:
    Vec<EdabitsVerifier<FE>>)
    ensures
        r@.len() == peer_private_edabits@.len(),
        forall|i: int|
            0 <= i < r@.len() ==> {
                let shared = peer_private_edabits@[i];
                &&& (#[trigger] r@[i]).bits@ == Seq::new(
                    shared.bits@.len(),
                    |j: int| shared.bits@[j].remote,
                )
                &&& r@[i].value == shared.value.remote
            },
{
    let mut out: Vec<EdabitsVerifier<FE>> = Vec::new();
    let mut i: usize = 0;
    while i < peer_private_edabits.len()
        invariant
            i <= peer_private_edabits.len(),
            out@.len() == i,
            forall|k: int|
                0 <= k < i ==> {
                    let shared = peer_private_edabits@[k];
                    &&& (#[trigger] out@[k]).bits@ == Seq::new(
                        shared.bits@.len(),
                        |j: int| shared.bits@[j].remote,
                    )
                    &&& out@[k].value == shared.value.remote
                },
        decreases peer_private_edabits.len() - i,
    {
        let shared = &peer_private_edabits[i];
        let bits = crate::mpc_edabits_common::remote_batch(shared.bits.as_slice());
        assert(bits@ =~= Seq::new(shared.bits@.len(), |j: int| shared.bits@[j].remote));
        out.push(EdabitsVerifier { bits, value: shared.value.remote });
        i = i + 1;
    }
    out
}

/// The clear edaBits that daBits make up, `bit_size` of them each. DaBits that
/// do not fill an edaBit are left out.
pub fn prover_dabits_to_clear_edabits_generic<
    FE: PrimeFiniteField,
    const D2: usize,
    const DP: usize,
>(dabits: &[ExpandedProverDabit<FE, D2, DP>], bit_size: usize) -> (r: (Vec<Vec<F2>>, Vec<FE>))
    requires
        bit_size > 0,
        forall|j: int| 0 <= j < dabits@.len() ==> (#[trigger] dabits@[j]).consistent(),
    ensures
        r.0@.len() == dabits@.len() / (bit_size as nat),
        r.1@.len() == r.0@.len(),
        forall|i: int|
            0 <= i < r.0@.len() ==> {
                &&& (#[trigger] r.0@[i])@.len() == bit_size
                &&& forall|j: int|
                    0 <= j < bit_size ==> (#[trigger] r.0@[i]@[j]).val() == leading(
                        dabits@[i * bit_size + j].bit@,
                    )
            },
        forall|i: int|
            0 <= i < r.1@.len() ==> (#[trigger] r.1@[i]).val() == number(r.0@[i]@) as int
                % FE::order(),
{
    let num: usize = dabits.len() / bit_size;
    let total: usize = dabits.len();
    assert(num * bit_size <= total) by (nonlinear_arith)
        requires
            num == total / bit_size,
            bit_size > 0,
    ;
    let mut clear_bits: Vec<Vec<F2>> = Vec::new();
    let mut clear_values: Vec<FE> = Vec::new();
    let mut start: usize = 0;
    let mut i: usize = 0;
    while i < num
        invariant
            i <= num,
            start == i * bit_size,
            num * bit_size <= total,
            total == dabits@.len(),
            forall|j: int| 0 <= j < dabits@.len() ==> (#[trigger] dabits@[j]).consistent(),
            clear_bits@.len() == i,
            clear_values@.len() == i,
            forall|k: int|
                0 <= k < i ==> {
                    &&& (#[trigger] clear_bits@[k])@.len() == bit_size
                    &&& forall|j: int|
                        0 <= j < bit_size ==> (#[trigger] clear_bits@[k]@[j]).val() == leading(
                            dabits@[k * bit_size + j].bit@,
                        )
                },
            forall|k: int|
                0 <= k < i ==> (#[trigger] clear_values@[k]).val() == number(clear_bits@[k]@) as int
                    % FE::order(),
        decreases num - i,
    {
        assert((i + 1) * bit_size == start + bit_size && start + bit_size <= total)
            by (nonlinear_arith)
            requires
                start == i * bit_size,
                i + 1 <= num,
                num * bit_size <= total,
        ;
        let mut bits: Vec<F2> = Vec::new();
        let mut j: usize = 0;
        while j < bit_size
            invariant
                j <= bit_size,
                start + bit_size <= total,
                total == dabits@.len(),
                forall|k: int| 0 <= k < dabits@.len() ==> (#[trigger] dabits@[k]).consistent(),
                bits@.len() == j,
                forall|k: int|
                    0 <= k < j ==> (#[trigger] bits@[k]).val() == leading(dabits@[start + k].bit@),
            decreases bit_size - j,
        {
            bits.push(dabits[start + j].clear_bit());
            j = j + 1;
        }
        clear_values.push(convert_bits_to_field::<FE>(bits.as_slice()));
        clear_bits.push(bits);
        start = start + bit_size;
        i = i + 1;
    }
    (clear_bits, clear_values)
}

/// What a source of daBits does next.
#[derive(Clone, Copy, Debug, PartialEq, Eq, Structural)]
pub enum SourceStep {
    /// Seed daBits are generated from scratch.
    FreshSeed,
    /// The next outputs become the new seed.
    Reseed,
    /// The next output is handed out.
    Output,
}

/// The state of a source of daBits.
pub struct SourceView<S, T> {
    /// The seed over the bits.
    pub seed_2: Seq<S>,
    /// The seed over the field.
    pub seed_p: Seq<T>,
    /// How many outputs the generator has left.
    pub remaining: int,
    pub seed_length: int,
    pub output_length: int,
}

impl<S, T> SourceView<S, T> {
    /// A source without a seed.
    pub open spec fn start(seed_length: int, output_length: int) -> Self {
        SourceView {
            seed_2: Seq::empty(),
            seed_p: Seq::empty(),
            remaining: output_length,
            seed_length,
            output_length,
        }
    }

    /// What the source does next.
    pub open spec fn next_step(self) -> SourceStep {
        if self.seed_2.len() == 0 || self.remaining < self.seed_length {
            SourceStep::FreshSeed
        } else if self.remaining <= self.seed_length {
            SourceStep::Reseed
        } else {
            SourceStep::Output
        }
    }

    /// The state after it got a new seed. The generator is started over only where
    /// its own outputs became the seed.
    pub open spec fn after_seed(self, seed_2: Seq<S>, seed_p: Seq<T>) -> Self {
        SourceView {
            seed_2,
            seed_p,
            remaining: if self.next_step() is Reseed {
                self.output_length
            } else {
                self.remaining
            },
            ..self
        }
    }

    /// The state after the generator gave an output.
    pub open spec fn after_output(self) -> Self {
        SourceView { remaining: self.remaining - 1, ..self }
    }

    /// Whether both seeds have the seed length.
    pub open spec fn seeded(self) -> bool {
        self.seed_2.len() == self.seed_length && self.seed_p.len() == self.seed_length
    }

    /// Whether the source always keeps enough outputs to seed itself anew, and has
    /// either no seed yet or seeds of the right length.
    pub open spec fn sustained(self) -> bool {
        &&& 0 < self.seed_length < self.output_length
        &&& self.seed_length <= self.remaining <= self.output_length
        &&& self.seeded() || {
            &&& self.seed_2.len() == 0
            &&& self.seed_p.len() == 0
            &&& self.remaining == self.output_length
        }
    }
}

/// A source of daBits: its seed, and how much of the expanded seed is left. The
/// seed consists of values with their MACs, or of the keys to them.
pub struct DabitSource<S, T> {
    seed_2: Vec<S>,
    seed_p: Vec<T>,
    remaining: usize,
    seed_length: usize,
    output_length: usize,
}

impl<S, T> View for DabitSource<S, T> {
    type V = SourceView<S, T>;

    closed spec fn view(&self) -> SourceView<S, T> {
        SourceView {
            seed_2: self.seed_2@,
            seed_p: self.seed_p@,
            remaining: self.remaining as int,
            seed_length: self.seed_length as int,
            output_length: self.output_length as int,
        }
    }
}

impl<S, T> DabitSource<S, T> {
    #[verifier::type_invariant]
    closed spec fn inv(&self) -> bool {
        self@.sustained()
    }

    /// A source without a seed, whose generator expands `seed_length` daBits to
    /// `output_length`.
    pub fn new(seed_length: usize, output_length: usize) -> (r: Self)
        requires
            0 < seed_length < output_length,
        ensures
            r@ == SourceView::<S, T>::start(seed_length as int, output_length as int),
            r@.sustained(),
            r@.seed_2.len() == 0 && r@.seed_p.len() == 0,
            r@.remaining == output_length,
            r@.seed_length == seed_length && r@.output_length == output_length,
    {
        let seed_2: Vec<S> = Vec::new();
        let seed_p: Vec<T> = Vec::new();
        DabitSource { seed_2, seed_p, remaining: output_length, seed_length, output_length }
    }

    /// The seed over the bits, and the one over the field.
    pub fn seed(&self) -> (r: (&Vec<S>, &Vec<T>))
        ensures
            r.0@ == self@.seed_2,
            r.1@ == self@.seed_p,
    {
        (&self.seed_2, &self.seed_p)
    }

    /// How many daBits a seed has.
    pub fn seed_length(&self) -> (r: usize)
        ensures
            r == self@.seed_length,
    {
        self.seed_length
    }

    /// What the source does next.
    pub fn next_step(&self) -> (r: SourceStep)
        ensures
            r == self@.next_step(),
            self@.sustained(),
            r is FreshSeed <==> self@.seed_2.len() == 0,
            r is Reseed <==> self@.seed_2.len() > 0 && self@.remaining == self@.seed_length,
            r is Output <==> self@.seed_2.len() > 0 && self@.remaining > self@.seed_length,
    {
        proof {
            use_type_invariant(self);
        }
        if self.seed_2.len() == 0 || self.remaining < self.seed_length {
            SourceStep::FreshSeed
        } else if self.remaining <= self.seed_length {
            SourceStep::Reseed
        } else {
            SourceStep::Output
        }
    }

    /// Takes a new seed, which was generated from scratch or made of outputs.
    pub fn gen_seed(&mut self, seed_2: Vec<S>, seed_p: Vec<T>)
        requires
            !(old(self)@.next_step() is Output),
            seed_2@.len() == old(self)@.seed_length,
            seed_p@.len() == old(self)@.seed_length,
        ensures
            final(self)@ == old(self)@.after_seed(seed_2@, seed_p@),
            final(self)@.sustained(),
            final(self)@.seeded(),
            final(self)@.next_step() is Output,
            final(self)@.seed_2 == seed_2@,
            final(self)@.seed_p == seed_p@,
            final(self)@.remaining == old(self)@.output_length,
            final(self)@.seed_length == old(self)@.seed_length,
            final(self)@.output_length == old(self)@.output_length,
    {
        let step = self.next_step();
        let remaining: usize = match step {
            SourceStep::Reseed => self.output_length,
            _ => self.remaining,
        };
        let (seed_length, output_length) = (self.seed_length, self.output_length);
        *self = DabitSource { seed_2, seed_p, remaining, seed_length, output_length };
    }

    /// Records that the generator gave an output.
    pub fn gen_dabit(&mut self)
        requires
            old(self)@.next_step() is Output,
        ensures
            final(self)@ == old(self)@.after_output(),
            final(self)@.sustained(),
            final(self)@.seeded(),
            final(self)@.remaining >= final(self)@.seed_length,
            final(self)@.remaining == old(self)@.remaining - 1,
            final(self)@.seed_2 == old(self)@.seed_2,
            final(self)@.seed_p == old(self)@.seed_p,
            final(self)@.seed_length == old(self)@.seed_length,
            final(self)@.output_length == old(self)@.output_length,
    {
        proof {
            use_type_invariant(&*self);
        }
        self.remaining = self.remaining - 1;
    }
}

/// The state after what a source does next, where `fresh` is the seed that it gets
/// where it needs one.
pub open spec fn source_after<S, T>(s: SourceView<S, T>, fresh: (Seq<S>, Seq<T>)) -> SourceView<
    S,
    T,
> {
    if s.next_step() is Output {
        s.after_output()
    } else {
        s.after_seed(fresh.0, fresh.1)
    }
}

/// The state after steps for which seeds are at hand.
pub open spec fn source_run<S, T>(
    s: SourceView<S, T>,
    fresh: Seq<(Seq<S>, Seq<T>)>,
) -> SourceView<S, T>
    decreases fresh.len(),
{
    if fresh.len() == 0 {
        s
    } else {
        source_after(source_run(s, fresh.drop_last()), fresh.last())
    }
}

/// A source never runs out: it is seeded from scratch once, seeds itself anew
/// while the outputs for that are left, and after at most one such step hands
/// out the next output.
pub proof fn law_source_sustained<S, T>(s: SourceView<S, T>, fresh: (Seq<S>, Seq<T>))
    requires
        s.sustained(),
        fresh.0.len() == s.seed_length,
        fresh.1.len() == s.seed_length,
    ensures
        source_after(s, fresh).sustained(),
        source_after(s, fresh).seeded(),
        s.next_step() is FreshSeed <==> !s.seeded(),
        s.next_step() is Reseed ==> s.remaining == s.seed_length,
        s.next_step() is Output || source_after(s, fresh).next_step() is Output,
{
}

/// What a step of a source changes: a new seed takes the place of the old one and all
/// outputs are ahead again, and an output takes one off those that are left and
/// leaves the seed.
pub proof fn law_source_step<S, T>(s: SourceView<S, T>, fresh: (Seq<S>, Seq<T>))
    requires
        s.sustained(),
        fresh.0.len() == s.seed_length,
        fresh.1.len() == s.seed_length,
    ensures
        ({
            let t = source_after(s, fresh);
            &&& t.seed_length == s.seed_length
            &&& t.output_length == s.output_length
            &&& s.seed_2.len() > 0 && s.remaining > s.seed_length ==> {
                &&& t.seed_2 == s.seed_2
                &&& t.seed_p == s.seed_p
                &&& t.remaining == s.remaining - 1
            }
            &&& s.seed_2.len() == 0 || s.remaining == s.seed_length ==> {
                &&& t.seed_2 == fresh.0
                &&& t.seed_p == fresh.1
                &&& t.remaining == s.output_length
            }
        }),
{
}

/// After any number of steps from the start a source has as many outputs left as
/// a new seed takes, and after the first of them both its seeds have the seed
/// length.
pub proof fn law_source_lengths<S, T>(
    seed_length: int,
    output_length: int,
    fresh: Seq<(Seq<S>, Seq<T>)>,
)
    requires
        0 < seed_length < output_length,
        forall|i: int|
            0 <= i < fresh.len() ==> (#[trigger] fresh[i]).0.len() == seed_length
                && fresh[i].1.len() == seed_length,
    ensures
        ({
            let s = source_run(SourceView::start(seed_length, output_length), fresh);
            &&& s.sustained()
            &&& s.seed_length == seed_length
            &&& s.remaining >= seed_length
            &&& fresh.len() > 0 ==> s.seed_2.len() == seed_length && s.seed_p.len() == seed_length
        }),
    decreases fresh.len(),
{
    if fresh.len() > 0 {
        let before = fresh.drop_last();
        assert forall|i: int| 0 <= i < before.len() implies (#[trigger] before[i]).0.len()
            == seed_length && before[i].1.len() == seed_length by {
            assert(before[i] == fresh[i]);
        }
        law_source_lengths(seed_length, output_length, before);
        assert(fresh.last() == fresh[fresh.len() - 1]);
    }
}

/// The output of the generator, if there was one.
pub fn next_output<T>(output: Option<T>) -> (r: Result<T, EdabitsError>)
    ensures
        r == (match output {
            Some(dabit) => Ok::<T, EdabitsError>(dabit),
            None => Err(EdabitsError::DabitGeneration),
        }),
{
    match output {
        Some(dabit) => Ok(dabit),
        None => Err(EdabitsError::DabitGeneration),
    }
}

/// Whether both proofs of the other peer were accepted: the one over the bits is
/// looked at first.
pub fn proofs_accepted(bits: bool, field: bool) -> (r: Result<(), EdabitsError>)
    ensures
        r == proof_verdict(bits, field),
        r is Ok <==> bits && field,
        !bits ==> r == Err::<(), EdabitsError>(EdabitsError::BitProof),
        bits && !field ==> r == Err::<(), EdabitsError>(EdabitsError::FieldProof),
{
    if !bits {
        return Err(EdabitsError::BitProof);
    }
    if !field {
        return Err(EdabitsError::FieldProof);
    }
    Ok(())
}

/// The values that outputs hold, which become the new seed.
pub fn seed_values<FE: PrimeFiniteField, const D2: usize, const DP: usize>(
    dabits: &[ExpandedProverDabit<FE, D2, DP>],
) -> (r: (Vec<F2>, Vec<FE>))
    requires
        forall|j: int| 0 <= j < dabits@.len() ==> (#[trigger] dabits@[j]).consistent(),
    ensures
        r.0@.len() == dabits@.len(),
        r.1@.len() == dabits@.len(),
        forall|j: int|
            0 <= j < dabits@.len() ==> (#[trigger] r.0@[j]).val() == leading(dabits@[j].bit@),
        forall|j: int|
            0 <= j < dabits@.len() ==> (#[trigger] r.1@[j]).val() == leading(dabits@[j].bit@),
{
    let mut bits: Vec<F2> = Vec::new();
    let mut values: Vec<FE> = Vec::new();
    let mut i: usize = 0;
    while i < dabits.len()
        invariant
            i <= dabits.len(),
            forall|j: int| 0 <= j < dabits@.len() ==> (#[trigger] dabits@[j]).consistent(),
            bits@.len() == i,
            values@.len() == i,
            forall|j: int|
                0 <= j < i ==> (#[trigger] bits@[j]).val() == leading(dabits@[j].bit@),
            forall|j: int|
                0 <= j < i ==> (#[trigger] values@[j]).val() == leading(dabits@[j].bit@),
        decreases dabits.len() - i,
    {
        let bit = dabits[i].clear_bit();
        bits.push(bit);
        values.push(crate::bits::f2_to_fe::<FE>(bit));
        i = i + 1;
    }
    (bits, values)
}

/// Values with the MACs on them.
pub fn assemble_provers<FE: FiniteField>(values: &[FE::PrimeField], macs: &[FE]) -> (r: Vec<
    MacProver<FE>,
>)
    ensures
        r@.len() == least(values@.len() as int, macs@.len() as int),
        forall|i: int|
            0 <= i < r@.len() ==> (#[trigger] r@[i]).value == values@[i] && r@[i].mac == macs@[i],
{
    let mut out: Vec<MacProver<FE>> = Vec::new();
    let mut i: usize = 0;
    while i < values.len() && i < macs.len()
        invariant
            i <= values.len(),
            i <= macs.len(),
            out@.len() == i,
            forall|j: int|
                0 <= j < i ==> (#[trigger] out@[j]).value == values@[j] && out@[j].mac == macs@[j],
        decreases values.len() - i,
    {
        out.push(MacProver::new(values[i], macs[i]));
        i = i + 1;
    }
    out
}

/// The values that must be zero for a new seed to be the outputs it was made of.
pub fn prover_seed_checks<FE: FiniteField, const D: usize>(
    outputs: &[HDMacProver<FE, D>],
    seed: &[MacProver<FE>],
) -> (r: Vec<HDMacProver<FE, D>>)
    requires
        1 <= D < usize::MAX,
        seed@.len() == outputs@.len(),
    ensures
        r@.len() == outputs@.len(),
        forall|i: int|
            0 <= i < r@.len() ==> (#[trigger] r@[i])@ == poly_minus::<FE>(
                outputs@[i]@,
                poly_raised::<FE>(
                    embed::<FE>(seed@[i].value.val()),
                    seed@[i].mac.val(),
                    D as nat,
                ),
            ),
{
    let mut out: Vec<HDMacProver<FE, D>> = Vec::new();
    let mut i: usize = 0;
    while i < outputs.len()
        invariant
            1 <= D < usize::MAX,
            i <= outputs.len(),
            seed@.len() == outputs@.len(),
            out@.len() == i,
            forall|j: int|
                0 <= j < i ==> (#[trigger] out@[j])@ == poly_minus::<FE>(
                    outputs@[j]@,
                    poly_raised::<FE>(
                        embed::<FE>(seed@[j].value.val()),
                        seed@[j].mac.val(),
                        D as nat,
                    ),
                ),
        decreases outputs.len() - i,
    {
        out.push(outputs[i].sub(&HDMacProver::from(seed[i])));
        i = i + 1;
    }
    out
}

/// The keys to the values that must be zero for a new seed to be the outputs it
/// was made of.
pub fn verifier_seed_checks<FE: FiniteField>(
    delta: FE,
    outputs: &[HDMacVerifier<FE>],
    seed: &[MacVerifier<FE>],
) -> (r: Vec<HDMacVerifier<FE>>)
    requires
        seed@.len() == outputs@.len(),
    ensures
        r@.len() == outputs@.len(),
        forall|i: int|
            0 <= i < r@.len() ==> (#[trigger] r@[i])@ == key_minus::<FE>(
                outputs@[i]@,
                (KeyView { mac: FE::opposite(seed@[i].mac.val()), degree: 1 }),
                delta.val(),
            ),
{
    let mut out: Vec<HDMacVerifier<FE>> = Vec::new();
    let mut i: usize = 0;
    while i < outputs.len()
        invariant
            i <= outputs.len(),
            seed@.len() == outputs@.len(),
            out@.len() == i,
            forall|j: int|
                0 <= j < i ==> (#[trigger] out@[j])@ == key_minus::<FE>(
                    outputs@[j]@,
                    (KeyView { mac: FE::opposite(seed@[j].mac.val()), degree: 1 }),
                    delta.val(),
                ),
        decreases outputs.len() - i,
    {
        out.push(outputs[i].sub(delta, &HDMacVerifier::from(seed[i])));
        i = i + 1;
    }
    out
}

/// The check of a seed: what the two peers hold belongs together, and is zero
/// exactly where the seed is the output.
pub proof fn law_seed_check<FE: FiniteField>(
    output: Seq<int>,
    output_key: KeyView,
    value: int,
    mac: int,
    key: int,
    delta: int,
    d: nat,
)
    requires
        d >= 1,
        output.len() == d + 1,
        hd_paired::<FE>(output, output_key, delta),
        0 <= leading(output) < FE::order(),
        0 <= value < FE::PrimeField::order(),
        0 <= key < FE::order(),
        mac == FE::plus(FE::times(delta, embed::<FE>(value)), key),
    ensures
        ({
            let seed = poly_raised::<FE>(embed::<FE>(value), mac, d);
            let check = poly_minus::<FE>(output, seed);
            let check_key = key_minus::<FE>(
                output_key,
                (KeyView { mac: FE::opposite(key), degree: 1 }),
                delta,
            );
            &&& hd_paired::<FE>(check, check_key, delta)
            &&& leading(check) == 0 <==> leading(output) == embed::<FE>(value)
        }),
{
    law_hd_raised::<FE>(value, mac, key, delta, d);
    let seed = poly_raised::<FE>(embed::<FE>(value), mac, d);
    law_hd_minus::<FE>(
        output,
        seed,
        output_key,
        (KeyView { mac: FE::opposite(key), degree: 1 }),
        delta,
    );
    lemma_embed::<FE>(value, value);
    lemma_minus_zero::<FE>(leading(output), embed::<FE>(value));
}

/// The daBit that bit `i` of edaBit `row` uses.
pub open spec fn dabit_index(row: int, i: int, bit_size: int) -> int {
    row * bit_size + i
}

/// The daBits of an edaBit stand one after the other, and those of the next edaBit
/// after them.
pub proof fn law_dabit_order(row: int, i: int, bit_size: int)
    ensures
        dabit_index(0, 0, bit_size) == 0,
        dabit_index(row, i + 1, bit_size) == dabit_index(row, i, bit_size) + 1,
        dabit_index(row + 1, 0, bit_size) == dabit_index(row, bit_size, bit_size),
{
    assert((row + 1) * bit_size == row * bit_size + bit_size) by (nonlinear_arith);
    assert(0 * bit_size == 0);
}

/// No daBit masks two bits, and there is a daBit for each bit.
pub proof fn law_dabits_used_once(
    num: int,
    bit_size: int,
    row: int,
    i: int,
    other_row: int,
    j: int,
)
    requires
        0 <= row < num,
        0 <= other_row < num,
        0 <= i < bit_size,
        0 <= j < bit_size,
    ensures
        0 <= dabit_index(row, i, bit_size) < num * bit_size,
        dabit_index(row, i, bit_size) == dabit_index(other_row, j, bit_size) ==> row == other_row
            && i == j,
{
    assert(0 <= row * bit_size + i < num * bit_size) by (nonlinear_arith)
        requires
            0 <= row,
            row + 1 <= num,
            0 <= i < bit_size,
    ;
    if row * bit_size + i == other_row * bit_size + j {
        assert(row == other_row) by (nonlinear_arith)
            requires
                row * bit_size + i == other_row * bit_size + j,
                0 <= i < bit_size,
                0 <= j < bit_size,
        ;
    }
}

/// Whether a bit and the daBit that masks it differ.
pub open spec fn correction(bit: int, masking: int) -> bool {
    F40b::plus(embed::<F40b>(bit), masking) == 1
}

/// What must be zero for a correction to be right: the daBit, the bit and the
/// correction added up.
pub open spec fn bit_check(dabit: Seq<int>, bit: int, mac: int, c: bool, d: nat) -> Seq<int> {
    poly_shifted::<F40b>(
        poly_sum::<F40b>(dabit, poly_raised::<F40b>(embed::<F40b>(bit), mac, d)),
        if c {
            1
        } else {
            0
        },
    )
}

/// The key to it.
pub open spec fn bit_check_key(dabit: KeyView, key: int, c: bool, delta: int) -> KeyView {
    key_shifted::<F40b>(
        key_sum::<F40b>(dabit, (KeyView { mac: F40b::opposite(key), degree: 1 }), delta),
        if c {
            1
        } else {
            0
        },
        delta,
    )
}

/// The bit in the field, from the daBit and the correction.
pub open spec fn unmasked<FE: FiniteRing>(dabit: Seq<int>, c: bool) -> Seq<int> {
    if c {
        poly_multiple::<FE>(
            FE::opposite(1),
            poly_shifted::<FE>(dabit, FE::opposite(1)),
        )
    } else {
        dabit
    }
}

/// The key to it.
pub open spec fn unmasked_key<FE: FiniteRing>(dabit: KeyView, c: bool, delta: int) -> KeyView {
    if c {
        key_multiple::<FE>(FE::opposite(1), key_shifted::<FE>(dabit, FE::opposite(1), delta))
    } else {
        dabit
    }
}

/// What must be zero for an edaBit to be consistent: its value less its first
/// `n` bits, each times a power of two. The daBits start at `start`.
pub open spec fn value_check<FE: FiniteField>(
    value: int,
    mac: int,
    dabits: Seq<Seq<int>>,
    corrections: Seq<bool>,
    start: int,
    n: nat,
    d: nat,
) -> Seq<int>
    decreases n,
{
    if n == 0 {
        poly_raised::<FE>(embed::<FE>(value), mac, d)
    } else {
        poly_minus::<FE>(
            value_check::<FE>(value, mac, dabits, corrections, start, (n - 1) as nat, d),
            poly_multiple::<FE>(
                power::<FE>(FE::plus(1, 1), (n - 1) as nat),
                unmasked::<FE>(dabits[start + n - 1], corrections[start + n - 1]),
            ),
        )
    }
}

/// The key to it.
pub open spec fn value_check_key<FE: FiniteField>(
    key: int,
    dabits: Seq<KeyView>,
    corrections: Seq<bool>,
    start: int,
    n: nat,
    delta: int,
) -> KeyView
    decreases n,
{
    if n == 0 {
        KeyView { mac: FE::opposite(key), degree: 1 }
    } else {
        key_minus::<FE>(
            value_check_key::<FE>(key, dabits, corrections, start, (n - 1) as nat, delta),
            key_multiple::<FE>(
                power::<FE>(FE::plus(1, 1), (n - 1) as nat),
                unmasked_key::<FE>(dabits[start + n - 1], corrections[start + n - 1], delta),
            ),
            delta,
        )
    }
}

/// The coefficients of the values of daBits.
pub open spec fn dabit_value_views<FE: PrimeFiniteField, const D2: usize, const DP: usize>(
    dabits: Seq<ExpandedProverDabit<FE, D2, DP>>,
) -> Seq<Seq<int>> {
    Seq::new(dabits.len(), |j: int| dabits[j].value@)
}

/// The keys to the values of daBits.
pub open spec fn dabit_value_keys<FE: PrimeFiniteField>(
    dabits: Seq<ExpandedVerifierDabit<FE>>,
) -> Seq<KeyView> {
    Seq::new(dabits.len(), |j: int| dabits[j].value@)
}

/// What is checked of a correction, coefficient by coefficient: the bit and the
/// correction are added to the leading one, the MAC is taken from the one below, and
/// the others are those of the daBit.
pub proof fn law_bit_check_parts(dabit: Seq<int>, bit: int, mac: int, c: bool, d: nat, i: int)
    requires
        d >= 1,
        dabit.len() == d + 1,
        forall|k: int| 0 <= k <= d ==> 0 <= #[trigger] dabit[k] && dabit[k] < F40b::order(),
        0 <= i <= d,
    ensures
        bit_check(dabit, bit, mac, c, d).len() == d + 1,
        i == d ==> bit_check(dabit, bit, mac, c, d)[i] == F40b::plus(
            F40b::plus(dabit[i], embed::<F40b>(bit)),
            if c {
                1
            } else {
                0
            },
        ),
        i == d - 1 ==> bit_check(dabit, bit, mac, c, d)[i] == minus::<F40b>(dabit[i], mac),
        i < d - 1 ==> bit_check(dabit, bit, mac, c, d)[i] == dabit[i],
{
    assert(0 <= dabit[i] < F40b::order());
    F40b::law_plus_zero(dabit[i]);
}

/// The key to what is checked of a correction: that of the daBit less that of the bit,
/// and the correction times the power of `delta` that the leading coefficient has.
pub proof fn law_bit_check_key_parts(dabit: KeyView, key: int, c: bool, delta: int)
    requires
        dabit.degree >= 1,
        0 <= dabit.mac < F40b::order(),
    ensures
        bit_check_key(dabit, key, c, delta).degree == dabit.degree,
        bit_check_key(dabit, key, c, delta).mac == F40b::plus(
            F40b::plus(
                dabit.mac,
                F40b::times(
                    F40b::opposite(key),
                    power::<F40b>(delta, (dabit.degree - 1) as nat),
                ),
            ),
            F40b::times(
                if c {
                    1
                } else {
                    0
                },
                power::<F40b>(delta, dabit.degree),
            ),
        ),
{
    assert(power::<F40b>(delta, 0) == 1);
    F40b::law_times_one(dabit.mac);
}

/// The key to what is checked of an edaBit: one more bit takes off a power of two
/// times the key to the daBit, or to one less the daBit where the correction says that
/// the two differ, both raised to the greater of their degrees.
pub proof fn law_value_check_key_parts<FE: PrimeFiniteField>(
    key: int,
    dabits: Seq<KeyView>,
    corrections: Seq<bool>,
    start: int,
    n: nat,
    delta: int,
)
    ensures
        value_check_key::<FE>(key, dabits, corrections, start, 0, delta) == (KeyView {
            mac: FE::opposite(key),
            degree: 1,
        }),
        ({
            let before = value_check_key::<FE>(key, dabits, corrections, start, n, delta);
            let after = value_check_key::<FE>(key, dabits, corrections, start, n + 1, delta);
            let dabit = dabits[start + n];
            let mac = if corrections[start + n] {
                FE::times(
                    FE::opposite(1),
                    FE::plus(
                        dabit.mac,
                        FE::times(FE::opposite(1), power::<FE>(delta, dabit.degree)),
                    ),
                )
            } else {
                dabit.mac
            };
            let d = if before.degree >= dabit.degree {
                before.degree
            } else {
                dabit.degree
            };
            &&& after.degree == d
            &&& after.mac == minus::<FE>(
                FE::times(before.mac, power::<FE>(delta, (d - before.degree) as nat)),
                FE::times(
                    FE::times(power::<FE>(FE::plus(1, 1), n), mac),
                    power::<FE>(delta, (d - dabit.degree) as nat),
                ),
            )
        }),
{
}

/// What is checked of an edaBit, coefficient by coefficient: one more bit takes off
/// a power of two times the daBit, or times one less the daBit where the correction
/// says that the two differ.
pub proof fn law_value_check_parts<FE: PrimeFiniteField>(
    value: int,
    mac: int,
    dabits: Seq<Seq<int>>,
    corrections: Seq<bool>,
    start: int,
    n: nat,
    d: nat,
    i: int,
)
    requires
        d >= 1,
        0 <= i <= d,
        dabits[start + n].len() == d + 1,
        value_check::<FE>(value, mac, dabits, corrections, start, n, d).len() == d + 1,
    ensures
        value_check::<FE>(value, mac, dabits, corrections, start, 0, d)[i] == (if i == d {
            embed::<FE>(value)
        } else if i == d - 1 {
            FE::opposite(mac)
        } else {
            0
        }),
        ({
            let before = value_check::<FE>(value, mac, dabits, corrections, start, n, d);
            let after = value_check::<FE>(value, mac, dabits, corrections, start, n + 1, d);
            let dabit = dabits[start + n];
            let bit = if !corrections[start + n] {
                dabit[i]
            } else if i == d {
                FE::times(FE::opposite(1), FE::plus(dabit[i], FE::opposite(1)))
            } else {
                FE::times(FE::opposite(1), dabit[i])
            };
            &&& after.len() == d + 1
            &&& after[i] == minus::<FE>(
                before[i],
                FE::times(power::<FE>(FE::plus(1, 1), n), bit),
            )
        }),
{
}

/// The values of daBits and the keys to them are there in the order of the daBits.
pub proof fn law_dabit_values<FE: PrimeFiniteField, const D2: usize, const DP: usize>(
    dabits: Seq<ExpandedProverDabit<FE, D2, DP>>,
    keys: Seq<ExpandedVerifierDabit<FE>>,
)
    ensures
        dabit_value_views(dabits).len() == dabits.len(),
        forall|j: int|
            0 <= j < dabits.len() ==> #[trigger] dabit_value_views(dabits)[j] == dabits[j].value@,
        dabit_value_keys(keys).len() == keys.len(),
        forall|j: int|
            0 <= j < keys.len() ==> #[trigger] dabit_value_keys(keys)[j] == keys[j].value@,
{
}

/// Whether all edaBits have as many bits as the first one, and there is a daBit
/// for each bit.
pub open spec fn prover_tuples_fit<FE: FiniteField>(
    tuples: Seq<EdabitsProver<FE>>,
    num_dabits: int,
) -> bool {
    tuples.len() > 0 ==> {
        &&& num_dabits == tuples.len() * tuples[0].bits@.len()
        &&& forall|t: int|
            0 <= t < tuples.len() ==> (#[trigger] tuples[t]).bits@.len() == tuples[0].bits@.len()
    }
}

/// Whether all edaBits have as many bits as the first one, and there is a daBit
/// for each bit.
pub open spec fn verifier_tuples_fit<FE: FiniteField>(
    tuples: Seq<EdabitsVerifier<FE>>,
    num_dabits: int,
) -> bool {
    tuples.len() > 0 ==> {
        &&& num_dabits == tuples.len() * tuples[0].bits@.len()
        &&& forall|t: int|
            0 <= t < tuples.len() ==> (#[trigger] tuples[t]).bits@.len() == tuples[0].bits@.len()
    }
}

/// The corrections that the owner sends: where each bit differs from its daBit.
pub fn edabit_corrections<FE: PrimeFiniteField, const D2: usize, const DP: usize>(
    tuples: &[EdabitsProver<FE>],
    dabits: &[ExpandedProverDabit<FE, D2, DP>],
) -> (r: Vec<bool>)
    requires
        prover_tuples_fit(tuples@, dabits@.len() as int),
    ensures
        tuples@.len() == 0 ==> r@.len() == 0,
        tuples@.len() > 0 ==> r@.len() == dabits@.len(),
        forall|t: int, i: int|
            0 <= t < tuples@.len() && 0 <= i < tuples@[0].bits@.len()
                ==> #[trigger] r@[dabit_index(t, i, tuples@[0].bits@.len() as int)] == correction(
                tuples@[t].bits@[i].value.val(),
                leading(dabits@[dabit_index(t, i, tuples@[0].bits@.len() as int)].bit@),
            ),
        forall|t: int, i: int|
            0 <= t < tuples@.len() && 0 <= i < tuples@[0].bits@.len()
                ==> #[trigger] r@[dabit_index(t, i, tuples@[0].bits@.len() as int)] == (F40b::plus(
                embed::<F40b>(tuples@[t].bits@[i].value.val()),
                leading(dabits@[dabit_index(t, i, tuples@[0].bits@.len() as int)].bit@),
            ) == 1),
{
    let mut out: Vec<bool> = Vec::new();
    if tuples.len() == 0 {
        return out;
    }
    let bit_size: usize = tuples[0].bits.len();
    let total: usize = dabits.len();
    let mut start: usize = 0;
    let mut t: usize = 0;
    while t < tuples.len()
        invariant
            t <= tuples.len(),
            tuples@.len() > 0,
            bit_size == tuples@[0].bits@.len(),
            total == dabits@.len(),
            prover_tuples_fit(tuples@, total as int),
            start == t * bit_size,
            out@.len() == start,
            forall|k: int, i: int|
                0 <= k < t && 0 <= i < bit_size ==> #[trigger] out@[dabit_index(
                    k,
                    i,
                    bit_size as int,
                )] == correction(
                    tuples@[k].bits@[i].value.val(),
                    leading(dabits@[dabit_index(k, i, bit_size as int)].bit@),
                ),
        decreases tuples.len() - t,
    {
        assert((t + 1) * bit_size == start + bit_size && start + bit_size <= total)
            by (nonlinear_arith)
            requires
                start == t * bit_size,
                t + 1 <= tuples@.len(),
                total == tuples@.len() * bit_size,
        ;
        let bits = &tuples[t].bits;
        assert(bits@.len() == bit_size);
        let ghost before = out@;
        let mut i: usize = 0;
        while i < bit_size
            invariant
                i <= bit_size,
                bits@.len() == bit_size,
                total == dabits@.len(),
                start + bit_size <= total,
                out@.len() == start + i,
                before.len() == start,
                forall|j: int| 0 <= j < start ==> out@[j] == before[j],
                forall|j: int|
                    0 <= j < i ==> #[trigger] out@[start + j] == correction(
                        bits@[j].value.val(),
                        leading(dabits@[start + j].bit@),
                    ),
            decreases bit_size - i,
        {
            let lifted = lift_prime_to_field::<F40b>(bits[i].value());
            let sum = lifted.add(dabits[start + i].bit.value());
            out.push(sum.equals(F40b::one()));
            i = i + 1;
        }
        proof {
            assert forall|k: int, j: int|
                0 <= k < t + 1 && 0 <= j < bit_size implies #[trigger] out@[dabit_index(
                k,
                j,
                bit_size as int,
            )] == correction(
                tuples@[k].bits@[j].value.val(),
                leading(dabits@[dabit_index(k, j, bit_size as int)].bit@),
            ) by {
                if k < t {
                    assert(0 <= k * bit_size + j < start) by (nonlinear_arith)
                        requires
                            0 <= k,
                            k + 1 <= t,
                            0 <= j < bit_size,
                            start == t * bit_size,
                    ;
                    assert(before[dabit_index(k, j, bit_size as int)] == out@[dabit_index(
                        k,
                        j,
                        bit_size as int,
                    )]);
                } else {
                    assert(dabit_index(k, j, bit_size as int) == start + j);
                    assert(out@[start + j] == correction(
                        bits@[j].value.val(),
                        leading(dabits@[start + j].bit@),
                    ));
                }
            }
        }
        start = start + bit_size;
        t = t + 1;
    }
    out
}

/// The values that the owner proves to be zero.
pub struct ProverChecks<FE: PrimeFiniteField, const D2: usize, const DP: usize> {
    pub bits: Vec<HDMacProver<F40b, D2>>,
    pub values: Vec<HDMacProver<FE, DP>>,
}

/// The keys to the values that the other peer proves to be zero.
pub struct VerifierChecks<FE: PrimeFiniteField> {
    pub bits: Vec<HDMacVerifier<F40b>>,
    pub values: Vec<HDMacVerifier<FE>>,
}

/// What the owner proves of its edaBits: that the corrections are right, and
/// that the values are what the bits denote.
pub fn prover_verify_edabits<FE: PrimeFiniteField, const D2: usize, const DP: usize>(
    tuples: &[EdabitsProver<FE>],
    dabits: &[ExpandedProverDabit<FE, D2, DP>],
    corrections: &[bool],
) -> (r: ProverChecks<FE, D2, DP>)
    requires
        1 <= D2 < usize::MAX,
        1 <= DP < usize::MAX,
        prover_tuples_fit(tuples@, dabits@.len() as int),
        tuples@.len() > 0 ==> corrections@.len() == dabits@.len(),
    ensures
        tuples@.len() == 0 ==> r.bits@.len() == 0,
        tuples@.len() > 0 ==> r.bits@.len() == dabits@.len(),
        forall|t: int, i: int|
            0 <= t < tuples@.len() && 0 <= i < tuples@[0].bits@.len() ==> (
            #[trigger] r.bits@[dabit_index(t, i, tuples@[0].bits@.len() as int)])@ == bit_check(
                dabits@[dabit_index(t, i, tuples@[0].bits@.len() as int)].bit@,
                tuples@[t].bits@[i].value.val(),
                tuples@[t].bits@[i].mac.val(),
                corrections@[dabit_index(t, i, tuples@[0].bits@.len() as int)],
                D2 as nat,
            ),
        r.values@.len() == tuples@.len(),
        forall|t: int|
            0 <= t < tuples@.len() ==> (#[trigger] r.values@[t])@ == value_check::<FE>(
                tuples@[t].value.value.val(),
                tuples@[t].value.mac.val(),
                dabit_value_views(dabits@),
                corrections@,
                t * tuples@[0].bits@.len(),
                tuples@[0].bits@.len(),
                DP as nat,
            ),
{
    let mut bit_checks: Vec<HDMacProver<F40b, D2>> = Vec::new();
    let mut value_checks: Vec<HDMacProver<FE, DP>> = Vec::new();
    if tuples.len() == 0 {
        return ProverChecks { bits: bit_checks, values: value_checks };
    }
    let bit_size: usize = tuples[0].bits.len();
    let total: usize = dabits.len();
    let powers_of_two = gen_powers_of_two::<FE>(bit_size);
    let minus_one = FE::one().neg();
    let ghost views = dabit_value_views(dabits@);
    let mut start: usize = 0;
    let mut t: usize = 0;
    while t < tuples.len()
        invariant
            1 <= D2 < usize::MAX,
            1 <= DP < usize::MAX,
            t <= tuples.len(),
            tuples@.len() > 0,
            bit_size == tuples@[0].bits@.len(),
            total == dabits@.len(),
            corrections@.len() == total,
            prover_tuples_fit(tuples@, total as int),
            powers_of_two@.len() >= bit_size,
            minus_one.val() == FE::opposite(1),
            forall|i: int|
                0 <= i < powers_of_two@.len() ==> (#[trigger] powers_of_two@[i]).val() == power::<
                    FE,
                >(FE::plus(1, 1), i as nat),
            views == dabit_value_views(dabits@),
            start == t * bit_size,
            bit_checks@.len() == start,
            value_checks@.len() == t,
            forall|k: int, i: int|
                0 <= k < t && 0 <= i < bit_size ==> (#[trigger] bit_checks@[dabit_index(
                    k,
                    i,
                    bit_size as int,
                )])@ == bit_check(
                    dabits@[dabit_index(k, i, bit_size as int)].bit@,
                    tuples@[k].bits@[i].value.val(),
                    tuples@[k].bits@[i].mac.val(),
                    corrections@[dabit_index(k, i, bit_size as int)],
                    D2 as nat,
                ),
            forall|k: int|
                0 <= k < t ==> (#[trigger] value_checks@[k])@ == value_check::<FE>(
                    tuples@[k].value.value.val(),
                    tuples@[k].value.mac.val(),
                    views,
                    corrections@,
                    k * bit_size,
                    bit_size as nat,
                    DP as nat,
                ),
        decreases tuples.len() - t,
    {
        assert((t + 1) * bit_size == start + bit_size && start + bit_size <= total)
            by (nonlinear_arith)
            requires
                start == t * bit_size,
                t + 1 <= tuples@.len(),
                total == tuples@.len() * bit_size,
        ;
        let bits = &tuples[t].bits;
        assert(bits@.len() == bit_size);
        let ghost before = bit_checks@;
        let mut acc = HDMacProver::<FE, DP>::from(tuples[t].value);
        let mut i: usize = 0;
        while i < bit_size
            invariant
                1 <= D2 < usize::MAX,
                1 <= DP < usize::MAX,
                i <= bit_size,
                t < tuples@.len(),
                bits@.len() == bit_size,
                total == dabits@.len(),
                corrections@.len() == total,
                start + bit_size <= total,
                powers_of_two@.len() >= bit_size,
                minus_one.val() == FE::opposite(1),
                forall|j: int|
                    0 <= j < powers_of_two@.len() ==> (#[trigger] powers_of_two@[j]).val()
                        == power::<FE>(FE::plus(1, 1), j as nat),
                views == dabit_value_views(dabits@),
                bit_checks@.len() == start + i,
                before.len() == start,
                forall|j: int| 0 <= j < start ==> bit_checks@[j] == before[j],
                forall|j: int|
                    0 <= j < i ==> (#[trigger] bit_checks@[start + j])@ == bit_check(
                        dabits@[start + j].bit@,
                        bits@[j].value.val(),
                        bits@[j].mac.val(),
                        corrections@[start + j],
                        D2 as nat,
                    ),
                acc@ == value_check::<FE>(
                    tuples@[t as int].value.value.val(),
                    tuples@[t as int].value.mac.val(),
                    views,
                    corrections@,
                    start as int,
                    i as nat,
                    DP as nat,
                ),
            decreases bit_size - i,
        {
            let c: bool = corrections[start + i];
            let dabit = &dabits[start + i];
            let sum = dabit.bit.add(&HDMacProver::from(bits[i]));
            let constant = if c {
                F40b::one()
            } else {
                F40b::zero()
            };
            bit_checks.push(sum.add_constant(constant));
            let scaled = if c {
                dabit.value.add_constant(minus_one).mul_constant(minus_one).mul_constant(
                    powers_of_two[i],
                )
            } else {
                dabit.value.mul_constant(powers_of_two[i])
            };
            assert(views[start + i] == dabit.value@);
            acc = acc.sub(&scaled);
            i = i + 1;
        }
        proof {
            assert forall|k: int, j: int| 0 <= k < t + 1 && 0 <= j < bit_size implies (
            #[trigger] bit_checks@[dabit_index(k, j, bit_size as int)])@ == bit_check(
                dabits@[dabit_index(k, j, bit_size as int)].bit@,
                tuples@[k].bits@[j].value.val(),
                tuples@[k].bits@[j].mac.val(),
                corrections@[dabit_index(k, j, bit_size as int)],
                D2 as nat,
            ) by {
                if k < t {
                    assert(0 <= k * bit_size + j < start) by (nonlinear_arith)
                        requires
                            0 <= k,
                            k + 1 <= t,
                            0 <= j < bit_size,
                            start == t * bit_size,
                    ;
                    assert(before[dabit_index(k, j, bit_size as int)] == bit_checks@[dabit_index(
                        k,
                        j,
                        bit_size as int,
                    )]);
                } else {
                    assert(dabit_index(k, j, bit_size as int) == start + j);
                    assert(bit_checks@[start + j]@ == bit_check(
                        dabits@[start + j].bit@,
                        bits@[j].value.val(),
                        bits@[j].mac.val(),
                        corrections@[start + j],
                        D2 as nat,
                    ));
                }
            }
        }
        value_checks.push(acc);
        start = start + bit_size;
        t = t + 1;
    }
    ProverChecks { bits: bit_checks, values: value_checks }
}

/// The keys to what the owner proves of its edaBits.
pub fn verifier_verify_edabits<FE: PrimeFiniteField>(
    delta_2: F40b,
    delta_p: FE,
    tuples: &[EdabitsVerifier<FE>],
    dabits: &[ExpandedVerifierDabit<FE>],
    corrections: &[bool],
) -> (r: VerifierChecks<FE>)
    requires
        verifier_tuples_fit(tuples@, dabits@.len() as int),
        tuples@.len() > 0 ==> corrections@.len() == dabits@.len(),
    ensures
        tuples@.len() == 0 ==> r.bits@.len() == 0,
        tuples@.len() > 0 ==> r.bits@.len() == dabits@.len(),
        forall|t: int, i: int|
            0 <= t < tuples@.len() && 0 <= i < tuples@[0].bits@.len() ==> (
            #[trigger] r.bits@[dabit_index(t, i, tuples@[0].bits@.len() as int)])@
                == bit_check_key(
                dabits@[dabit_index(t, i, tuples@[0].bits@.len() as int)].bit@,
                tuples@[t].bits@[i].mac.val(),
                corrections@[dabit_index(t, i, tuples@[0].bits@.len() as int)],
                delta_2.val(),
            ),
        r.values@.len() == tuples@.len(),
        forall|t: int|
            0 <= t < tuples@.len() ==> (#[trigger] r.values@[t])@ == value_check_key::<FE>(
                tuples@[t].value.mac.val(),
                dabit_value_keys(dabits@),
                corrections@,
                t * tuples@[0].bits@.len(),
                tuples@[0].bits@.len(),
                delta_p.val(),
            ),
{
    let mut bit_checks: Vec<HDMacVerifier<F40b>> = Vec::new();
    let mut value_checks: Vec<HDMacVerifier<FE>> = Vec::new();
    if tuples.len() == 0 {
        return VerifierChecks { bits: bit_checks, values: value_checks };
    }
    let bit_size: usize = tuples[0].bits.len();
    let total: usize = dabits.len();
    let powers_of_two = gen_powers_of_two::<FE>(bit_size);
    let minus_one = FE::one().neg();
    let ghost keys = dabit_value_keys(dabits@);
    let mut start: usize = 0;
    let mut t: usize = 0;
    while t < tuples.len()
        invariant
            t <= tuples.len(),
            tuples@.len() > 0,
            bit_size == tuples@[0].bits@.len(),
            total == dabits@.len(),
            corrections@.len() == total,
            verifier_tuples_fit(tuples@, total as int),
            powers_of_two@.len() >= bit_size,
            minus_one.val() == FE::opposite(1),
            forall|i: int|
                0 <= i < powers_of_two@.len() ==> (#[trigger] powers_of_two@[i]).val() == power::<
                    FE,
                >(FE::plus(1, 1), i as nat),
            keys == dabit_value_keys(dabits@),
            start == t * bit_size,
            bit_checks@.len() == start,
            value_checks@.len() == t,
            forall|k: int, i: int|
                0 <= k < t && 0 <= i < bit_size ==> (#[trigger] bit_checks@[dabit_index(
                    k,
                    i,
                    bit_size as int,
                )])@ == bit_check_key(
                    dabits@[dabit_index(k, i, bit_size as int)].bit@,
                    tuples@[k].bits@[i].mac.val(),
                    corrections@[dabit_index(k, i, bit_size as int)],
                    delta_2.val(),
                ),
            forall|k: int|
                0 <= k < t ==> (#[trigger] value_checks@[k])@ == value_check_key::<FE>(
                    tuples@[k].value.mac.val(),
                    keys,
                    corrections@,
                    k * bit_size,
                    bit_size as nat,
                    delta_p.val(),
                ),
        decreases tuples.len() - t,
    {
        assert((t + 1) * bit_size == start + bit_size && start + bit_size <= total)
            by (nonlinear_arith)
            requires
                start == t * bit_size,
                t + 1 <= tuples@.len(),
                total == tuples@.len() * bit_size,
        ;
        let bits = &tuples[t].bits;
        assert(bits@.len() == bit_size);
        let ghost before = bit_checks@;
        let mut acc = HDMacVerifier::from(tuples[t].value);
        let mut i: usize = 0;
        while i < bit_size
            invariant
                i <= bit_size,
                t < tuples@.len(),
                bits@.len() == bit_size,
                total == dabits@.len(),
                corrections@.len() == total,
                start + bit_size <= total,
                powers_of_two@.len() >= bit_size,
                minus_one.val() == FE::opposite(1),
                forall|j: int|
                    0 <= j < powers_of_two@.len() ==> (#[trigger] powers_of_two@[j]).val()
                        == power::<FE>(FE::plus(1, 1), j as nat),
                keys == dabit_value_keys(dabits@),
                bit_checks@.len() == start + i,
                before.len() == start,
                forall|j: int| 0 <= j < start ==> bit_checks@[j] == before[j],
                forall|j: int|
                    0 <= j < i ==> (#[trigger] bit_checks@[start + j])@ == bit_check_key(
                        dabits@[start + j].bit@,
                        bits@[j].mac.val(),
                        corrections@[start + j],
                        delta_2.val(),
                    ),
                acc@ == value_check_key::<FE>(
                    tuples@[t as int].value.mac.val(),
                    keys,
                    corrections@,
                    start as int,
                    i as nat,
                    delta_p.val(),
                ),
            decreases bit_size - i,
        {
            let c: bool = corrections[start + i];
            let dabit = dabits[start + i];
            let sum = dabit.bit.add(delta_2, &HDMacVerifier::from(bits[i]));
            let constant = if c {
                F40b::one()
            } else {
                F40b::zero()
            };
            bit_checks.push(sum.add_constant(delta_2, constant));
            let scaled = if c {
                dabit.value.add_constant(delta_p, minus_one).mul_constant(minus_one).mul_constant(
                    powers_of_two[i],
                )
            } else {
                dabit.value.mul_constant(powers_of_two[i])
            };
            assert(keys[start + i] == dabit.value@);
            acc = acc.sub(delta_p, &scaled);
            i = i + 1;
        }
        proof {
            assert forall|k: int, j: int| 0 <= k < t + 1 && 0 <= j < bit_size implies (
            #[trigger] bit_checks@[dabit_index(k, j, bit_size as int)])@ == bit_check_key(
                dabits@[dabit_index(k, j, bit_size as int)].bit@,
                tuples@[k].bits@[j].mac.val(),
                corrections@[dabit_index(k, j, bit_size as int)],
                delta_2.val(),
            ) by {
                if k < t {
                    assert(0 <= k * bit_size + j < start) by (nonlinear_arith)
                        requires
                            0 <= k,
                            k + 1 <= t,
                            0 <= j < bit_size,
                            start == t * bit_size,
                    ;
                    assert(before[dabit_index(k, j, bit_size as int)] == bit_checks@[dabit_index(
                        k,
                        j,
                        bit_size as int,
                    )]);
                } else {
                    assert(dabit_index(k, j, bit_size as int) == start + j);
                    assert(bit_checks@[start + j]@ == bit_check_key(
                        dabits@[start + j].bit@,
                        bits@[j].mac.val(),
                        corrections@[start + j],
                        delta_2.val(),
                    ));
                }
            }
        }
        value_checks.push(acc);
        start = start + bit_size;
        t = t + 1;
    }
    VerifierChecks { bits: bit_checks, values: value_checks }
}

/// Peer of the flow from expanded daBits.
pub struct MpcCheddaEdabitsPeer<FE: PrimeFiniteField> {
    pub common: MpcEdabitsCommon<FE>,
    pub local_chedda: DabitSource<MacProver<F40b>, MacProver<FE>>,
    pub remote_chedda: DabitSource<MacVerifier<F40b>, MacVerifier<FE>>,
}

impl<FE: PrimeFiniteField> MpcCheddaEdabitsPeer<FE> {
    /// A peer whose two fields have been initialized, with a generator that
    /// expands `seed_length` daBits to `output_length` in each direction.
    pub fn init(
        role: PeerRole,
        fcom_f2: PeerFieldMacs<F40b>,
        fcom_fe: PeerFieldMacs<FE>,
        seed_length: usize,
        output_length: usize,
    ) -> (r: Self)
        requires
            0 < seed_length < output_length,
        ensures
            r.common.role == role,
            r.common.fcom_f2 == fcom_f2,
            r.common.fcom_fe == fcom_fe,
            r.local_chedda@ == SourceView::<MacProver<F40b>, MacProver<FE>>::start(
                seed_length as int,
                output_length as int,
            ),
            r.remote_chedda@ == SourceView::<MacVerifier<F40b>, MacVerifier<FE>>::start(
                seed_length as int,
                output_length as int,
            ),
    {
        MpcCheddaEdabitsPeer {
            common: MpcEdabitsCommon { role, fcom_f2, fcom_fe },
            local_chedda: DabitSource::new(seed_length, output_length),
            remote_chedda: DabitSource::new(seed_length, output_length),
        }
    }

    /// The full run: its steps.
    pub fn generate_global_edabits(&self) -> (r: Flow)
        ensures
            r@ == FlowView::start(self.common.role, 1),
    {
        Flow::start(self.common.role, 1)
    }

    /// The full run, under its shorter name.
    pub fn generate_edabits(&self) -> (r: Flow)
        ensures
            r@ == FlowView::start(self.common.role, 1),
    {
        self.generate_global_edabits()
    }

    /// Starts combining private edaBits that have been sampled but not checked with
    /// those of the other peer.
    pub fn combine_sampled_private_edabits<const D2: usize, const DP: usize>(
        &self,
        state: &UncheckedPrivateEdabitState<FE, D2, DP>,
    ) -> (r: BitAdder<AuthenticatedShare<F40b>>)
        requires
            combinable(
                self.common.role,
                shared_views(state.state.private_edabits@),
                seq_views(state.state.peer_private_edabits@),
            ),
        ensures
            r@.well_formed(),
            r@ == combination_start(
                self.common.role,
                shared_views(state.state.private_edabits@),
                seq_views(state.state.peer_private_edabits@),
            ),
    {
        self.combine_private_into_global_edabits(&state.state)
    }

    /// The opened bits and values of global edaBits, from the other peer's shares
    /// of them.
    pub fn open_global_edabits(
        &self,
        global_edabits: &[GlobalEdabit<FE>],
        remote_values: &[(Vec<F2>, FE)],
    ) -> (r: Vec<(Vec<F2>, FE)>)
        requires
            remote_values@.len() == global_edabits@.len(),
            forall|i: int|
                0 <= i < global_edabits@.len() ==> (#[trigger] remote_values@[i]).0@.len()
                    == global_edabits@[i].bits@.len(),
        ensures
            opened_from(r@, global_edabits@, remote_values@),
    {
        self.common.open_global_edabits(global_edabits, remote_values)
    }

    /// Starts combining private edaBits with those of the other peer.
    pub fn combine_private_into_global_edabits(&self, state: &PrivateEdabitState<FE>) -> (r:
        BitAdder<AuthenticatedShare<F40b>>)
        requires
            combinable(
                self.common.role,
                shared_views(state.private_edabits@),
                seq_views(state.peer_private_edabits@),
            ),
        ensures
            r@.well_formed(),
            r@ == combination_start(
                self.common.role,
                shared_views(state.private_edabits@),
                seq_views(state.peer_private_edabits@),
            ),
    {
        self.common.combine_start(
            state.private_edabits.as_slice(),
            state.peer_private_edabits.as_slice(),
        )
    }

    /// Aggregate VOLE estimate for combining, next to what the two conversion
    /// proofs take.
    pub fn estimate_combine_voles(
        num: usize,
        bit_size: u32,
        proof_local: (usize, usize),
        proof_remote: (usize, usize),
    ) -> (r: (usize, usize))
        requires
            proof_local.0 + proof_remote.0 + 10 * num * bit_size + 40 + 2 * num <= usize::MAX,
            proof_local.1 + proof_remote.1 + 6 * num + FE::dimension() <= usize::MAX,
        ensures
            r.0 == proof_local.0 + proof_remote.0 + 10 * num * bit_size + 40 + 2 * num,
            r.1 == proof_local.1 + proof_remote.1 + 6 * num + FE::dimension(),
    {
        crate::mpc_edabits_common::estimate_combine_voles::<FE>(
            num,
            bit_size,
            proof_local,
            proof_remote,
        )
    }
}

/// The check of a correction: what the two peers hold belongs together, and is
/// zero exactly where the correction tells whether the bit and the daBit differ.
pub proof fn law_bit_check(
    dabit: Seq<int>,
    dabit_key: KeyView,
    bit: int,
    mac: int,
    key: int,
    c: bool,
    delta: int,
    d: nat,
)
    requires
        d >= 1,
        dabit.len() == d + 1,
        hd_paired::<F40b>(dabit, dabit_key, delta),
        leading(dabit) == 0 || leading(dabit) == 1,
        bit == 0 || bit == 1,
        0 <= key < F40b::order(),
        mac == F40b::plus(F40b::times(delta, embed::<F40b>(bit)), key),
    ensures
        hd_paired::<F40b>(
            bit_check(dabit, bit, mac, c, d),
            bit_check_key(dabit_key, key, c, delta),
            delta,
        ),
        leading(bit_check(dabit, bit, mac, c, d)) == 0 <==> c == correction(bit, leading(dabit)),
        correction(bit, leading(dabit)) == (bit != leading(dabit)),
{
    law_hd_raised::<F40b>(bit, mac, key, delta, d);
    let raised = poly_raised::<F40b>(embed::<F40b>(bit), mac, d);
    let raised_key = KeyView { mac: F40b::opposite(key), degree: 1 };
    law_hd_sum::<F40b>(dabit, raised, dabit_key, raised_key, delta);
    let constant: int = if c {
        1
    } else {
        0
    };
    law_hd_shifted::<F40b>(
        poly_sum::<F40b>(dabit, raised),
        key_sum::<F40b>(dabit_key, raised_key, delta),
        constant,
        delta,
    );
    lemma_embed::<F40b>(0, 0);
    lemma_zero_plus::<F40b>(0);
    lemma_zero_plus::<F40b>(1);
    F40b::law_plus_opposite(1);
    assert(F40b::opposite(1) == 1);
}

/// The bit in the field that an unmasked daBit stands for.
proof fn lemma_unmasked<FE: PrimeFiniteField>(
    dabit: Seq<int>,
    dabit_key: KeyView,
    c: bool,
    delta: int,
)
    requires
        dabit.len() > 0,
        hd_paired::<FE>(dabit, dabit_key, delta),
        leading(dabit) == 0 || leading(dabit) == 1,
    ensures
        hd_paired::<FE>(unmasked::<FE>(dabit, c), unmasked_key::<FE>(dabit_key, c, delta), delta),
        unmasked::<FE>(dabit, c).len() == dabit.len(),
        leading(unmasked::<FE>(dabit, c)) == (if c {
            1 - leading(dabit)
        } else {
            leading(dabit)
        }),
{
    FE::law_order();
    if c {
        let m = FE::opposite(1);
        FE::law_closed(1, 0);
        law_hd_shifted::<FE>(dabit, dabit_key, m, delta);
        law_hd_multiple::<FE>(
            m,
            poly_shifted::<FE>(dabit, m),
            key_shifted::<FE>(dabit_key, m, delta),
            delta,
        );
        FE::law_plus_opposite(1);
        lemma_times_zero::<FE>(m);
        lemma_zero_plus::<FE>(m);
        lemma_times_opposite::<FE>(m, 1);
        lemma_one_times::<FE>(m);
        lemma_opposite_opposite::<FE>(1);
    }
}

/// What two peers hold of an edaBit that is checked: the daBits from `start` on,
/// and the corrections.
pub struct ValueCheck {
    pub value: int,
    pub mac: int,
    pub key: int,
    pub bits: Seq<bool>,
    pub dabits: Seq<Seq<int>>,
    pub dabit_keys: Seq<KeyView>,
    pub corrections: Seq<bool>,
    pub start: int,
    pub delta: int,
    pub degree: nat,
}

impl ValueCheck {
    /// Whether the daBits hold bits, and the corrections tell where the bits of
    /// the edaBit differ from them.
    pub open spec fn valid<FE: PrimeFiniteField>(self) -> bool {
        &&& self.degree >= 1
        &&& 0 <= self.value < FE::order()
        &&& 0 <= self.key < FE::order()
        &&& self.mac == FE::plus(FE::times(self.delta, embed::<FE>(self.value)), self.key)
        &&& 0 <= self.start
        &&& self.start + self.bits.len() <= self.dabits.len()
        &&& self.dabit_keys.len() == self.dabits.len()
        &&& self.corrections.len() == self.dabits.len()
        &&& forall|i: int|
            0 <= i < self.bits.len() ==> #[trigger] self.dabit_valid::<FE>(self.start + i)
        &&& forall|i: int|
            0 <= i < self.bits.len() ==> #[trigger] self.bits[i] == (
            self.corrections[self.start + i] != (leading(self.dabits[self.start + i]) == 1))
    }

    /// Whether a daBit holds a bit, and the peers hold what belongs together.
    pub open spec fn dabit_valid<FE: PrimeFiniteField>(self, j: int) -> bool {
        &&& self.dabits[j].len() == self.degree + 1
        &&& hd_paired::<FE>(self.dabits[j], self.dabit_keys[j], self.delta)
        &&& leading(self.dabits[j]) == 0 || leading(self.dabits[j]) == 1
    }

    /// What the owner holds after `n` bits.
    pub open spec fn held<FE: PrimeFiniteField>(self, n: nat) -> Seq<int> {
        value_check::<FE>(
            self.value,
            self.mac,
            self.dabits,
            self.corrections,
            self.start,
            n,
            self.degree,
        )
    }

    /// What the other peer holds after `n` bits.
    pub open spec fn held_key<FE: PrimeFiniteField>(self, n: nat) -> KeyView {
        value_check_key::<FE>(
            self.key,
            self.dabit_keys,
            self.corrections,
            self.start,
            n,
            self.delta,
        )
    }
}

proof fn lemma_value_check<FE: PrimeFiniteField>(w: ValueCheck, n: nat)
    requires
        w.valid::<FE>(),
        n <= w.bits.len(),
    ensures
        w.held::<FE>(n).len() == w.degree + 1,
        hd_paired::<FE>(w.held::<FE>(n), w.held_key::<FE>(n), w.delta),
        leading(w.held::<FE>(n)) == minus::<FE>(w.value, digit::<FE>(w.bits, 0, n)),
    decreases n,
{
    FE::law_order();
    if n == 0 {
        law_hd_raised::<FE>(w.value, w.mac, w.key, w.delta, w.degree);
        crate::ring::lemma_embed_identity::<FE>(w.value);
        lemma_opposite_zero::<FE>();
        lemma_zero_plus::<FE>(w.value);
    } else {
        let k = (n - 1) as nat;
        lemma_value_check::<FE>(w, k);
        let j = w.start + k;
        assert(w.dabit_valid::<FE>(w.start + k as int));
        assert(w.bits[k as int] == (w.corrections[w.start + k as int] != (leading(
            w.dabits[w.start + k as int],
        ) == 1)));
        let c = w.corrections[j];
        lemma_unmasked::<FE>(w.dabits[j], w.dabit_keys[j], c, w.delta);
        let p = power::<FE>(FE::plus(1, 1), k);
        let u = unmasked::<FE>(w.dabits[j], c);
        let uk = unmasked_key::<FE>(w.dabit_keys[j], c, w.delta);
        law_hd_multiple::<FE>(p, u, uk, w.delta);
        law_hd_minus::<FE>(
            w.held::<FE>(k),
            poly_multiple::<FE>(p, u),
            w.held_key::<FE>(k),
            key_multiple::<FE>(p, uk),
            w.delta,
        );
        let b: int = if w.bits[k as int] {
            1
        } else {
            0
        };
        assert(leading(u) == b);
        let d = digit::<FE>(w.bits, 0, k);
        FE::law_times_comm(p, b);
        let t = FE::times(b, p);
        lemma_opposite_plus::<FE>(d, t);
        FE::law_plus_assoc(w.value, FE::opposite(d), FE::opposite(t));
    }
}

/// The check of an edaBit: what the two peers hold belongs together, and is zero
/// exactly where the value of the edaBit is what its bits denote.
pub proof fn law_value_check<FE: PrimeFiniteField>(w: ValueCheck)
    requires
        w.valid::<FE>(),
    ensures
        hd_paired::<FE>(w.held::<FE>(w.bits.len()), w.held_key::<FE>(w.bits.len()), w.delta),
        leading(w.held::<FE>(w.bits.len())) == 0 <==> w.value == nat_of_bits(w.bits) as int
            % FE::order(),
{
    let n = w.bits.len();
    lemma_value_check::<FE>(w, n);
    lemma_digit::<FE>(w.bits, n);
    assert(w.bits.take(n as int) =~= w.bits);
    lemma_cast_modular::<FE>(nat_of_bits(w.bits));
    crate::ring::lemma_cast_closed::<FE>(nat_of_bits(w.bits));
    lemma_minus_zero::<FE>(w.value, digit::<FE>(w.bits, 0, n));
}

} // verus!
