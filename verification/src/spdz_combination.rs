//! Combining the private edaBits of two peers into global ones, over SPDZ-style
//! shares.

use crate::bit_adder::{
    adder_run, adder_start, adder_step, law_adder_start, law_addition, left_factor, right_factor,
    row_matching, row_seq_views, seq_views, shared_bits, summands_match, AdderView, BitAdder,
};
use crate::bits::{least, number, power_two, truths};
use crate::combination_laws::{lemma_number_bound, lemma_off_sum, lemma_overflow};
use crate::f40b::F40b;
use crate::field::{
    field_vals, minus, nat_of_bits, FiniteField, FiniteRing, PrimeFiniteField, PrimeRing,
};
use crate::mpc_conv::copy_vec;
use crate::mpc_homcom::PeerRole;
use crate::mpc_spdz_common::SpdzFieldBackend;
use crate::mpc_spdz_conv::{
    add_spdz_shares, law_spdz_multiple, law_spdz_sum, spdz_multiple, spdz_paired, spdz_secret,
    spdz_sum, SpdzBitShare, SpdzEdabitView, SpdzFieldShare, SpdzGlobalEdabit, SpdzPrivateEdabit,
    SpdzSharedEdabit, SpdzView,
};
use crate::multiplication::{lemma_round_fits, round_items};
use crate::prime_fields::F2;
use crate::ring::{lemma_minus_zero, lemma_zero_plus};
use crate::spdz_multiplication::{
    lemma_spdz_secret_bit, multiply_shared_bits_with_triples, scale_spdz_share,
    spdz_multiplication_masks, SpdzSharedBitTriple,
};
use crate::spdz_products::{
    law_converted_bit, law_spdz_all_products, spdz_round_products, FieldTerms, ProductSetting,
    ProductSource,
};
use vstd::arithmetic::div_mod::{lemma_fundamental_div_mod_converse, lemma_mod_bound};
use vstd::arithmetic::power2::pow2;
use vstd::prelude::*;

verus! {

/// The bits of edaBits, row by row.
pub open spec fn spdz_rows(edabits: Seq<SpdzEdabitView>) -> Seq<Seq<SpdzView>> {
    Seq::new(edabits.len(), |i: int| edabits[i].bits)
}

/// The views of the shares of private edaBits.
pub open spec fn spdz_shared_views<FE: FiniteField>(edabits: Seq<SpdzPrivateEdabit<FE>>) -> Seq<
    SpdzEdabitView,
> {
    Seq::new(edabits.len(), |i: int| edabits[i].shared@)
}

/// The shares of private edaBits, and their bits, are there in the order of the
/// edaBits.
pub proof fn law_spdz_shared_views<FE: FiniteField>(edabits: Seq<SpdzPrivateEdabit<FE>>)
    ensures
        spdz_shared_views(edabits).len() == edabits.len(),
        spdz_rows(spdz_shared_views(edabits)).len() == edabits.len(),
        forall|i: int|
            0 <= i < edabits.len() ==> {
                &&& #[trigger] spdz_shared_views(edabits)[i] == edabits[i].shared@
                &&& spdz_rows(spdz_shared_views(edabits))[i] == edabits[i].shared@.bits
            },
{
}

/// The addition by which a peer combines its edaBits with those of the other
/// peer: the second peer's bits are added to the first peer's.
pub open spec fn spdz_combine_adder(
    role: PeerRole,
    own: Seq<SpdzEdabitView>,
    peer: Seq<SpdzEdabitView>,
) -> AdderView<SpdzView> {
    if role is First {
        adder_start::<SpdzBitShare>(spdz_rows(own), spdz_rows(peer))
    } else {
        adder_start::<SpdzBitShare>(spdz_rows(peer), spdz_rows(own))
    }
}

/// A value less the overflow that a carry out of `bit_size` bits stands for.
pub open spec fn spdz_corrected<FE: FiniteField>(
    sum: SpdzView,
    carry: SpdzView,
    bit_size: nat,
) -> SpdzView {
    spdz_sum::<FE>(
        sum,
        spdz_multiple::<FE>(
            FE::PrimeField::opposite(pow2(bit_size) as int % FE::PrimeField::order()),
            carry,
        ),
    )
}

/// The bits of shared edaBits, row by row.
pub fn spdz_bits_of_edabits<FE: FiniteField>(edabits: &[SpdzSharedEdabit<FE>]) -> (r: Vec<
    Vec<SpdzBitShare>,
>)
    ensures
        row_seq_views(r@) == spdz_rows(seq_views(edabits@)),
{
    let mut out: Vec<Vec<SpdzBitShare>> = Vec::new();
    let mut i: usize = 0;
    while i < edabits.len()
        invariant
            i <= edabits.len(),
            out@.len() == i,
            forall|j: int| 0 <= j < i ==> (#[trigger] out@[j])@ == edabits@[j].bits@,
        decreases edabits.len() - i,
    {
        out.push(copy_vec(&edabits[i].bits));
        i = i + 1;
    }
    assert(row_seq_views(out@) =~= spdz_rows(seq_views(edabits@)));
    out
}

/// One peer's side of the protocols: its role and its keys.
pub struct MpcSpdzCommon<FE: PrimeFiniteField> {
    pub role: PeerRole,
    pub spdz_f2: SpdzFieldBackend<F40b>,
    pub spdz_fe: SpdzFieldBackend<FE>,
}

impl<FE: PrimeFiniteField> MpcSpdzCommon<FE> {
    /// The shares of the sums of the two peers' private values.
    pub fn sum_private_arithmetic_shares(
        &self,
        private_edabits: &[SpdzPrivateEdabit<FE>],
        peer_private_edabits: &[SpdzSharedEdabit<FE>],
    ) -> (r: Vec<SpdzFieldShare<FE>>)
        ensures
            r@.len() == least(private_edabits@.len() as int, peer_private_edabits@.len() as int),
            forall|i: int|
                0 <= i < r@.len() ==> (#[trigger] r@[i])@ == spdz_sum::<FE>(
                    private_edabits@[i].shared.value@,
                    peer_private_edabits@[i].value@,
                ),
    {
        let mut out: Vec<SpdzFieldShare<FE>> = Vec::new();
        let mut i: usize = 0;
        while i < private_edabits.len() && i < peer_private_edabits.len()
            invariant
                i <= private_edabits.len(),
                i <= peer_private_edabits.len(),
                out@.len() == i,
                forall|j: int|
                    0 <= j < i ==> (#[trigger] out@[j])@ == spdz_sum::<FE>(
                        private_edabits@[j].shared.value@,
                        peer_private_edabits@[j].value@,
                    ),
            decreases private_edabits.len() - i,
        {
            out.push(
                add_spdz_shares(private_edabits[i].shared.value, peer_private_edabits[i].value),
            );
            i = i + 1;
        }
        out
    }

    /// The shares of the sums, less `2^bit_size` where a carry came out.
    pub fn apply_overflow_correction(
        &self,
        arithmetic_sums: &[SpdzFieldShare<FE>],
        carry_field_shares: &[SpdzFieldShare<FE>],
        bit_size: usize,
    ) -> (r: Vec<SpdzFieldShare<FE>>)
        ensures
            r@.len() == least(arithmetic_sums@.len() as int, carry_field_shares@.len() as int),
            forall|i: int|
                0 <= i < r@.len() ==> (#[trigger] r@[i])@ == spdz_corrected::<FE>(
                    arithmetic_sums@[i]@,
                    carry_field_shares@[i]@,
                    bit_size as nat,
                ),
            forall|i: int|
                0 <= i < r@.len() ==> (#[trigger] r@[i])@ == spdz_sum::<FE>(
                    arithmetic_sums@[i]@,
                    spdz_multiple::<FE>(
                        FE::opposite(pow2(bit_size as nat) as int % FE::order()),
                        carry_field_shares@[i]@,
                    ),
                ),
    {
        let correction_scale = power_two::<FE>(bit_size).neg();
        let mut out: Vec<SpdzFieldShare<FE>> = Vec::new();
        let mut i: usize = 0;
        while i < arithmetic_sums.len() && i < carry_field_shares.len()
            invariant
                i <= arithmetic_sums.len(),
                i <= carry_field_shares.len(),
                correction_scale.val() == FE::opposite(pow2(bit_size as nat) as int % FE::order()),
                out@.len() == i,
                forall|j: int|
                    0 <= j < i ==> (#[trigger] out@[j])@ == spdz_corrected::<FE>(
                        arithmetic_sums@[j]@,
                        carry_field_shares@[j]@,
                        bit_size as nat,
                    ),
            decreases arithmetic_sums.len() - i,
        {
            out.push(
                add_spdz_shares(
                    arithmetic_sums[i],
                    scale_spdz_share(carry_field_shares[i], correction_scale),
                ),
            );
            i = i + 1;
        }
        out
    }

    /// The edaBits made of shared bits and shared values.
    pub fn assemble_global_edabits(
        &self,
        bit_shares: &[Vec<SpdzBitShare>],
        value_shares: &[SpdzFieldShare<FE>],
    ) -> (r: Vec<SpdzGlobalEdabit<FE>>)
        ensures
            r@.len() == least(bit_shares@.len() as int, value_shares@.len() as int),
            forall|i: int|
                0 <= i < r@.len() ==> {
                    &&& (#[trigger] r@[i]).bits@ == bit_shares@[i]@
                    &&& r@[i].value == value_shares@[i]
                },
    {
        let mut out: Vec<SpdzGlobalEdabit<FE>> = Vec::new();
        let mut i: usize = 0;
        while i < bit_shares.len() && i < value_shares.len()
            invariant
                i <= bit_shares.len(),
                i <= value_shares.len(),
                out@.len() == i,
                forall|j: int|
                    0 <= j < i ==> {
                        &&& (#[trigger] out@[j]).bits@ == bit_shares@[j]@
                        &&& out@[j].value == value_shares@[j]
                    },
            decreases bit_shares.len() - i,
        {
            out.push(SpdzSharedEdabit { bits: copy_vec(&bit_shares[i]), value: value_shares[i] });
            i = i + 1;
        }
        out
    }

    /// Starts combining this peer's private edaBits with those of the other
    /// peer. Both peers add the second peer's bits to the first peer's.
    pub fn combine_start(
        &self,
        private_edabits: &[SpdzPrivateEdabit<FE>],
        peer_private_edabits: &[SpdzSharedEdabit<FE>],
    ) -> (r: BitAdder<SpdzBitShare>)
        requires
            private_edabits@.len() > 0 ==> spdz_combine_adder(
                self.role,
                spdz_shared_views(private_edabits@),
                seq_views(peer_private_edabits@),
            ).well_formed(),
        ensures
            r@.well_formed(),
            private_edabits@.len() > 0 ==> r@ == spdz_combine_adder(
                self.role,
                spdz_shared_views(private_edabits@),
                seq_views(peer_private_edabits@),
            ),
            private_edabits@.len() == 0 ==> r@ == adder_start::<SpdzBitShare>(
                Seq::empty(),
                Seq::empty(),
            ),
    {
        if private_edabits.len() == 0 {
            let none: Vec<Vec<SpdzBitShare>> = Vec::new();
            let nothing: Vec<Vec<SpdzBitShare>> = Vec::new();
            assert(row_seq_views(none@) =~= Seq::empty());
            assert(row_seq_views(nothing@) =~= Seq::empty());
            return BitAdder::start(none, nothing);
        }
        let mut own: Vec<Vec<SpdzBitShare>> = Vec::new();
        let mut i: usize = 0;
        while i < private_edabits.len()
            invariant
                i <= private_edabits.len(),
                own@.len() == i,
                forall|j: int|
                    0 <= j < i ==> (#[trigger] own@[j])@ == private_edabits@[j].shared.bits@,
            decreases private_edabits.len() - i,
        {
            own.push(copy_vec(&private_edabits[i].shared.bits));
            i = i + 1;
        }
        let peer = spdz_bits_of_edabits(peer_private_edabits);
        proof {
            assert(row_seq_views(own@) =~= spdz_rows(spdz_shared_views(private_edabits@)));
        }
        if self.role.is_first() {
            BitAdder::start(own, peer)
        } else {
            BitAdder::start(peer, own)
        }
    }

    /// The two batches of shares to open in the current round of an addition by
    /// triples.
    pub fn adder_masks(
        &self,
        adder: &BitAdder<SpdzBitShare>,
        triples: &[SpdzSharedBitTriple],
    ) -> (r: (Vec<SpdzBitShare>, Vec<SpdzBitShare>))
        requires
            adder@.round < adder@.bit_size(),
            triples@.len() >= adder@.num() * adder@.bit_size(),
        ensures
            r.0@.len() == adder@.num(),
            r.1@.len() == adder@.num(),
            forall|row: int|
                0 <= row < adder@.num() ==> (#[trigger] r.0@[row])@ == spdz_sum::<F40b>(
                    left_factor::<SpdzBitShare>(adder@, row),
                    triples@[adder@.round * adder@.num() + row]@.a,
                ),
            forall|row: int|
                0 <= row < adder@.num() ==> (#[trigger] r.1@[row])@ == spdz_sum::<F40b>(
                    right_factor::<SpdzBitShare>(adder@, row),
                    triples@[adder@.round * adder@.num() + row]@.b,
                ),
    {
        let (left, right) = adder.factors();
        proof {
            lemma_round_fits(adder@.round, adder@.num(), adder@.bit_size(), adder@.num());
        }
        let current = round_items(triples, adder.round(), adder.num());
        proof {
            assert forall|row: int| 0 <= row < adder@.num() implies #[trigger] current@[row]
                == triples@[adder@.round * adder@.num() + row] by {}
        }
        spdz_multiplication_masks(left.as_slice(), right.as_slice(), current.as_slice())
    }

    /// Completes the current round of an addition by triples with the opened
    /// values of its two batches.
    pub fn adder_absorb(
        &self,
        adder: BitAdder<SpdzBitShare>,
        triples: &[SpdzSharedBitTriple],
        d_values: &[F2],
        e_values: &[F2],
    ) -> (r: BitAdder<SpdzBitShare>)
        requires
            adder@.round < adder@.bit_size(),
            triples@.len() >= adder@.num() * adder@.bit_size(),
            d_values@.len() == adder@.num(),
            e_values@.len() == adder@.num(),
        ensures
            r@.well_formed(),
            r@ == adder_step::<SpdzBitShare>(
                adder@,
                spdz_round_products(
                    adder@,
                    seq_views(triples@),
                    self.role,
                    self.spdz_f2.alpha_share.val(),
                    field_vals(d_values@),
                    field_vals(e_values@),
                ),
            ),
    {
        let round: usize = adder.round();
        proof {
            lemma_round_fits(adder@.round, adder@.num(), adder@.bit_size(), adder@.num());
        }
        let current = round_items(triples, round, adder.num());
        let products = multiply_shared_bits_with_triples(
            self.role,
            self.spdz_f2.alpha_share(),
            current.as_slice(),
            d_values,
            e_values,
        );
        proof {
            let expected = spdz_round_products(
                adder@,
                seq_views(triples@),
                self.role,
                self.spdz_f2.alpha_share.val(),
                field_vals(d_values@),
                field_vals(e_values@),
            );
            assert forall|row: int| 0 <= row < adder@.num() implies #[trigger] seq_views(
                products@,
            )[row] == expected[row] by {
                assert(products@[row]@ == seq_views(products@)[row]);
                assert(current@[row] == triples@[adder@.round * adder@.num() + row]);
            }
            assert(seq_views(products@) =~= expected);
        }
        adder.absorb(products.as_slice())
    }

    /// Completes the combination from the bits of the sums, and the shares in
    /// `FE` of the carries.
    pub fn combine_finish(
        &self,
        private_edabits: &[SpdzPrivateEdabit<FE>],
        peer_private_edabits: &[SpdzSharedEdabit<FE>],
        global_bits: &[Vec<SpdzBitShare>],
        carry_field_shares: &[SpdzFieldShare<FE>],
    ) -> (r: Vec<SpdzGlobalEdabit<FE>>)
        ensures
            r@.len() == least(
                global_bits@.len() as int,
                least(
                    least(private_edabits@.len() as int, peer_private_edabits@.len() as int),
                    carry_field_shares@.len() as int,
                ),
            ),
            forall|i: int|
                0 <= i < r@.len() ==> {
                    &&& (#[trigger] r@[i]).bits@ == global_bits@[i]@
                    &&& r@[i].value@ == spdz_corrected::<FE>(
                        spdz_sum::<FE>(
                            private_edabits@[i].shared.value@,
                            peer_private_edabits@[i].value@,
                        ),
                        carry_field_shares@[i]@,
                        private_edabits@[0].shared.bits@.len(),
                    )
                },
    {
        if private_edabits.len() == 0 {
            return Vec::new();
        }
        let bit_size: usize = private_edabits[0].shared.bit_len();
        let arithmetic_sums = self.sum_private_arithmetic_shares(
            private_edabits,
            peer_private_edabits,
        );
        let corrected_values = self.apply_overflow_correction(
            arithmetic_sums.as_slice(),
            carry_field_shares,
            bit_size,
        );
        let out = self.assemble_global_edabits(global_bits, corrected_values.as_slice());
        proof {
            assert forall|i: int| 0 <= i < out@.len() implies (#[trigger] out@[i]).value@
                == spdz_corrected::<FE>(
                spdz_sum::<FE>(
                    private_edabits@[i].shared.value@,
                    peer_private_edabits@[i].value@,
                ),
                carry_field_shares@[i]@,
                private_edabits@[0].shared.bits@.len(),
            ) by {
                assert(corrected_values@[i]@ == spdz_corrected::<FE>(
                    arithmetic_sums@[i]@,
                    carry_field_shares@[i]@,
                    bit_size as nat,
                ));
                assert(arithmetic_sums@[i]@ == spdz_sum::<FE>(
                    private_edabits@[i].shared.value@,
                    peer_private_edabits@[i].value@,
                ));
            }
        }
        out
    }
}

/// The number that the shared bits of an edaBit denote.
pub open spec fn spdz_number(s: SpdzEdabitView, t: SpdzEdabitView) -> nat {
    nat_of_bits(shared_bits::<SpdzBitShare>(s.bits, t.bits))
}

/// Whether the shared value of an edaBit is what its shared bits denote.
pub open spec fn spdz_consistent<FE: FiniteField>(s: SpdzEdabitView, t: SpdzEdabitView) -> bool {
    spdz_secret::<FE>(s.value, t.value) == spdz_number(s, t) as int % FE::PrimeField::order()
}

/// By how much the shared value of an edaBit is off what its bits denote.
pub open spec fn spdz_deviation<FE: FiniteField>(s: SpdzEdabitView, t: SpdzEdabitView) -> int {
    minus::<FE::PrimeField>(
        spdz_secret::<FE>(s.value, t.value),
        spdz_number(s, t) as int % FE::PrimeField::order(),
    )
}

/// One combination of private edaBits by two peers, of which `s` is the first
/// peer and `t` the second.
pub struct SpdzCombination {
    /// The first peer's edaBits, as the first and the second peer hold them.
    pub firsts: (Seq<SpdzEdabitView>, Seq<SpdzEdabitView>),
    /// The second peer's edaBits, as the first and the second peer hold them.
    pub seconds: (Seq<SpdzEdabitView>, Seq<SpdzEdabitView>),
    /// Where the products of the addition come from.
    pub source: ProductSource,
    /// How the carries are converted to field values.
    pub conversions: Seq<FieldTerms>,
    /// The shares of the MAC key for bits.
    pub bit_keys: (int, int),
    /// The shares of the MAC key for values.
    pub value_keys: (int, int),
}

impl SpdzCombination {
    /// The first peer's addition before its first round.
    pub open spec fn adder_s(self) -> AdderView<SpdzView> {
        adder_start::<SpdzBitShare>(spdz_rows(self.firsts.0), spdz_rows(self.seconds.0))
    }

    /// The second peer's addition before its first round.
    pub open spec fn adder_t(self) -> AdderView<SpdzView> {
        adder_start::<SpdzBitShare>(spdz_rows(self.firsts.1), spdz_rows(self.seconds.1))
    }

    /// The two peers with the source of their products.
    pub open spec fn setting(self) -> ProductSetting {
        ProductSetting { source: self.source, ks: self.bit_keys.0, kt: self.bit_keys.1 }
    }

    /// Both additions after their last round.
    pub open spec fn added(self, m: nat) -> (AdderView<SpdzView>, AdderView<SpdzView>) {
        let (ps, pt) = self.setting().all_products(self.adder_s(), self.adder_t(), m);
        (
            adder_run::<SpdzBitShare>(self.adder_s(), ps),
            adder_run::<SpdzBitShare>(self.adder_t(), pt),
        )
    }

    /// The carry of row `i` as a field value, as both peers hold it.
    pub open spec fn carry<FE: FiniteField>(self, m: nat, i: int) -> (SpdzView, SpdzView) {
        self.conversions[i].shares::<FE>(
            self.added(m).0.carry[i].share,
            self.added(m).1.carry[i].share,
            self.value_keys.0,
            self.value_keys.1,
        )
    }

    /// What the first peer ends up with.
    pub open spec fn result_s<FE: FiniteField>(self, m: nat, i: int) -> SpdzEdabitView {
        SpdzEdabitView {
            bits: self.added(m).0.sums[i],
            value: spdz_corrected::<FE>(
                spdz_sum::<FE>(self.firsts.0[i].value, self.seconds.0[i].value),
                self.carry::<FE>(m, i).0,
                m,
            ),
        }
    }

    /// What the second peer ends up with.
    pub open spec fn result_t<FE: FiniteField>(self, m: nat, i: int) -> SpdzEdabitView {
        SpdzEdabitView {
            bits: self.added(m).1.sums[i],
            value: spdz_corrected::<FE>(
                spdz_sum::<FE>(self.seconds.1[i].value, self.firsts.1[i].value),
                self.carry::<FE>(m, i).1,
                m,
            ),
        }
    }

    /// Whether the peers hold private edaBits of `m` bits at `i`, and what the
    /// addition and the conversion of its last carry take.
    pub open spec fn supplied<FE: FiniteField>(self, m: nat, i: int) -> bool {
        &&& summands_match::<SpdzBitShare>(
            (spdz_rows(self.firsts.0), spdz_rows(self.firsts.1)),
            (spdz_rows(self.seconds.0), spdz_rows(self.seconds.1)),
            self.bit_keys.0,
            self.bit_keys.1,
        )
        &&& self.setting().provides(self.firsts.0.len() as int, m as int)
        &&& 0 <= self.value_keys.0 < FE::order()
        &&& 0 <= self.value_keys.1 < FE::order()
        &&& 0 <= i < self.firsts.0.len()
        &&& self.firsts.0[0].bits.len() == m
        &&& self.firsts.0[i].bits.len() == m
        &&& self.seconds.0[i].bits.len() == m
        &&& spdz_paired::<FE>(
            self.firsts.0[i].value,
            self.firsts.1[i].value,
            self.value_keys.0,
            self.value_keys.1,
        )
        &&& spdz_paired::<FE>(
            self.seconds.0[i].value,
            self.seconds.1[i].value,
            self.value_keys.0,
            self.value_keys.1,
        )
        &&& i < self.conversions.len()
        &&& self.conversions[i].fits::<FE>()
    }
}

/// Combining private edaBits: the peers end up with valid shares of edaBits whose
/// bits denote the sums modulo `2^m`, and whose values are off what the bits
/// denote by as much as the two private values together. So the result is
/// consistent exactly where that cancels out, and in particular where both
/// private edaBits are.
pub proof fn law_spdz_combination<FE: PrimeFiniteField>(c: SpdzCombination, m: nat, i: int)
    requires
        c.supplied::<FE>(m, i),
    ensures
        c.result_s::<FE>(m, i).bits.len() == m,
        row_matching::<SpdzBitShare>(
            c.result_s::<FE>(m, i).bits,
            c.result_t::<FE>(m, i).bits,
            c.bit_keys.0,
            c.bit_keys.1,
        ),
        spdz_paired::<FE>(
            c.result_s::<FE>(m, i).value,
            c.result_t::<FE>(m, i).value,
            c.value_keys.0,
            c.value_keys.1,
        ),
        spdz_number(c.result_s::<FE>(m, i), c.result_t::<FE>(m, i)) == (spdz_number(
            c.firsts.0[i],
            c.firsts.1[i],
        ) + spdz_number(c.seconds.0[i], c.seconds.1[i])) % pow2(m),
        spdz_deviation::<FE>(c.result_s::<FE>(m, i), c.result_t::<FE>(m, i)) == FE::plus(
            spdz_deviation::<FE>(c.firsts.0[i], c.firsts.1[i]),
            spdz_deviation::<FE>(c.seconds.0[i], c.seconds.1[i]),
        ),
        spdz_consistent::<FE>(c.result_s::<FE>(m, i), c.result_t::<FE>(m, i)) <==> FE::plus(
            spdz_deviation::<FE>(c.firsts.0[i], c.firsts.1[i]),
            spdz_deviation::<FE>(c.seconds.0[i], c.seconds.1[i]),
        ) == 0,
        spdz_consistent::<FE>(c.firsts.0[i], c.firsts.1[i]) && spdz_consistent::<FE>(
            c.seconds.0[i],
            c.seconds.1[i],
        ) ==> spdz_consistent::<FE>(c.result_s::<FE>(m, i), c.result_t::<FE>(m, i)),
{
    let (p0, p1) = (spdz_rows(c.firsts.0), spdz_rows(c.firsts.1));
    let (q0, q1) = (spdz_rows(c.seconds.0), spdz_rows(c.seconds.1));
    let (ks, kt) = c.value_keys;
    assert(c.adder_s().bit_size() == m);
    law_adder_start::<SpdzBitShare>((p0, p1), (q0, q1), c.bit_keys.0, c.bit_keys.1);
    law_spdz_all_products(c.setting(), c.adder_s(), c.adder_t(), m);
    law_addition::<SpdzBitShare>(
        (p0, p1),
        (q0, q1),
        c.setting().all_products(c.adder_s(), c.adder_t(), m),
        c.bit_keys.0,
        c.bit_keys.1,
        i,
    );
    let (u, v) = c.added(m);
    let carry = spdz_secret::<F40b>(u.carry[i], v.carry[i]);
    lemma_spdz_secret_bit(u.carry[i], v.carry[i]);
    law_converted_bit::<FE>(c.conversions[i], u.carry[i], v.carry[i], ks, kt);
    let (fs, ft) = c.carry::<FE>(m, i);
    let (xs, xt) = (c.firsts.0[i].value, c.firsts.1[i].value);
    let (ys, yt) = (c.seconds.0[i].value, c.seconds.1[i].value);
    law_spdz_sum::<FE>(xs, xt, ys, yt, ks, kt);
    assert(spdz_sum::<FE>(yt, xt) == spdz_sum::<FE>(xt, yt)) by {
        FE::law_plus_comm(xt.share, yt.share);
        FE::law_plus_comm(xt.mac, yt.mac);
    }
    let p = pow2(m);
    FE::law_order();
    let scale = FE::opposite(p as int % FE::order());
    FE::law_closed(p as int % FE::order(), 0);
    law_spdz_multiple::<FE>(scale, fs, ft, ks, kt);
    law_spdz_sum::<FE>(
        spdz_sum::<FE>(xs, ys),
        spdz_sum::<FE>(xt, yt),
        spdz_multiple::<FE>(scale, fs),
        spdz_multiple::<FE>(scale, ft),
        ks,
        kt,
    );
    let x = spdz_number(c.firsts.0[i], c.firsts.1[i]);
    let y = spdz_number(c.seconds.0[i], c.seconds.1[i]);
    let z = nat_of_bits(shared_bits::<SpdzBitShare>(u.sums[i], v.sums[i]));
    assert(shared_bits::<SpdzBitShare>(p0[i], p1[i]).take(m as int) =~= shared_bits::<
        SpdzBitShare,
    >(c.firsts.0[i].bits, c.firsts.1[i].bits));
    assert(shared_bits::<SpdzBitShare>(q0[i], q1[i]).take(m as int) =~= shared_bits::<
        SpdzBitShare,
    >(c.seconds.0[i].bits, c.seconds.1[i].bits));
    assert(carry * p == (if carry == 1 {
        p
    } else {
        0
    })) by (nonlinear_arith)
        requires
            carry == 0 || carry == 1,
    ;
    assert(x + y == z + carry * p);
    lemma_overflow::<FE>(x, y, z, carry, p);
    lemma_number_bound(shared_bits::<SpdzBitShare>(u.sums[i], v.sums[i]));
    lemma_fundamental_div_mod_converse((x + y) as int, p as int, carry, z as int);
    lemma_off_sum::<FE>(
        spdz_secret::<FE>(xs, xt),
        spdz_secret::<FE>(ys, yt),
        x as int % FE::order(),
        y as int % FE::order(),
        FE::times(scale, carry),
        z as int % FE::order(),
    );
    lemma_spdz_deviation::<FE>(c.firsts.0[i], c.firsts.1[i]);
    lemma_spdz_deviation::<FE>(c.seconds.0[i], c.seconds.1[i]);
    lemma_spdz_deviation::<FE>(c.result_s::<FE>(m, i), c.result_t::<FE>(m, i));
    lemma_zero_plus::<FE>(0);
}

/// A value is off by zero where it is what the bits denote, and nowhere else.
pub proof fn lemma_spdz_deviation<FE: FiniteField>(s: SpdzEdabitView, t: SpdzEdabitView)
    ensures
        spdz_consistent::<FE>(s, t) <==> spdz_deviation::<FE>(s, t) == 0,
{
    FE::PrimeField::law_order();
    FE::PrimeField::law_closed(s.value.share, t.value.share);
    lemma_mod_bound(spdz_number(s, t) as int, FE::PrimeField::order());
    lemma_minus_zero::<FE::PrimeField>(
        spdz_secret::<FE>(s.value, t.value),
        spdz_number(s, t) as int % FE::PrimeField::order(),
    );
}

/// What a consistent edaBit opens to: the opened value is what the opened bits
/// denote.
pub proof fn law_spdz_opened_edabit<FE: PrimeFiniteField>(
    s: SpdzEdabitView,
    t: SpdzEdabitView,
    bits: Seq<F2>,
    value: int,
)
    requires
        spdz_consistent::<FE>(s, t),
        bits.len() == s.bits.len(),
        forall|j: int|
            0 <= j < bits.len() ==> (#[trigger] bits[j]).val() == F2::plus(
                s.bits[j].share,
                t.bits[j].share,
            ),
        value == FE::plus(s.value.share, t.value.share),
    ensures
        value == number(bits) as int % FE::order(),
{
    assert forall|j: int| 0 <= j < bits.len() implies #[trigger] truths(bits)[j] == shared_bits::<
        SpdzBitShare,
    >(s.bits, t.bits)[j] by {
        assert(bits[j].val() == spdz_secret::<F40b>(s.bits[j], t.bits[j]));
    }
    assert(truths(bits) =~= shared_bits::<SpdzBitShare>(s.bits, t.bits));
}

} // verus!
