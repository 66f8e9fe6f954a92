//! SPDZ-facing edaBit types built around authenticated additive secret shares.
//!
//! A peer holds its share of a value together with its share of the MAC on the
//! value, under a global MAC key that the peers share too.

use crate::bit_adder::{seq_views, BitShare};
use crate::f40b::F40b;
use crate::field::{FiniteField, FiniteRing, PrimeRing};
use crate::mpc_conv::{copy_vec, Replicate};
use crate::mpc_homcom::PeerRole;
use crate::prime_fields::F2;
use crate::ring::{
    embed, lemma_distributive_left, lemma_embed, lemma_plus_swap, lemma_times_zero, lemma_zero_plus,
};
use vstd::prelude::*;

verus! {

/// What a peer holds of a shared value: its share, and its share of the MAC.
pub struct SpdzView {
    pub share: int,
    pub mac: int,
}

/// A current-peer view of a SPDZ-style authenticated additive share.
#[derive(Clone, Copy)]
pub struct SpdzAuthenticatedShare<MF: FiniteField> {
    pub share: MF::PrimeField,
    pub mac: MF,
}

impl<MF: FiniteField> View for SpdzAuthenticatedShare<MF> {
    type V = SpdzView;

    open spec fn view(&self) -> SpdzView {
        SpdzView { share: self.share.val(), mac: self.mac.val() }
    }
}

impl<MF: FiniteField> SpdzAuthenticatedShare<MF> {
    /// A share with its share of the MAC.
    pub fn new(share: MF::PrimeField, mac: MF) -> (r: Self)
        ensures
            r.share == share,
            r.mac == mac,
            r@ == (SpdzView { share: share.val(), mac: mac.val() }),
    {
        SpdzAuthenticatedShare { share, mac }
    }

    /// The components of a share are canonical representatives.
    pub proof fn lemma_canonical(&self)
        ensures
            spdz_canonical::<MF>(self@),
    {
        self.share.law_val();
        self.mac.law_val();
    }
}

/// A shared bit.
pub type SpdzBitShare = SpdzAuthenticatedShare<F40b>;

/// A shared field value.
pub type SpdzFieldShare<FE> = SpdzAuthenticatedShare<FE>;

/// What a peer holds of a shared edaBit.
pub struct SpdzEdabitView {
    pub bits: Seq<SpdzView>,
    pub value: SpdzView,
}

/// An edaBit represented as SPDZ-style authenticated additive shares.
pub struct SpdzSharedEdabit<FE: FiniteField> {
    pub bits: Vec<SpdzBitShare>,
    pub value: SpdzFieldShare<FE>,
}

impl<FE: FiniteField> View for SpdzSharedEdabit<FE> {
    type V = SpdzEdabitView;

    open spec fn view(&self) -> SpdzEdabitView {
        SpdzEdabitView { bits: seq_views(self.bits@), value: self.value@ }
    }
}

impl<FE: FiniteField> SpdzSharedEdabit<FE> {
    /// How many bits the edaBit has.
    pub fn bit_len(&self) -> (r: usize)
        ensures
            r == self.bits@.len(),
    {
        self.bits.len()
    }
}

impl<FE: FiniteField> Replicate for SpdzSharedEdabit<FE> {
    fn replicate(&self) -> (r: Self) {
        SpdzSharedEdabit { bits: copy_vec(&self.bits), value: self.value }
    }
}

/// What the owner of an edaBit holds.
pub struct SpdzPrivateEdabitView {
    pub clear_bits: Seq<F2>,
    pub clear_value: int,
    pub shared: SpdzEdabitView,
}

/// A private edaBit contribution sampled by the current peer.
pub struct SpdzPrivateEdabit<FE: FiniteField> {
    pub clear_bits: Vec<F2>,
    pub clear_value: FE::PrimeField,
    pub shared: SpdzSharedEdabit<FE>,
}

impl<FE: FiniteField> View for SpdzPrivateEdabit<FE> {
    type V = SpdzPrivateEdabitView;

    open spec fn view(&self) -> SpdzPrivateEdabitView {
        SpdzPrivateEdabitView {
            clear_bits: self.clear_bits@,
            clear_value: self.clear_value.val(),
            shared: self.shared@,
        }
    }
}

impl<FE: FiniteField> Replicate for SpdzPrivateEdabit<FE> {
    fn replicate(&self) -> (r: Self) {
        SpdzPrivateEdabit {
            clear_bits: copy_vec(&self.clear_bits),
            clear_value: self.clear_value,
            shared: self.shared.replicate(),
        }
    }
}

/// What is known of an edaBit when its view is: each clear bit, the clear value, and
/// both parts of each share.
pub proof fn law_spdz_private_view<FE: FiniteField>(edabit: SpdzPrivateEdabit<FE>)
    ensures
        edabit@.clear_bits == edabit.clear_bits@,
        edabit@.clear_value == edabit.clear_value.val(),
        edabit@.shared == edabit.shared@,
        edabit.shared@.bits.len() == edabit.shared.bits@.len(),
        forall|j: int|
            0 <= j < edabit.shared.bits@.len() ==> {
                let share = edabit.shared.bits@[j];
                &&& (#[trigger] edabit.shared@.bits[j]).share == share.share.val()
                &&& edabit.shared@.bits[j].mac == share.mac.val()
            },
        edabit.shared@.value.share == edabit.shared.value.share.val(),
        edabit.shared@.value.mac == edabit.shared.value.mac.val(),
{
}

/// Final combined authenticated secret-shared edaBit.
pub type SpdzGlobalEdabit<FE> = SpdzSharedEdabit<FE>;

/// Whether both components are canonical representatives.
pub open spec fn spdz_canonical<MF: FiniteField>(s: SpdzView) -> bool {
    &&& 0 <= s.share < MF::PrimeField::order()
    &&& 0 <= s.mac < MF::order()
}

/// The share of zero that every peer holds by agreement.
pub open spec fn spdz_zero() -> SpdzView {
    SpdzView { share: 0, mac: 0 }
}

/// The share of a sum.
pub open spec fn spdz_sum<MF: FiniteField>(s: SpdzView, t: SpdzView) -> SpdzView {
    SpdzView { share: MF::PrimeField::plus(s.share, t.share), mac: MF::plus(s.mac, t.mac) }
}

/// The share of the product with the public constant `c`.
pub open spec fn spdz_multiple<MF: FiniteField>(c: int, s: SpdzView) -> SpdzView {
    SpdzView { share: MF::PrimeField::times(c, s.share), mac: MF::times(embed::<MF>(c), s.mac) }
}

/// The share of the sum with the public constant `c`, as the peer in `role` with
/// the share `alpha` of the MAC key computes it: the first peer adds the
/// constant to its share, and both correct the MAC.
pub open spec fn spdz_shifted<MF: FiniteField>(
    role: PeerRole,
    alpha: int,
    s: SpdzView,
    c: int,
) -> SpdzView {
    SpdzView {
        share: if role is First {
            MF::PrimeField::plus(s.share, c)
        } else {
            s.share
        },
        mac: MF::plus(s.mac, MF::times(alpha, embed::<MF>(c))),
    }
}

/// The shared value.
pub open spec fn spdz_secret<MF: FiniteField>(s: SpdzView, t: SpdzView) -> int {
    MF::PrimeField::plus(s.share, t.share)
}

/// Whether `s` and `t` are the two parts of one shared value, where the peers
/// hold the shares `ks` and `kt` of the MAC key.
pub open spec fn spdz_paired<MF: FiniteField>(s: SpdzView, t: SpdzView, ks: int, kt: int) -> bool {
    &&& spdz_canonical::<MF>(s)
    &&& spdz_canonical::<MF>(t)
    &&& MF::plus(s.mac, t.mac) == MF::times(
        MF::plus(ks, kt),
        embed::<MF>(spdz_secret::<MF>(s, t)),
    )
}

/// The agreed shares of zero share zero.
pub proof fn law_spdz_zero<MF: FiniteField>(ks: int, kt: int)
    ensures
        spdz_paired::<MF>(spdz_zero(), spdz_zero(), ks, kt),
        spdz_secret::<MF>(spdz_zero(), spdz_zero()) == 0,
{
    MF::law_order();
    MF::PrimeField::law_order();
    lemma_zero_plus::<MF::PrimeField>(0);
    lemma_zero_plus::<MF>(0);
    lemma_embed::<MF>(0, 0);
    lemma_times_zero::<MF>(MF::plus(ks, kt));
}

/// Sums of shared values are shared values, of the sum.
pub proof fn law_spdz_sum<MF: FiniteField>(
    s1: SpdzView,
    t1: SpdzView,
    s2: SpdzView,
    t2: SpdzView,
    ks: int,
    kt: int,
)
    requires
        spdz_paired::<MF>(s1, t1, ks, kt),
        spdz_paired::<MF>(s2, t2, ks, kt),
    ensures
        spdz_paired::<MF>(spdz_sum::<MF>(s1, s2), spdz_sum::<MF>(t1, t2), ks, kt),
        spdz_secret::<MF>(spdz_sum::<MF>(s1, s2), spdz_sum::<MF>(t1, t2)) == MF::PrimeField::plus(
            spdz_secret::<MF>(s1, t1),
            spdz_secret::<MF>(s2, t2),
        ),
{
    let alpha = MF::plus(ks, kt);
    let (u, v) = (spdz_secret::<MF>(s1, t1), spdz_secret::<MF>(s2, t2));
    MF::PrimeField::law_closed(s1.share, s2.share);
    MF::PrimeField::law_closed(t1.share, t2.share);
    MF::PrimeField::law_closed(s1.share, t1.share);
    MF::PrimeField::law_closed(s2.share, t2.share);
    MF::law_closed(s1.mac, s2.mac);
    MF::law_closed(t1.mac, t2.mac);
    lemma_plus_swap::<MF::PrimeField>(s1.share, s2.share, t1.share, t2.share);
    lemma_plus_swap::<MF>(s1.mac, s2.mac, t1.mac, t2.mac);
    lemma_embed::<MF>(u, v);
    MF::law_distributive(alpha, embed::<MF>(u), embed::<MF>(v));
}

/// Multiples of shared values are shared values, of the multiple.
pub proof fn law_spdz_multiple<MF: FiniteField>(
    c: int,
    s: SpdzView,
    t: SpdzView,
    ks: int,
    kt: int,
)
    requires
        0 <= c < MF::PrimeField::order(),
        spdz_paired::<MF>(s, t, ks, kt),
    ensures
        spdz_paired::<MF>(spdz_multiple::<MF>(c, s), spdz_multiple::<MF>(c, t), ks, kt),
        spdz_secret::<MF>(spdz_multiple::<MF>(c, s), spdz_multiple::<MF>(c, t))
            == MF::PrimeField::times(c, spdz_secret::<MF>(s, t)),
{
    let alpha = MF::plus(ks, kt);
    let u = spdz_secret::<MF>(s, t);
    let (ec, eu) = (embed::<MF>(c), embed::<MF>(u));
    MF::PrimeField::law_closed(c, s.share);
    MF::PrimeField::law_closed(c, t.share);
    MF::PrimeField::law_closed(s.share, t.share);
    MF::law_closed(ec, s.mac);
    MF::law_closed(ec, t.mac);
    MF::PrimeField::law_distributive(c, s.share, t.share);
    MF::law_distributive(ec, s.mac, t.mac);
    lemma_embed::<MF>(c, u);
    MF::law_times_assoc(ec, alpha, eu);
    MF::law_times_comm(ec, alpha);
    MF::law_times_assoc(alpha, ec, eu);
}

/// Adding a public constant keeps the MACs valid and shifts the secret.
pub proof fn law_spdz_shifted<MF: FiniteField>(
    role: PeerRole,
    s: SpdzView,
    t: SpdzView,
    ks: int,
    kt: int,
    c: int,
)
    requires
        0 <= c < MF::PrimeField::order(),
        spdz_paired::<MF>(s, t, ks, kt),
    ensures
        spdz_paired::<MF>(
            spdz_shifted::<MF>(role, ks, s, c),
            spdz_shifted::<MF>(role.other(), kt, t, c),
            ks,
            kt,
        ),
        spdz_secret::<MF>(
            spdz_shifted::<MF>(role, ks, s, c),
            spdz_shifted::<MF>(role.other(), kt, t, c),
        ) == MF::PrimeField::plus(spdz_secret::<MF>(s, t), c),
{
    let alpha = MF::plus(ks, kt);
    let u = spdz_secret::<MF>(s, t);
    let (ec, eu) = (embed::<MF>(c), embed::<MF>(u));
    MF::PrimeField::law_closed(s.share, t.share);
    MF::PrimeField::law_closed(s.share, c);
    MF::PrimeField::law_closed(t.share, c);
    MF::law_closed(s.mac, MF::times(ks, ec));
    MF::law_closed(t.mac, MF::times(kt, ec));
    MF::PrimeField::law_plus_assoc(s.share, t.share, c);
    MF::PrimeField::law_plus_assoc(s.share, c, t.share);
    MF::PrimeField::law_plus_comm(c, t.share);
    lemma_plus_swap::<MF>(s.mac, MF::times(ks, ec), t.mac, MF::times(kt, ec));
    lemma_distributive_left::<MF>(ks, kt, ec);
    lemma_embed::<MF>(u, c);
    MF::law_distributive(alpha, eu, ec);
}

/// The agreed part of the bit zero holds nothing, and that of an exclusive or is the
/// sum of the two parts.
pub proof fn law_spdz_bit_parts(a: SpdzView, b: SpdzView)
    ensures
        SpdzBitShare::zero_view() == (SpdzView { share: 0, mac: 0 }),
        SpdzBitShare::sum_view(a, b) == (SpdzView {
            share: F2::plus(a.share, b.share),
            mac: F40b::plus(a.mac, b.mac),
        }),
{
}

impl BitShare for SpdzAuthenticatedShare<F40b> {
    open spec fn zero_view() -> SpdzView {
        spdz_zero()
    }

    open spec fn sum_view(a: SpdzView, b: SpdzView) -> SpdzView {
        spdz_sum::<F40b>(a, b)
    }

    open spec fn matching(s: SpdzView, t: SpdzView, ks: int, kt: int) -> bool {
        spdz_paired::<F40b>(s, t, ks, kt)
    }

    open spec fn shared_bit(s: SpdzView, t: SpdzView) -> bool {
        spdz_secret::<F40b>(s, t) == 1
    }

    proof fn law_zero_bit(ks: int, kt: int) {
        law_spdz_zero::<F40b>(ks, kt);
    }

    proof fn law_sum_bit(
        s1: SpdzView,
        t1: SpdzView,
        s2: SpdzView,
        t2: SpdzView,
        ks: int,
        kt: int,
    ) {
        law_spdz_sum::<F40b>(s1, t1, s2, t2, ks, kt);
        F2::law_closed(s1.share, t1.share);
        F2::law_closed(s2.share, t2.share);
    }

    fn zero_bit() -> (r: Self) {
        SpdzAuthenticatedShare::new(F2::zero(), F40b::zero())
    }

    fn xor(self, other: Self) -> (r: Self) {
        SpdzAuthenticatedShare::new(self.share.add(other.share), self.mac.add(other.mac))
    }
}

/// The share of a sum.
pub fn add_spdz_shares<MF: FiniteField>(
    lhs: SpdzAuthenticatedShare<MF>,
    rhs: SpdzAuthenticatedShare<MF>,
) -> (r: SpdzAuthenticatedShare<MF>)
    ensures
        r@ == spdz_sum::<MF>(lhs@, rhs@),
        r@.share == MF::PrimeField::plus(lhs@.share, rhs@.share),
        r@.mac == MF::plus(lhs@.mac, rhs@.mac),
{
    SpdzAuthenticatedShare::new(lhs.share.add(rhs.share), lhs.mac.add(rhs.mac))
}

} // verus!
