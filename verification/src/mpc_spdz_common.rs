//! SPDZ-style authenticated shares between two peers: input, and opening with a
//! MAC check.
//!
//! Each function is the computation between two exchanges with the other peer.

use crate::bit_adder::seq_views;
use crate::bits::least;
use crate::copee::{
    all_canonical, bit_total, corrections, full_weight, law_copee, lift_prime_to_field, selected,
    SpdzCopeeReceiver, SpdzCopeeSender,
};
use crate::errors::EdabitsError;
use crate::f40b::F40b;
use crate::field::{field_vals, minus, power, FiniteField, FiniteRing, PrimeRing};
use crate::mpc_spdz_conv::{spdz_paired, spdz_secret, SpdzAuthenticatedShare, SpdzView};
use crate::prime_fields::F2;
use crate::ring::{
    embed, lemma_distributive_left, lemma_distributive_minus, lemma_minus_plus, lemma_plus_minus,
    lemma_plus_swap, lemma_times_zero, lemma_zero_plus,
};
use crate::serialization::{
    element_bytes, from_bytes, law_number_roundtrip, nat_of_bytes, to_bytes, CanonicalSerialize,
    FromBytesError,
};
use vstd::prelude::*;

verus! {

/// One peer's keys for a field: its share of the MAC key, and both sides of the
/// correlated products with the MAC keys.
pub struct SpdzFieldBackend<MF: FiniteField> {
    pub alpha_share: MF,
    pub outbound: SpdzCopeeSender<MF>,
    pub inbound: SpdzCopeeReceiver<MF>,
}

/// The owner's share of a value of which the other peer gets `remote`, where
/// `term` is what the owner keeps of the correlated product.
pub open spec fn owned_share<MF: FiniteField>(
    alpha: int,
    value: int,
    remote: int,
    term: int,
) -> SpdzView {
    SpdzView {
        share: minus::<MF::PrimeField>(value, remote),
        mac: MF::plus(MF::times(alpha, embed::<MF>(value)), term),
    }
}

/// The other peer's share, where `term` is what it received of the correlated
/// product.
pub open spec fn received_share<MF: FiniteField>(share: int, term: int) -> SpdzView {
    SpdzView { share, mac: MF::opposite(term) }
}

impl<MF: FiniteField> SpdzFieldBackend<MF> {
    /// The keys of a peer that has drawn its share of the MAC key.
    pub fn init(alpha_share: MF) -> (r: Self)
        ensures
            r.alpha_share == alpha_share,
            r.inbound.bits() == MF::bits_of(alpha_share.val()),
            r.inbound.counter() == 0,
            r.outbound.counter() == 0,
    {
        SpdzFieldBackend {
            alpha_share,
            outbound: SpdzCopeeSender::init(),
            inbound: SpdzCopeeReceiver::init_with_delta(alpha_share),
        }
    }

    /// This peer's share of the MAC key.
    pub fn alpha_share(&self) -> (r: MF)
        ensures
            r == self.alpha_share,
    {
        self.alpha_share
    }

    /// The shares of values that this peer owns, from the other peer's shares
    /// and what this peer keeps of the correlated products.
    pub fn input_owned_values(
        &self,
        values: &[MF::PrimeField],
        remote_shares: &[MF::PrimeField],
        peer_terms: &[MF],
    ) -> (r: Vec<SpdzAuthenticatedShare<MF>>)
        requires
            remote_shares@.len() == values@.len(),
            peer_terms@.len() == values@.len(),
        ensures
            r@.len() == values@.len(),
            forall|i: int|
                0 <= i < r@.len() ==> (#[trigger] r@[i])@ == owned_share::<MF>(
                    self.alpha_share.val(),
                    values@[i].val(),
                    remote_shares@[i].val(),
                    peer_terms@[i].val(),
                ),
            forall|i: int|
                0 <= i < r@.len() ==> {
                    &&& (#[trigger] r@[i])@.share == minus::<MF::PrimeField>(
                        values@[i].val(),
                        remote_shares@[i].val(),
                    )
                    &&& r@[i]@.mac == MF::plus(
                        MF::times(self.alpha_share.val(), embed::<MF>(values@[i].val())),
                        peer_terms@[i].val(),
                    )
                },
    {
        let mut out: Vec<SpdzAuthenticatedShare<MF>> = Vec::new();
        let mut i: usize = 0;
        while i < values.len()
            invariant
                i <= values.len(),
                remote_shares@.len() == values@.len(),
                peer_terms@.len() == values@.len(),
                out@.len() == i,
                forall|j: int|
                    0 <= j < i ==> (#[trigger] out@[j])@ == owned_share::<MF>(
                        self.alpha_share.val(),
                        values@[j].val(),
                        remote_shares@[j].val(),
                        peer_terms@[j].val(),
                    ),
            decreases values.len() - i,
        {
            let mac = self.alpha_share.mul(lift_prime_to_field::<MF>(values[i])).add(peer_terms[i]);
            out.push(SpdzAuthenticatedShare::new(values[i].sub(remote_shares[i]), mac));
            i = i + 1;
        }
        out
    }

    /// The shares of values that the other peer owns, from what was received.
    pub fn receive_shared_values(
        &self,
        local_shares: &[MF::PrimeField],
        peer_terms: &[MF],
    ) -> (r: Vec<SpdzAuthenticatedShare<MF>>)
        ensures
            r@.len() == least(local_shares@.len() as int, peer_terms@.len() as int),
            forall|i: int|
                0 <= i < r@.len() ==> (#[trigger] r@[i])@ == received_share::<MF>(
                    local_shares@[i].val(),
                    peer_terms@[i].val(),
                ),
            forall|i: int|
                0 <= i < r@.len() ==> {
                    &&& (#[trigger] r@[i])@.share == local_shares@[i].val()
                    &&& r@[i]@.mac == MF::opposite(peer_terms@[i].val())
                },
    {
        let mut out: Vec<SpdzAuthenticatedShare<MF>> = Vec::new();
        let mut i: usize = 0;
        while i < local_shares.len() && i < peer_terms.len()
            invariant
                i <= local_shares.len(),
                i <= peer_terms.len(),
                out@.len() == i,
                forall|j: int|
                    0 <= j < i ==> (#[trigger] out@[j])@ == received_share::<MF>(
                        local_shares@[j].val(),
                        peer_terms@[j].val(),
                    ),
            decreases local_shares.len() - i,
        {
            out.push(SpdzAuthenticatedShare::new(local_shares[i], peer_terms[i].neg()));
            i = i + 1;
        }
        out
    }

    /// This peer's part of the MAC check on opened values: the sum of what each
    /// MAC share is off, weighted by the powers of `chi`.
    pub fn mac_check(
        &self,
        shares: &[SpdzAuthenticatedShare<MF>],
        opened: &[MF::PrimeField],
        chi: MF,
    ) -> (r: MF)
        ensures
            r.val() == mac_check_sum::<MF>(
                self.alpha_share.val(),
                seq_views(shares@),
                field_vals(opened@),
                chi.val(),
                least(shares@.len() as int, opened@.len() as int) as nat,
            ),
    {
        let mut coeff = MF::one();
        let mut sum = MF::zero();
        let mut i: usize = 0;
        while i < shares.len() && i < opened.len()
            invariant
                i <= shares.len(),
                i <= opened.len(),
                coeff.val() == power::<MF>(chi.val(), i as nat),
                sum.val() == mac_check_sum::<MF>(
                    self.alpha_share.val(),
                    seq_views(shares@),
                    field_vals(opened@),
                    chi.val(),
                    i as nat,
                ),
            decreases shares.len() - i,
        {
            let expected = self.alpha_share.mul(lift_prime_to_field::<MF>(opened[i]));
            sum = sum.add(coeff.mul(shares[i].mac.sub(expected)));
            coeff = coeff.mul(chi);
            i = i + 1;
        }
        sum
    }
}

/// What the MAC shares of one peer are off by, over the first `n` opened values,
/// weighted by the powers of `chi`.
pub open spec fn mac_check_sum<MF: FiniteField>(
    alpha: int,
    shares: Seq<SpdzView>,
    opened: Seq<int>,
    chi: int,
    n: nat,
) -> int
    decreases n,
{
    if n == 0 {
        0
    } else {
        MF::plus(
            mac_check_sum::<MF>(alpha, shares, opened, chi, (n - 1) as nat),
            MF::times(
                power::<MF>(chi, (n - 1) as nat),
                minus::<MF>(
                    shares[n - 1].mac,
                    MF::times(alpha, embed::<MF>(opened[n - 1])),
                ),
            ),
        )
    }
}

/// What the first `n` opened values are off the shared ones by, weighted by the
/// powers of `chi`.
pub open spec fn opening_error<MF: FiniteField>(
    s: Seq<SpdzView>,
    t: Seq<SpdzView>,
    opened: Seq<int>,
    chi: int,
    n: nat,
) -> int
    decreases n,
{
    if n == 0 {
        0
    } else {
        MF::plus(
            opening_error::<MF>(s, t, opened, chi, (n - 1) as nat),
            MF::times(
                power::<MF>(chi, (n - 1) as nat),
                minus::<MF>(
                    embed::<MF>(spdz_secret::<MF>(s[n - 1], t[n - 1])),
                    embed::<MF>(opened[n - 1]),
                ),
            ),
        )
    }
}

/// The MAC check adds up to the MAC key times what the opened values are off by:
/// it passes whenever the values were opened to what the peers share.
pub proof fn law_mac_check<MF: FiniteField>(
    ks: int,
    kt: int,
    s: Seq<SpdzView>,
    t: Seq<SpdzView>,
    opened: Seq<int>,
    chi: int,
    n: nat,
)
    requires
        n <= s.len(),
        n <= t.len(),
        n <= opened.len(),
        forall|i: int| 0 <= i < n ==> spdz_paired::<MF>(#[trigger] s[i], t[i], ks, kt),
    ensures
        MF::plus(
            mac_check_sum::<MF>(ks, s, opened, chi, n),
            mac_check_sum::<MF>(kt, t, opened, chi, n),
        ) == MF::times(MF::plus(ks, kt), opening_error::<MF>(s, t, opened, chi, n)),
        (forall|i: int|
            0 <= i < n ==> #[trigger] opened[i] == spdz_secret::<MF>(s[i], t[i])) ==> MF::plus(
            mac_check_sum::<MF>(ks, s, opened, chi, n),
            mac_check_sum::<MF>(kt, t, opened, chi, n),
        ) == 0,
    decreases n,
{
    let alpha = MF::plus(ks, kt);
    MF::law_order();
    lemma_zero_plus::<MF>(0);
    lemma_times_zero::<MF>(alpha);
    if n > 0 {
        let j = (n - 1) as nat;
        law_mac_check::<MF>(ks, kt, s, t, opened, chi, j);
        assert(spdz_paired::<MF>(s[j as int], t[j as int], ks, kt));
        let p = power::<MF>(chi, j);
        let v = embed::<MF>(opened[j as int]);
        let u = embed::<MF>(spdz_secret::<MF>(s[j as int], t[j as int]));
        let (ms, mt) = (s[j as int].mac, t[j as int].mac);
        let (es, et) = (minus::<MF>(ms, MF::times(ks, v)), minus::<MF>(mt, MF::times(kt, v)));
        lemma_plus_swap::<MF>(
            mac_check_sum::<MF>(ks, s, opened, chi, j),
            MF::times(p, es),
            mac_check_sum::<MF>(kt, t, opened, chi, j),
            MF::times(p, et),
        );
        MF::law_distributive(p, es, et);
        lemma_minus_plus::<MF>(ms, mt, MF::times(ks, v), MF::times(kt, v));
        lemma_distributive_left::<MF>(ks, kt, v);
        lemma_distributive_minus::<MF>(alpha, u, v);
        let diff = minus::<MF>(u, v);
        assert(MF::plus(es, et) == MF::times(alpha, diff));
        MF::law_times_assoc(p, alpha, diff);
        MF::law_times_comm(p, alpha);
        MF::law_times_assoc(alpha, p, diff);
        MF::law_distributive(
            alpha,
            opening_error::<MF>(s, t, opened, chi, j),
            MF::times(p, diff),
        );
        if forall|i: int|
            0 <= i < n ==> #[trigger] opened[i] == spdz_secret::<MF>(s[i], t[i]) {
            assert(opened[j as int] == spdz_secret::<MF>(s[j as int], t[j as int]));
            MF::law_plus_opposite(u);
            lemma_times_zero::<MF>(p);
        }
    }
}

proof fn lemma_one_error<MF: FiniteField>(
    s: Seq<SpdzView>,
    t: Seq<SpdzView>,
    opened: Seq<int>,
    chi: int,
    k: int,
    n: nat,
)
    requires
        0 <= k,
        forall|i: int|
            0 <= i < n && i != k ==> #[trigger] opened[i] == spdz_secret::<MF>(s[i], t[i]),
    ensures
        opening_error::<MF>(s, t, opened, chi, n) == (if k < n {
            MF::times(
                power::<MF>(chi, k as nat),
                minus::<MF>(
                    embed::<MF>(spdz_secret::<MF>(s[k], t[k])),
                    embed::<MF>(opened[k]),
                ),
            )
        } else {
            0
        }),
    decreases n,
{
    if n > 0 {
        let j = (n - 1) as nat;
        lemma_one_error::<MF>(s, t, opened, chi, k, j);
        let p = power::<MF>(chi, j);
        let u = embed::<MF>(spdz_secret::<MF>(s[j as int], t[j as int]));
        let v = embed::<MF>(opened[j as int]);
        let term = MF::times(p, minus::<MF>(u, v));
        MF::law_closed(p, minus::<MF>(u, v));
        if j == k {
            lemma_zero_plus::<MF>(term);
        } else {
            MF::law_plus_opposite(u);
            lemma_times_zero::<MF>(p);
            if k < j {
                let q = power::<MF>(chi, k as nat);
                let diff = minus::<MF>(
                    embed::<MF>(spdz_secret::<MF>(s[k], t[k])),
                    embed::<MF>(opened[k]),
                );
                MF::law_closed(q, diff);
                MF::law_plus_zero(MF::times(q, diff));
            } else {
                MF::law_order();
                lemma_zero_plus::<MF>(0);
            }
        }
    }
}

/// Where just one of the opened values may be wrong, the two parts of the MAC
/// check add up to the MAC key times what that value is off by, weighted by the
/// power of `chi` that belongs to its position.
pub proof fn law_mac_check_one_wrong<MF: FiniteField>(
    ks: int,
    kt: int,
    s: Seq<SpdzView>,
    t: Seq<SpdzView>,
    opened: Seq<int>,
    chi: int,
    k: int,
)
    requires
        s.len() == t.len(),
        opened.len() == s.len(),
        0 <= k < s.len(),
        forall|i: int| 0 <= i < s.len() ==> spdz_paired::<MF>(#[trigger] s[i], t[i], ks, kt),
        forall|i: int|
            0 <= i < s.len() && i != k ==> #[trigger] opened[i] == spdz_secret::<MF>(s[i], t[i]),
    ensures
        MF::plus(
            mac_check_sum::<MF>(ks, s, opened, chi, s.len()),
            mac_check_sum::<MF>(kt, t, opened, chi, s.len()),
        ) == MF::times(
            MF::plus(ks, kt),
            MF::times(
                power::<MF>(chi, k as nat),
                minus::<MF>(
                    embed::<MF>(spdz_secret::<MF>(s[k], t[k])),
                    embed::<MF>(opened[k]),
                ),
            ),
        ),
{
    law_mac_check::<MF>(ks, kt, s, t, opened, chi, s.len());
    lemma_one_error::<MF>(s, t, opened, chi, k, s.len());
}

/// A peer's part of the MAC check is the sum of what its MAC shares are off by: one
/// more opened value adds what the MAC share of it is off its MAC key share times the
/// value, weighted by the next power of `chi`.
pub proof fn law_mac_check_parts<MF: FiniteField>(
    alpha: int,
    shares: Seq<SpdzView>,
    opened: Seq<int>,
    chi: int,
    n: nat,
)
    ensures
        mac_check_sum::<MF>(alpha, shares, opened, chi, 0) == 0,
        mac_check_sum::<MF>(alpha, shares, opened, chi, n + 1) == MF::plus(
            mac_check_sum::<MF>(alpha, shares, opened, chi, n),
            MF::times(
                power::<MF>(chi, n),
                minus::<MF>(
                    shares[n as int].mac,
                    MF::times(alpha, embed::<MF>(opened[n as int])),
                ),
            ),
        ),
{
}

/// Values that one peer shares are shared values, where the other peer received
/// of each correlated product what is left of it after the product of its MAC
/// key share with the value.
pub proof fn law_spdz_input<MF: FiniteField>(
    ks: int,
    kt: int,
    value: int,
    remote: int,
    term_s: int,
    term_t: int,
)
    requires
        0 <= value < MF::PrimeField::order(),
        0 <= remote < MF::PrimeField::order(),
        term_t == minus::<MF>(term_s, MF::times(kt, embed::<MF>(value))),
    ensures
        spdz_paired::<MF>(
            owned_share::<MF>(ks, value, remote, term_s),
            received_share::<MF>(remote, term_t),
            ks,
            kt,
        ),
        spdz_secret::<MF>(
            owned_share::<MF>(ks, value, remote, term_s),
            received_share::<MF>(remote, term_t),
        ) == value,
{
    let e = embed::<MF>(value);
    let (a, b) = (MF::times(ks, e), MF::times(kt, e));
    MF::PrimeField::law_closed(value, MF::PrimeField::opposite(remote));
    lemma_plus_minus::<MF::PrimeField>(value, remote);
    MF::law_closed(a, term_s);
    MF::law_closed(term_t, 0);
    MF::law_closed(kt, e);
    lemma_distributive_left::<MF>(ks, kt, e);
    crate::ring::lemma_opposite_plus::<MF>(term_s, MF::opposite(b));
    crate::ring::lemma_opposite_opposite::<MF>(b);
    let nt = MF::opposite(term_s);
    MF::law_plus_comm(nt, b);
    lemma_plus_swap::<MF>(a, term_s, b, nt);
    MF::law_plus_opposite(term_s);
    MF::law_closed(a, b);
    lemma_zero_plus::<MF>(MF::plus(a, b));
}

/// Sharing by correlated products: when the owner sends a value, and the other
/// peer receives it by its share of the MAC key, they end up with valid shares of
/// the value.
pub proof fn law_spdz_sharing<MF: FiniteField>(
    ks: int,
    kt: int,
    value: int,
    remote: int,
    w0: Seq<int>,
    w1: Seq<int>,
)
    requires
        0 <= kt < MF::order(),
        0 <= value < MF::PrimeField::order(),
        0 <= remote < MF::PrimeField::order(),
        w0.len() == bit_total::<MF>(),
        w1.len() == bit_total::<MF>(),
        all_canonical::<MF>(w0),
        all_canonical::<MF>(w1),
    ensures
        ({
            let bits = MF::bits_of(kt);
            let w = Seq::new(
                w0.len(),
                |k: int|
                    if bits[k] {
                        w1[k]
                    } else {
                        w0[k]
                    },
            );
            let received = full_weight::<MF>(
                selected::<MF>(bits, w, corrections::<MF>(w0, w1, value)),
            );
            let s = owned_share::<MF>(ks, value, remote, full_weight::<MF>(w0));
            let t = received_share::<MF>(remote, received);
            &&& spdz_paired::<MF>(s, t, ks, kt)
            &&& spdz_secret::<MF>(s, t) == value
        }),
{
    law_copee::<MF>(kt, w0, w1, value);
    let bits = MF::bits_of(kt);
    let w = Seq::new(
        w0.len(),
        |k: int|
            if bits[k] {
                w1[k]
            } else {
                w0[k]
            },
    );
    let received = full_weight::<MF>(selected::<MF>(bits, w, corrections::<MF>(w0, w1, value)));
    law_spdz_input::<MF>(ks, kt, value, remote, full_weight::<MF>(w0), received);
}

/// The element that two peers draw together.
pub fn joint_field<F: FiniteRing>(local: F, remote: F) -> (r: F)
    ensures
        r.val() == F::plus(local.val(), remote.val()),
{
    local.add(remote)
}

/// Both peers get the same element.
pub proof fn law_joint_field<F: FiniteRing>(a: int, b: int)
    ensures
        F::plus(a, b) == F::plus(b, a),
{
    F::law_plus_comm(a, b);
}

/// The shares of a batch, which the peers exchange to open it.
pub fn share_values<MF: FiniteField>(shares: &[SpdzAuthenticatedShare<MF>]) -> (r: Vec<
    MF::PrimeField,
>)
    ensures
        r@ == Seq::new(shares@.len(), |i: int| shares@[i].share),
{
    let mut out: Vec<MF::PrimeField> = Vec::new();
    let mut i: usize = 0;
    while i < shares.len()
        invariant
            i <= shares.len(),
            out@.len() == i,
            forall|j: int| 0 <= j < i ==> #[trigger] out@[j] == shares@[j].share,
        decreases shares.len() - i,
    {
        out.push(shares[i].share);
        i = i + 1;
    }
    assert(out@ =~= Seq::new(shares@.len(), |i: int| shares@[i].share));
    out
}

/// What a batch opens to, from the shares of both peers.
pub open spec fn opened_sums<F: FiniteRing>(local: Seq<int>, remote: Seq<int>) -> Seq<int> {
    Seq::new(
        least(local.len() as int, remote.len() as int) as nat,
        |i: int| F::plus(local[i], remote[i]),
    )
}

/// The opened values, from the shares of both peers.
pub fn opened_values<F: FiniteRing>(local: &[F], remote: &[F]) -> (r: Vec<F>)
    ensures
        r@.len() == least(local@.len() as int, remote@.len() as int),
        forall|i: int|
            0 <= i < r@.len() ==> (#[trigger] r@[i]).val() == F::plus(
                local@[i].val(),
                remote@[i].val(),
            ),
        field_vals(r@) == opened_sums::<F>(field_vals(local@), field_vals(remote@)),
{
    let mut out: Vec<F> = Vec::new();
    let mut i: usize = 0;
    while i < local.len() && i < remote.len()
        invariant
            i <= local.len(),
            i <= remote.len(),
            out@.len() == i,
            forall|j: int|
                0 <= j < i ==> (#[trigger] out@[j]).val() == F::plus(
                    local@[j].val(),
                    remote@[j].val(),
                ),
        decreases local.len() - i,
    {
        out.push(local[i].add(remote[i]));
        i = i + 1;
    }
    assert(field_vals(out@) =~= opened_sums::<F>(field_vals(local@), field_vals(remote@)));
    out
}

/// Accepts opened bits where the two parts of the MAC check cancel out.
pub fn open_shared_bit_batch(opened: Vec<F2>, local_check: F40b, remote_check: F40b) -> (r: Result<
    Vec<F2>,
    EdabitsError,
>)
    ensures
        r == (if F40b::plus(local_check.val(), remote_check.val()) == 0 {
            Ok::<Vec<F2>, EdabitsError>(opened)
        } else {
            Err(EdabitsError::BitMacCheck)
        }),
{
    if local_check.add(remote_check).equals(F40b::zero()) {
        Ok(opened)
    } else {
        Err(EdabitsError::BitMacCheck)
    }
}

/// Accepts opened field values where the two parts of the MAC check cancel out.
pub fn open_shared_field_batch<FE: FiniteField>(
    opened: Vec<FE::PrimeField>,
    local_check: FE,
    remote_check: FE,
) -> (r: Result<Vec<FE::PrimeField>, EdabitsError>)
    ensures
        r == (if FE::plus(local_check.val(), remote_check.val()) == 0 {
            Ok::<Vec<FE::PrimeField>, EdabitsError>(opened)
        } else {
            Err(EdabitsError::FieldMacCheck)
        }),
{
    if local_check.add(remote_check).equals(FE::zero()) {
        Ok(opened)
    } else {
        Err(EdabitsError::FieldMacCheck)
    }
}

/// The bytes of an element at the start of a block of sixteen, zeros after them.
pub open spec fn element_block<F: CanonicalSerialize>(a: int) -> Seq<u8> {
    Seq::new(
        16,
        |i: int|
            if i < F::byte_count() {
                element_bytes::<F>(a)[i]
            } else {
                0u8
            },
    )
}

/// The number that the first bytes of a block denote, as many as an element has.
pub open spec fn block_number<F: CanonicalSerialize>(block: Seq<u8>) -> nat {
    nat_of_bytes(block.take(F::byte_count() as int))
}

/// The block that an element is sent as.
pub fn field_to_block<F: CanonicalSerialize>(value: F) -> (r: [u8; 16])
    ensures
        r@ == element_block::<F>(value.val()),
        forall|i: int|
            0 <= i < F::byte_count() ==> #[trigger] r@[i] == element_bytes::<F>(value.val())[i],
        forall|i: int| F::byte_count() <= i < 16 ==> #[trigger] r@[i] == 0,
{
    proof {
        F::law_byte_count();
    }
    let repr = to_bytes(value);
    let mut block: [u8; 16] = [0u8;16];
    let mut i: usize = 0;
    while i < repr.len()
        invariant
            i <= repr.len(),
            repr@.len() <= 16,
            forall|j: int|
                0 <= j < 16 ==> #[trigger] block@[j] == (if j < i {
                    repr@[j]
                } else {
                    0u8
                }),
        decreases repr.len() - i,
    {
        block[i] = repr[i];
        i = i + 1;
    }
    assert(block@ =~= element_block::<F>(value.val()));
    block
}

/// The element that was sent as a block.
pub fn block_to_field<F: CanonicalSerialize>(block: &[u8; 16]) -> (r: Result<F, FromBytesError>)
    ensures
        r is Ok <==> block_number::<F>(block@) < F::order(),
        r matches Ok(element) ==> element.val() == block_number::<F>(block@),
        r is Ok <==> nat_of_bytes(block@.take(F::byte_count() as int)) < F::order(),
        r matches Ok(element) ==> element.val() == nat_of_bytes(
            block@.take(F::byte_count() as int),
        ),
{
    proof {
        F::law_byte_count();
    }
    let len: usize = F::byte_repr_len();
    let mut repr: Vec<u8> = Vec::new();
    let mut i: usize = 0;
    while i < len
        invariant
            i <= len,
            len <= 16,
            repr@ == block@.take(i as int),
        decreases len - i,
    {
        assert(block@.take(i as int + 1) =~= block@.take(i as int).push(block@[i as int]));
        repr.push(block[i]);
        i = i + 1;
    }
    from_bytes(repr.as_slice())
}

/// An element is recovered from its block.
pub proof fn law_block_roundtrip<F: CanonicalSerialize>(element: F)
    ensures
        block_number::<F>(element_block::<F>(element.val())) == element.val(),
        block_number::<F>(element_block::<F>(element.val())) < F::order(),
{
    element.law_val();
    F::law_byte_count();
    law_number_roundtrip(element.val() as nat, F::byte_count());
    assert(element_block::<F>(element.val()).take(F::byte_count() as int) =~= element_bytes::<F>(
        element.val(),
    ));
}

} // verus!
