//! Products of SPDZ-shared bits: by triples, and by oblivious transfer.

use crate::bit_adder::{
    adders_agree, left_factor, lemma_factors_match, product_matches, right_factor, AdderView,
};
use crate::bits::{f2_to_fe, least};
use crate::f40b::F40b;
use crate::field::{minus, FiniteField, FiniteRing, PrimeRing};
use crate::homcom::scale;
use crate::mpc_conv::copy_slice;
use crate::mpc_homcom::PeerRole;
use crate::mpc_spdz_conv::{
    add_spdz_shares, law_spdz_multiple, law_spdz_shifted, law_spdz_sum, spdz_canonical,
    spdz_multiple, spdz_paired, spdz_secret, spdz_shifted, spdz_sum, SpdzAuthenticatedShare,
    SpdzBitShare, SpdzView,
};
use crate::prime_fields::F2;
use crate::ring::{
    embed, lemma_embed, lemma_one_times, lemma_plus_swap, lemma_times_zero, lemma_zero_plus,
};
use vstd::prelude::*;

verus! {

/// What a peer holds of a multiplication triple.
pub struct SpdzTripleView {
    pub a: SpdzView,
    pub b: SpdzView,
    pub c: SpdzView,
}

/// One peer's part of three shared bits, the third of which is the product of
/// the first two.
#[derive(Clone, Copy)]
pub struct SpdzSharedBitTriple {
    pub a: SpdzBitShare,
    pub b: SpdzBitShare,
    pub c: SpdzBitShare,
}

impl View for SpdzSharedBitTriple {
    type V = SpdzTripleView;

    open spec fn view(&self) -> SpdzTripleView {
        SpdzTripleView { a: self.a@, b: self.b@, c: self.c@ }
    }
}

/// Whether two peers hold the two parts of a triple.
pub open spec fn spdz_triple_paired(
    s: SpdzTripleView,
    t: SpdzTripleView,
    ks: int,
    kt: int,
) -> bool {
    &&& spdz_paired::<F40b>(s.a, t.a, ks, kt)
    &&& spdz_paired::<F40b>(s.b, t.b, ks, kt)
    &&& spdz_paired::<F40b>(s.c, t.c, ks, kt)
    &&& spdz_secret::<F40b>(s.c, t.c) == F2::times(
        spdz_secret::<F40b>(s.a, t.a),
        spdz_secret::<F40b>(s.b, t.b),
    )
}

/// The share of the product of two shared bits that were opened as `d` and `e`
/// after the bits `a` and `b` of the triple had been added to them:
/// `c + d * b + e * a + d * e`.
pub open spec fn spdz_product_share(
    role: PeerRole,
    alpha: int,
    t: SpdzTripleView,
    d: int,
    e: int,
) -> SpdzView {
    let sum = spdz_sum::<F40b>(
        spdz_sum::<F40b>(t.c, spdz_multiple::<F40b>(d, t.b)),
        spdz_multiple::<F40b>(e, t.a),
    );
    if F2::times(d, e) == 1 {
        spdz_shifted::<F40b>(role, alpha, sum, 1)
    } else {
        sum
    }
}

/// Adding a multiple by a bit is adding or not.
proof fn lemma_spdz_bit_multiple<MF: FiniteField>(s: SpdzView, t: SpdzView)
    requires
        spdz_canonical::<MF>(s),
        spdz_canonical::<MF>(t),
    ensures
        spdz_multiple::<MF>(1, s) == s,
        spdz_sum::<MF>(t, spdz_multiple::<MF>(0, s)) == t,
{
    MF::PrimeField::law_order();
    lemma_embed::<MF>(0, 0);
    lemma_one_times::<MF>(s.mac);
    lemma_one_times::<MF::PrimeField>(s.share);
    lemma_times_zero::<MF>(s.mac);
    lemma_times_zero::<MF::PrimeField>(s.share);
    lemma_zero_plus::<MF>(t.mac);
    lemma_zero_plus::<MF::PrimeField>(t.share);
}

/// The share of the exclusive or of a bit and a public one.
pub fn add_bit_const(role: PeerRole, alpha_share: F40b, share: SpdzBitShare, cst: F2) -> (r:
    SpdzBitShare)
    ensures
        r@ == spdz_shifted::<F40b>(role, alpha_share.val(), share@, cst.val()),
        role is First ==> r@.share == F2::plus(share@.share, cst.val()),
        role is Second ==> r@.share == share@.share,
        r@.mac == F40b::plus(
            share@.mac,
            F40b::times(alpha_share.val(), embed::<F40b>(cst.val())),
        ),
{
    let value = if role.is_first() {
        share.share.add(cst)
    } else {
        share.share
    };
    let mac = share.mac.add(
        alpha_share.mul(crate::copee::lift_prime_to_field::<F40b>(cst)),
    );
    SpdzAuthenticatedShare::new(value, mac)
}

/// The bits that the peers open to multiply: each factor plus the matching bit
/// of a triple.
pub fn spdz_multiplication_masks(
    lhs: &[SpdzBitShare],
    rhs: &[SpdzBitShare],
    triples: &[SpdzSharedBitTriple],
) -> (r: (Vec<SpdzBitShare>, Vec<SpdzBitShare>))
    ensures
        r.0@.len() == least(lhs@.len() as int, triples@.len() as int),
        r.1@.len() == least(rhs@.len() as int, triples@.len() as int),
        forall|i: int|
            0 <= i < r.0@.len() ==> (#[trigger] r.0@[i])@ == spdz_sum::<F40b>(
                lhs@[i]@,
                triples@[i]@.a,
            ),
        forall|i: int|
            0 <= i < r.1@.len() ==> (#[trigger] r.1@[i])@ == spdz_sum::<F40b>(
                rhs@[i]@,
                triples@[i]@.b,
            ),
{
    let mut d_masks: Vec<SpdzBitShare> = Vec::new();
    let mut i: usize = 0;
    while i < lhs.len() && i < triples.len()
        invariant
            i <= lhs.len(),
            i <= triples.len(),
            d_masks@.len() == i,
            forall|j: int|
                0 <= j < i ==> (#[trigger] d_masks@[j])@ == spdz_sum::<F40b>(
                    lhs@[j]@,
                    triples@[j]@.a,
                ),
        decreases lhs.len() - i,
    {
        d_masks.push(add_spdz_shares(lhs[i], triples[i].a));
        i = i + 1;
    }
    let mut e_masks: Vec<SpdzBitShare> = Vec::new();
    let mut k: usize = 0;
    while k < rhs.len() && k < triples.len()
        invariant
            k <= rhs.len(),
            k <= triples.len(),
            e_masks@.len() == k,
            forall|j: int|
                0 <= j < k ==> (#[trigger] e_masks@[j])@ == spdz_sum::<F40b>(
                    rhs@[j]@,
                    triples@[j]@.b,
                ),
        decreases rhs.len() - k,
    {
        e_masks.push(add_spdz_shares(rhs[k], triples[k].b));
        k = k + 1;
    }
    (d_masks, e_masks)
}

/// The shares of the products, from the opened masks.
pub fn multiply_shared_bits_with_triples(
    role: PeerRole,
    alpha_share: F40b,
    triples: &[SpdzSharedBitTriple],
    d_values: &[F2],
    e_values: &[F2],
) -> (r: Vec<SpdzBitShare>)
    ensures
        r@.len() == least(
            triples@.len() as int,
            least(d_values@.len() as int, e_values@.len() as int),
        ),
        forall|i: int|
            0 <= i < r@.len() ==> (#[trigger] r@[i])@ == spdz_product_share(
                role,
                alpha_share.val(),
                triples@[i]@,
                d_values@[i].val(),
                e_values@[i].val(),
            ),
        forall|i: int|
            0 <= i < r@.len() ==> ({
                let sum = spdz_sum::<F40b>(
                    spdz_sum::<F40b>(
                        triples@[i].c@,
                        spdz_multiple::<F40b>(d_values@[i].val(), triples@[i].b@),
                    ),
                    spdz_multiple::<F40b>(e_values@[i].val(), triples@[i].a@),
                );
                (#[trigger] r@[i])@ == (if d_values@[i].val() == 1 && e_values@[i].val() == 1 {
                    spdz_shifted::<F40b>(role, alpha_share.val(), sum, 1)
                } else {
                    sum
                })
            }),
{
    let mut out: Vec<SpdzBitShare> = Vec::new();
    let mut i: usize = 0;
    while i < triples.len() && i < d_values.len() && i < e_values.len()
        invariant
            i <= triples.len(),
            i <= d_values.len(),
            i <= e_values.len(),
            out@.len() == i,
            forall|j: int|
                0 <= j < i ==> (#[trigger] out@[j])@ == spdz_product_share(
                    role,
                    alpha_share.val(),
                    triples@[j]@,
                    d_values@[j].val(),
                    e_values@[j].val(),
                ),
        decreases triples.len() - i,
    {
        let triple = triples[i];
        let d = d_values[i];
        let e = e_values[i];
        let mut product = triple.c;
        proof {
            triple.a.lemma_canonical();
            triple.b.lemma_canonical();
            triple.c.lemma_canonical();
            lemma_spdz_bit_multiple::<F40b>(triple.b@, triple.c@);
        }
        if d.equals(F2::one()) {
            product = add_spdz_shares(product, triple.b);
        }
        proof {
            product.lemma_canonical();
            lemma_spdz_bit_multiple::<F40b>(triple.a@, product@);
        }
        if e.equals(F2::one()) {
            product = add_spdz_shares(product, triple.a);
        }
        if d.mul(e).equals(F2::one()) {
            product = add_bit_const(role, alpha_share, product, F2::one());
        }
        out.push(product);
        i = i + 1;
    }
    out
}

/// A bit is zero or one.
pub proof fn lemma_spdz_secret_bit(s: SpdzView, t: SpdzView)
    ensures
        spdz_secret::<F40b>(s, t) == 0 || spdz_secret::<F40b>(s, t) == 1,
{
    F2::law_closed(s.share, t.share);
}

/// Multiplication by a triple: when both peers open the masks to what they
/// share, they end up with valid shares of the product.
pub proof fn law_spdz_product_share(
    role: PeerRole,
    ks: int,
    kt: int,
    xs: SpdzView,
    xt: SpdzView,
    ys: SpdzView,
    yt: SpdzView,
    s: SpdzTripleView,
    t: SpdzTripleView,
)
    requires
        spdz_paired::<F40b>(xs, xt, ks, kt),
        spdz_paired::<F40b>(ys, yt, ks, kt),
        spdz_triple_paired(s, t, ks, kt),
    ensures
        ({
            let d = spdz_secret::<F40b>(spdz_sum::<F40b>(xs, s.a), spdz_sum::<F40b>(xt, t.a));
            let e = spdz_secret::<F40b>(spdz_sum::<F40b>(ys, s.b), spdz_sum::<F40b>(yt, t.b));
            let ps = spdz_product_share(role, ks, s, d, e);
            let pt = spdz_product_share(role.other(), kt, t, d, e);
            &&& spdz_paired::<F40b>(ps, pt, ks, kt)
            &&& spdz_secret::<F40b>(ps, pt) == F2::times(
                spdz_secret::<F40b>(xs, xt),
                spdz_secret::<F40b>(ys, yt),
            )
        }),
{
    let x = spdz_secret::<F40b>(xs, xt);
    let y = spdz_secret::<F40b>(ys, yt);
    let a = spdz_secret::<F40b>(s.a, t.a);
    let b = spdz_secret::<F40b>(s.b, t.b);
    lemma_spdz_secret_bit(xs, xt);
    lemma_spdz_secret_bit(ys, yt);
    lemma_spdz_secret_bit(s.a, t.a);
    lemma_spdz_secret_bit(s.b, t.b);
    law_spdz_sum::<F40b>(xs, xt, s.a, t.a, ks, kt);
    law_spdz_sum::<F40b>(ys, yt, s.b, t.b, ks, kt);
    let d = F2::plus(x, a);
    let e = F2::plus(y, b);
    let (bs, bt) = (spdz_multiple::<F40b>(d, s.b), spdz_multiple::<F40b>(d, t.b));
    law_spdz_multiple::<F40b>(d, s.b, t.b, ks, kt);
    law_spdz_sum::<F40b>(s.c, t.c, bs, bt, ks, kt);
    let (ms, mt) = (spdz_sum::<F40b>(s.c, bs), spdz_sum::<F40b>(t.c, bt));
    let (as_, at) = (spdz_multiple::<F40b>(e, s.a), spdz_multiple::<F40b>(e, t.a));
    law_spdz_multiple::<F40b>(e, s.a, t.a, ks, kt);
    law_spdz_sum::<F40b>(ms, mt, as_, at, ks, kt);
    law_spdz_shifted::<F40b>(
        role,
        spdz_sum::<F40b>(ms, as_),
        spdz_sum::<F40b>(mt, at),
        ks,
        kt,
        1,
    );
    crate::multiplication::lemma_masked_product(x, y, a, b);
    assert(d == 0 || d == 1);
    assert(e == 0 || e == 1);
    assert(0 * e == 0 && 1 * e == e);
    let sum = F2::plus(F2::plus(F2::times(a, b), F2::times(d, b)), F2::times(e, a));
    F2::law_closed(F2::plus(F2::times(a, b), F2::times(d, b)), F2::times(e, a));
    assert(F2::plus(sum, 0) == sum);
}

/// What the masks of the two factors of a row open to.
pub open spec fn spdz_opened(
    s: AdderView<SpdzView>,
    t: AdderView<SpdzView>,
    ts: SpdzTripleView,
    tt: SpdzTripleView,
    row: int,
) -> (int, int) {
    (
        spdz_secret::<F40b>(
            spdz_sum::<F40b>(left_factor::<SpdzBitShare>(s, row), ts.a),
            spdz_sum::<F40b>(left_factor::<SpdzBitShare>(t, row), tt.a),
        ),
        spdz_secret::<F40b>(
            spdz_sum::<F40b>(right_factor::<SpdzBitShare>(s, row), ts.b),
            spdz_sum::<F40b>(right_factor::<SpdzBitShare>(t, row), tt.b),
        ),
    )
}

/// A row of a round of an addition by triples: when both peers open the masks to
/// what they share, they end up with valid shares of the product of the factors.
pub proof fn law_spdz_round_by_triples(
    s: AdderView<SpdzView>,
    t: AdderView<SpdzView>,
    ts: SpdzTripleView,
    tt: SpdzTripleView,
    ps: Seq<SpdzView>,
    pt: Seq<SpdzView>,
    role: PeerRole,
    ks: int,
    kt: int,
    row: int,
)
    requires
        adders_agree::<SpdzBitShare>(s, t, ks, kt),
        0 <= row < s.num(),
        s.round < s.bit_size(),
        spdz_triple_paired(ts, tt, ks, kt),
        ps[row] == spdz_product_share(
            role,
            ks,
            ts,
            spdz_opened(s, t, ts, tt, row).0,
            spdz_opened(s, t, ts, tt, row).1,
        ),
        pt[row] == spdz_product_share(
            role.other(),
            kt,
            tt,
            spdz_opened(s, t, ts, tt, row).0,
            spdz_opened(s, t, ts, tt, row).1,
        ),
    ensures
        product_matches::<SpdzBitShare>(s, t, ps, pt, ks, kt, row),
{
    let (xs, xt) = (left_factor::<SpdzBitShare>(s, row), left_factor::<SpdzBitShare>(t, row));
    let (ys, yt) = (right_factor::<SpdzBitShare>(s, row), right_factor::<SpdzBitShare>(t, row));
    lemma_factors_match::<SpdzBitShare>(s, t, ks, kt, row);
    law_spdz_product_share(role, ks, kt, xs, xt, ys, yt, ts, tt);
    lemma_bit_product(xs, xt, ys, yt);
}

/// A product of bits is one where both are.
proof fn lemma_bit_product(xs: SpdzView, xt: SpdzView, ys: SpdzView, yt: SpdzView)
    ensures
        F2::times(spdz_secret::<F40b>(xs, xt), spdz_secret::<F40b>(ys, yt)) == 1 <==> (
        spdz_secret::<F40b>(xs, xt) == 1 && spdz_secret::<F40b>(ys, yt) == 1),
{
    let y = spdz_secret::<F40b>(ys, yt);
    lemma_spdz_secret_bit(xs, xt);
    lemma_spdz_secret_bit(ys, yt);
    assert(0 * y == 0 && 1 * y == y);
}

/// The bits that a peer brings to the two exchanges by which shared bits are
/// multiplied. In one the first peer's part of `lhs` meets the second's part of
/// `rhs`, in the other it is the other way round.
pub fn cross_term_bits(role: PeerRole, lhs: &[F2], rhs: &[F2]) -> (r: (Vec<F2>, Vec<F2>))
    ensures
        role is First ==> r.0@ == lhs@ && r.1@ == rhs@,
        role is Second ==> r.0@ == rhs@ && r.1@ == lhs@,
{
    match role {
        PeerRole::First => (copy_slice(lhs), copy_slice(rhs)),
        PeerRole::Second => (copy_slice(rhs), copy_slice(lhs)),
    }
}

/// The MAC messages for a bit under a key share: the mask, and the mask plus the
/// key share where the bit is set.
pub open spec fn mac_messages<MF: FiniteField>(alpha: int, bit: bool, mask: int) -> (int, int) {
    (
        mask,
        MF::plus(
            mask,
            if bit {
                alpha
            } else {
                0
            },
        ),
    )
}

/// The value messages for a bit: the mask, and the mask plus the bit.
pub open spec fn value_messages<MF: FiniteField>(bit: bool, mask: int) -> (int, int) {
    (
        mask,
        MF::PrimeField::plus(
            mask,
            if bit {
                1
            } else {
                0
            },
        ),
    )
}

/// What an oblivious transfer delivers.
pub open spec fn delivered(messages: (int, int), choice: bool) -> int {
    if choice {
        messages.1
    } else {
        messages.0
    }
}

/// The values that a sender with the bits `bits` and the drawn masks `masks`
/// offers in an oblivious transfer.
pub fn cross_term_values<MF: FiniteField>(bits: &[F2], masks: &[MF::PrimeField]) -> (r: Vec<
    (MF::PrimeField, MF::PrimeField),
>)
    requires
        masks@.len() == bits@.len(),
    ensures
        r@.len() == bits@.len(),
        forall|i: int|
            0 <= i < bits@.len() ==> ((#[trigger] r@[i]).0.val(), r@[i].1.val())
                == value_messages::<MF>(bits@[i].bit, masks@[i].val()),
        forall|i: int|
            0 <= i < bits@.len() ==> {
                &&& (#[trigger] r@[i]).0.val() == masks@[i].val()
                &&& r@[i].1.val() == MF::PrimeField::plus(masks@[i].val(), bits@[i].val())
            },
{
    let mut messages: Vec<(MF::PrimeField, MF::PrimeField)> = Vec::new();
    let mut i: usize = 0;
    while i < bits.len()
        invariant
            i <= bits.len(),
            masks@.len() == bits@.len(),
            messages@.len() == i,
            forall|j: int|
                0 <= j < i ==> ((#[trigger] messages@[j]).0.val(), messages@[j].1.val())
                    == value_messages::<MF>(bits@[j].bit, masks@[j].val()),
        decreases bits.len() - i,
    {
        messages.push((masks[i], masks[i].add(f2_to_fe::<MF>(bits[i]))));
        i = i + 1;
    }
    messages
}

/// The MACs that a peer with the bits `bits`, the drawn masks `masks` and the
/// share `alpha_share` of the MAC key offers in an oblivious transfer.
pub fn cross_term_macs<MF: FiniteField>(alpha_share: MF, bits: &[F2], masks: &[MF]) -> (r: Vec<
    (MF, MF),
>)
    requires
        masks@.len() == bits@.len(),
    ensures
        r@.len() == bits@.len(),
        forall|i: int|
            0 <= i < bits@.len() ==> ((#[trigger] r@[i]).0.val(), r@[i].1.val())
                == mac_messages::<MF>(alpha_share.val(), bits@[i].bit, masks@[i].val()),
        forall|i: int|
            0 <= i < bits@.len() ==> {
                &&& (#[trigger] r@[i]).0.val() == masks@[i].val()
                &&& bits@[i].bit ==> r@[i].1.val() == MF::plus(masks@[i].val(), alpha_share.val())
                &&& !bits@[i].bit ==> r@[i].1.val() == masks@[i].val()
            },
{
    let mut messages: Vec<(MF, MF)> = Vec::new();
    let mut i: usize = 0;
    while i < bits.len()
        invariant
            i <= bits.len(),
            masks@.len() == bits@.len(),
            messages@.len() == i,
            forall|j: int|
                0 <= j < i ==> ((#[trigger] messages@[j]).0.val(), messages@[j].1.val())
                    == mac_messages::<MF>(alpha_share.val(), bits@[j].bit, masks@[j].val()),
        decreases bits.len() - i,
    {
        let delta = if bits[i].equals(F2::one()) {
            alpha_share
        } else {
            MF::zero()
        };
        messages.push((masks[i], masks[i].add(delta)));
        i = i + 1;
    }
    proof {
        assert forall|j: int| 0 <= j < bits@.len() && !bits@[j].bit implies (
        #[trigger] messages@[j]).1.val() == masks@[j].val() by {
            masks@[j].law_val();
            lemma_zero_plus::<MF>(masks@[j].val());
        }
    }
    messages
}

/// The choices by which a peer receives: its bits.
pub fn cross_term_choices(bits: &[F2]) -> (r: Vec<bool>)
    ensures
        r@ == Seq::new(bits@.len(), |i: int| bits@[i].bit),
{
    let mut out: Vec<bool> = Vec::new();
    let mut i: usize = 0;
    while i < bits.len()
        invariant
            i <= bits.len(),
            out@.len() == i,
            forall|j: int| 0 <= j < i ==> #[trigger] out@[j] == bits@[j].bit,
        decreases bits.len() - i,
    {
        out.push(bits[i].equals(F2::one()));
        i = i + 1;
    }
    assert(out@ =~= Seq::new(bits@.len(), |i: int| bits@[i].bit));
    out
}

/// The shares of the products of bits, from their values, and the two parts of
/// the MACs: what was kept, and what was received.
fn assemble_cross_terms<MF: FiniteField>(
    values: &[MF::PrimeField],
    mac_parts: &[MF],
    other_mac_parts: &[MF],
) -> (r: Vec<SpdzAuthenticatedShare<MF>>)
    ensures
        r@.len() == least(
            values@.len() as int,
            least(mac_parts@.len() as int, other_mac_parts@.len() as int),
        ),
        forall|i: int|
            0 <= i < r@.len() ==> (#[trigger] r@[i])@ == (SpdzView {
                share: values@[i].val(),
                mac: MF::plus(mac_parts@[i].val(), other_mac_parts@[i].val()),
            }),
{
    let mut out: Vec<SpdzAuthenticatedShare<MF>> = Vec::new();
    let mut i: usize = 0;
    while i < values.len() && i < mac_parts.len() && i < other_mac_parts.len()
        invariant
            i <= values.len(),
            i <= mac_parts.len(),
            i <= other_mac_parts.len(),
            out@.len() == i,
            forall|j: int|
                0 <= j < i ==> (#[trigger] out@[j])@ == (SpdzView {
                    share: values@[j].val(),
                    mac: MF::plus(mac_parts@[j].val(), other_mac_parts@[j].val()),
                }),
        decreases values.len() - i,
    {
        out.push(SpdzAuthenticatedShare::new(values[i], mac_parts[i].add(other_mac_parts[i])));
        i = i + 1;
    }
    out
}

/// The sender's share of a product of bits: `mask` and `mac_mask` are those that it
/// has sent under, and `received` is the MAC that it was delivered.
pub open spec fn cross_term_sent<MF: FiniteField>(
    mask: int,
    mac_mask: int,
    received: int,
) -> SpdzView {
    SpdzView {
        share: MF::PrimeField::opposite(mask),
        mac: MF::plus(MF::opposite(mac_mask), received),
    }
}

/// The receiver's share of a product of bits: `value` and `mac` are what it was
/// delivered, and `reverse` is the mask that it has sent its own MACs under.
pub open spec fn cross_term_received<MF: FiniteField>(
    value: int,
    mac: int,
    reverse: int,
) -> SpdzView {
    SpdzView { share: value, mac: MF::plus(mac, MF::opposite(reverse)) }
}

/// The opposites of elements.
fn negated<F: FiniteRing>(items: &[F]) -> (r: Vec<F>)
    ensures
        r@.len() == items@.len(),
        forall|i: int|
            0 <= i < r@.len() ==> (#[trigger] r@[i]).val() == F::opposite(items@[i].val()),
{
    let mut out: Vec<F> = Vec::new();
    let mut i: usize = 0;
    while i < items.len()
        invariant
            i <= items.len(),
            out@.len() == i,
            forall|j: int|
                0 <= j < i ==> (#[trigger] out@[j]).val() == F::opposite(items@[j].val()),
        decreases items.len() - i,
    {
        out.push(items[i].neg());
        i = i + 1;
    }
    out
}

/// The shares of the products that the sender of the values ends up with.
pub fn cross_terms_sent<MF: FiniteField>(
    value_masks: &[MF::PrimeField],
    mac_masks: &[MF],
    received: &[MF],
) -> (r: Vec<SpdzAuthenticatedShare<MF>>)
    ensures
        r@.len() == least(
            value_masks@.len() as int,
            least(mac_masks@.len() as int, received@.len() as int),
        ),
        forall|i: int|
            0 <= i < r@.len() ==> (#[trigger] r@[i])@ == cross_term_sent::<MF>(
                value_masks@[i].val(),
                mac_masks@[i].val(),
                received@[i].val(),
            ),
        forall|i: int|
            0 <= i < r@.len() ==> {
                &&& (#[trigger] r@[i])@.share == MF::PrimeField::opposite(value_masks@[i].val())
                &&& r@[i]@.mac == minus::<MF>(received@[i].val(), mac_masks@[i].val())
            },
{
    let (shares, macs) = (negated(value_masks), negated(mac_masks));
    proof {
        assert forall|a: int, b: int| #[trigger] MF::plus(a, b) == MF::plus(b, a) by {
            MF::law_plus_comm(a, b);
        }
    }
    assemble_cross_terms(shares.as_slice(), macs.as_slice(), received)
}

/// The shares of the products that the receiver of the values ends up with.
pub fn cross_terms_received<MF: FiniteField>(
    values: &[MF::PrimeField],
    macs: &[MF],
    reverse_masks: &[MF],
) -> (r: Vec<SpdzAuthenticatedShare<MF>>)
    ensures
        r@.len() == least(
            values@.len() as int,
            least(macs@.len() as int, reverse_masks@.len() as int),
        ),
        forall|i: int|
            0 <= i < r@.len() ==> (#[trigger] r@[i])@ == cross_term_received::<MF>(
                values@[i].val(),
                macs@[i].val(),
                reverse_masks@[i].val(),
            ),
        forall|i: int|
            0 <= i < r@.len() ==> {
                &&& (#[trigger] r@[i])@.share == values@[i].val()
                &&& r@[i]@.mac == minus::<MF>(macs@[i].val(), reverse_masks@[i].val())
            },
{
    let kept = negated(reverse_masks);
    assemble_cross_terms(values, macs, kept.as_slice())
}

/// What is drawn for a product of a bit of each peer: the masks of the sender, and
/// that of the receiver.
pub struct CrossTerm {
    pub mask: int,
    pub mac_mask: int,
    pub reverse: int,
}

impl CrossTerm {
    /// Whether the masks are elements.
    pub open spec fn fits<MF: FiniteField>(self) -> bool {
        &&& 0 <= self.mask < MF::PrimeField::order()
        &&& 0 <= self.mac_mask < MF::order()
        &&& 0 <= self.reverse < MF::order()
    }

    /// The shares of the sender and of the receiver after the three oblivious
    /// transfers, where `ks` and `kr` are their shares of the MAC key.
    pub open spec fn shares<MF: FiniteField>(
        self,
        sender_bit: bool,
        receiver_bit: bool,
        ks: int,
        kr: int,
    ) -> (SpdzView, SpdzView) {
        (
            cross_term_sent::<MF>(
                self.mask,
                self.mac_mask,
                delivered(mac_messages::<MF>(kr, receiver_bit, self.reverse), sender_bit),
            ),
            cross_term_received::<MF>(
                delivered(value_messages::<MF>(sender_bit, self.mask), receiver_bit),
                delivered(mac_messages::<MF>(ks, sender_bit, self.mac_mask), receiver_bit),
                self.reverse,
            ),
        )
    }
}

/// `(-a + b) + (c - d)` is `x + y` where `b` is `d + x` and `c` is `a + y`.
proof fn lemma_masks_cancel<F: FiniteRing>(a: int, d: int, x: int, y: int)
    requires
        0 <= a < F::order(),
        0 <= d < F::order(),
        0 <= x < F::order(),
        0 <= y < F::order(),
    ensures
        F::plus(
            F::plus(F::opposite(a), F::plus(d, x)),
            F::plus(F::plus(a, y), F::opposite(d)),
        ) == F::plus(x, y),
{
    let (na, nd) = (F::opposite(a), F::opposite(d));
    F::law_plus_comm(a, y);
    F::law_plus_comm(d, x);
    F::law_plus_assoc(y, a, nd);
    F::law_plus_comm(a, nd);
    F::law_plus_assoc(y, nd, a);
    F::law_plus_comm(na, F::plus(x, d));
    lemma_plus_swap::<F>(F::plus(x, d), na, F::plus(y, nd), a);
    F::law_plus_comm(na, a);
    F::law_plus_opposite(a);
    lemma_plus_swap::<F>(x, d, y, nd);
    F::law_plus_opposite(d);
    F::law_closed(x, y);
    lemma_zero_plus::<F>(F::plus(x, y));
}

/// The product of a bit of each peer: after the three oblivious transfers the
/// peers hold valid shares of it.
pub proof fn law_cross_term<MF: FiniteField>(
    c: CrossTerm,
    sender_bit: bool,
    receiver_bit: bool,
    ks: int,
    kr: int,
)
    requires
        0 <= ks < MF::order(),
        0 <= kr < MF::order(),
        c.fits::<MF>(),
    ensures
        ({
            let (s, t) = c.shares::<MF>(sender_bit, receiver_bit, ks, kr);
            &&& spdz_paired::<MF>(s, t, ks, kr)
            &&& spdz_secret::<MF>(s, t) == (if sender_bit && receiver_bit {
                1int
            } else {
                0int
            })
        }),
{
    let (s, t) = c.shares::<MF>(sender_bit, receiver_bit, ks, kr);
    let (mask, mac_mask, reverse) = (c.mask, c.mac_mask, c.reverse);
    MF::law_order();
    MF::PrimeField::law_order();
    let both = sender_bit && receiver_bit;
    let x: int = if both {
        kr
    } else {
        0
    };
    let y: int = if both {
        ks
    } else {
        0
    };
    let v: int = if both {
        1
    } else {
        0
    };
    lemma_zero_plus::<MF>(reverse);
    lemma_zero_plus::<MF>(mac_mask);
    lemma_zero_plus::<MF::PrimeField>(mask);
    assert(s.mac == MF::plus(MF::opposite(mac_mask), MF::plus(reverse, x)));
    assert(t.mac == MF::plus(MF::plus(mac_mask, y), MF::opposite(reverse)));
    lemma_masks_cancel::<MF>(mac_mask, reverse, x, y);
    assert(t.share == MF::PrimeField::plus(mask, v));
    let nm = MF::PrimeField::opposite(mask);
    MF::PrimeField::law_plus_assoc(nm, mask, v);
    MF::PrimeField::law_plus_comm(nm, mask);
    MF::PrimeField::law_plus_opposite(mask);
    lemma_zero_plus::<MF::PrimeField>(v);
    lemma_embed::<MF>(0, 0);
    MF::law_plus_comm(kr, ks);
    MF::law_closed(ks, kr);
    lemma_one_times::<MF>(MF::plus(ks, kr));
    lemma_times_zero::<MF>(MF::plus(ks, kr));
    lemma_zero_plus::<MF>(0);
    MF::law_closed(s.mac, t.mac);
    MF::law_closed(MF::opposite(mac_mask), MF::plus(reverse, x));
    MF::law_closed(MF::plus(mac_mask, y), MF::opposite(reverse));
    MF::PrimeField::law_closed(mask, v);
}

/// The products of this peer's shares of two batches of bits.
pub fn local_products(lhs: &[SpdzBitShare], rhs: &[SpdzBitShare]) -> (r: Vec<F2>)
    ensures
        r@.len() == least(lhs@.len() as int, rhs@.len() as int),
        forall|i: int|
            0 <= i < r@.len() ==> (#[trigger] r@[i]).val() == F2::times(
                lhs@[i]@.share,
                rhs@[i]@.share,
            ),
{
    let mut out: Vec<F2> = Vec::new();
    let mut i: usize = 0;
    while i < lhs.len() && i < rhs.len()
        invariant
            i <= lhs.len(),
            i <= rhs.len(),
            out@.len() == i,
            forall|j: int|
                0 <= j < i ==> (#[trigger] out@[j]).val() == F2::times(
                    lhs@[j]@.share,
                    rhs@[j]@.share,
                ),
        decreases lhs.len() - i,
    {
        out.push(lhs[i].share.mul(rhs[i].share));
        i = i + 1;
    }
    out
}

/// The share of a product, from those of the four partial products.
pub open spec fn direct_product(
    own: SpdzView,
    peer: SpdzView,
    first_second: SpdzView,
    second_first: SpdzView,
) -> SpdzView {
    spdz_sum::<F40b>(spdz_sum::<F40b>(own, peer), spdz_sum::<F40b>(first_second, second_first))
}

/// The shares of the products, from those of the partial products: of the own
/// shares, of the peer's shares, and of one share of each.
pub fn multiply_shared_bits_direct(
    owned_local_terms: &[SpdzBitShare],
    peer_local_terms: &[SpdzBitShare],
    first_second: &[SpdzBitShare],
    second_first: &[SpdzBitShare],
) -> (r: Vec<SpdzBitShare>)
    ensures
        r@.len() == least(
            least(owned_local_terms@.len() as int, peer_local_terms@.len() as int),
            least(first_second@.len() as int, second_first@.len() as int),
        ),
        forall|i: int|
            0 <= i < r@.len() ==> (#[trigger] r@[i])@ == direct_product(
                owned_local_terms@[i]@,
                peer_local_terms@[i]@,
                first_second@[i]@,
                second_first@[i]@,
            ),
        forall|i: int|
            0 <= i < r@.len() ==> (#[trigger] r@[i])@ == spdz_sum::<F40b>(
                spdz_sum::<F40b>(owned_local_terms@[i]@, peer_local_terms@[i]@),
                spdz_sum::<F40b>(first_second@[i]@, second_first@[i]@),
            ),
{
    let mut out: Vec<SpdzBitShare> = Vec::new();
    let mut i: usize = 0;
    while i < owned_local_terms.len() && i < peer_local_terms.len() && i < first_second.len() && i
        < second_first.len()
        invariant
            i <= owned_local_terms.len(),
            i <= peer_local_terms.len(),
            i <= first_second.len(),
            i <= second_first.len(),
            out@.len() == i,
            forall|j: int|
                0 <= j < i ==> (#[trigger] out@[j])@ == direct_product(
                    owned_local_terms@[j]@,
                    peer_local_terms@[j]@,
                    first_second@[j]@,
                    second_first@[j]@,
                ),
        decreases owned_local_terms.len() - i,
    {
        out.push(
            add_spdz_shares(
                add_spdz_shares(owned_local_terms[i], peer_local_terms[i]),
                add_spdz_shares(first_second[i], second_first[i]),
            ),
        );
        i = i + 1;
    }
    out
}

/// Direct multiplication: from valid shares of the four partial products of the
/// shares of two bits the peers get valid shares of the product of the bits.
/// `s` is the first peer.
pub proof fn law_direct_product(
    xs: SpdzView,
    xt: SpdzView,
    ys: SpdzView,
    yt: SpdzView,
    own_s: (SpdzView, SpdzView),
    own_t: (SpdzView, SpdzView),
    first_second: (SpdzView, SpdzView),
    second_first: (SpdzView, SpdzView),
    ks: int,
    kt: int,
)
    requires
        spdz_paired::<F40b>(xs, xt, ks, kt),
        spdz_paired::<F40b>(ys, yt, ks, kt),
        spdz_paired::<F40b>(own_s.0, own_s.1, ks, kt),
        spdz_secret::<F40b>(own_s.0, own_s.1) == F2::times(xs.share, ys.share),
        spdz_paired::<F40b>(own_t.0, own_t.1, ks, kt),
        spdz_secret::<F40b>(own_t.0, own_t.1) == F2::times(xt.share, yt.share),
        spdz_paired::<F40b>(first_second.0, first_second.1, ks, kt),
        spdz_secret::<F40b>(first_second.0, first_second.1) == F2::times(xs.share, yt.share),
        spdz_paired::<F40b>(second_first.0, second_first.1, ks, kt),
        spdz_secret::<F40b>(second_first.0, second_first.1) == F2::times(xt.share, ys.share),
    ensures
        ({
            let ps = direct_product(own_s.0, own_t.0, first_second.0, second_first.0);
            let pt = direct_product(own_t.1, own_s.1, first_second.1, second_first.1);
            &&& spdz_paired::<F40b>(ps, pt, ks, kt)
            &&& spdz_secret::<F40b>(ps, pt) == F2::times(
                spdz_secret::<F40b>(xs, xt),
                spdz_secret::<F40b>(ys, yt),
            )
        }),
{
    F40b::law_plus_comm(own_t.1.mac, own_s.1.mac);
    F2::law_plus_comm(own_t.1.share, own_s.1.share);
    law_spdz_sum::<F40b>(own_s.0, own_s.1, own_t.0, own_t.1, ks, kt);
    law_spdz_sum::<F40b>(
        first_second.0,
        first_second.1,
        second_first.0,
        second_first.1,
        ks,
        kt,
    );
    law_spdz_sum::<F40b>(
        spdz_sum::<F40b>(own_s.0, own_t.0),
        spdz_sum::<F40b>(own_s.1, own_t.1),
        spdz_sum::<F40b>(first_second.0, second_first.0),
        spdz_sum::<F40b>(first_second.1, second_first.1),
        ks,
        kt,
    );
    lemma_four_products(xs.share, xt.share, ys.share, yt.share);
}

/// A row of a round of an addition by direct multiplication: from valid shares of
/// the four partial products of the shares of the factors the peers get valid
/// shares of the product. `s` is the first peer.
pub proof fn law_spdz_round_direct(
    s: AdderView<SpdzView>,
    t: AdderView<SpdzView>,
    own_s: (SpdzView, SpdzView),
    own_t: (SpdzView, SpdzView),
    first_second: (SpdzView, SpdzView),
    second_first: (SpdzView, SpdzView),
    ps: Seq<SpdzView>,
    pt: Seq<SpdzView>,
    ks: int,
    kt: int,
    row: int,
)
    requires
        adders_agree::<SpdzBitShare>(s, t, ks, kt),
        0 <= row < s.num(),
        s.round < s.bit_size(),
        spdz_paired::<F40b>(own_s.0, own_s.1, ks, kt),
        spdz_secret::<F40b>(own_s.0, own_s.1) == F2::times(
            left_factor::<SpdzBitShare>(s, row).share,
            right_factor::<SpdzBitShare>(s, row).share,
        ),
        spdz_paired::<F40b>(own_t.0, own_t.1, ks, kt),
        spdz_secret::<F40b>(own_t.0, own_t.1) == F2::times(
            left_factor::<SpdzBitShare>(t, row).share,
            right_factor::<SpdzBitShare>(t, row).share,
        ),
        spdz_paired::<F40b>(first_second.0, first_second.1, ks, kt),
        spdz_secret::<F40b>(first_second.0, first_second.1) == F2::times(
            left_factor::<SpdzBitShare>(s, row).share,
            right_factor::<SpdzBitShare>(t, row).share,
        ),
        spdz_paired::<F40b>(second_first.0, second_first.1, ks, kt),
        spdz_secret::<F40b>(second_first.0, second_first.1) == F2::times(
            left_factor::<SpdzBitShare>(t, row).share,
            right_factor::<SpdzBitShare>(s, row).share,
        ),
        ps[row] == direct_product(own_s.0, own_t.0, first_second.0, second_first.0),
        pt[row] == direct_product(own_t.1, own_s.1, first_second.1, second_first.1),
    ensures
        product_matches::<SpdzBitShare>(s, t, ps, pt, ks, kt, row),
{
    let (xs, xt) = (left_factor::<SpdzBitShare>(s, row), left_factor::<SpdzBitShare>(t, row));
    let (ys, yt) = (right_factor::<SpdzBitShare>(s, row), right_factor::<SpdzBitShare>(t, row));
    lemma_factors_match::<SpdzBitShare>(s, t, ks, kt, row);
    law_direct_product(
        xs,
        xt,
        ys,
        yt,
        own_s,
        own_t,
        first_second,
        second_first,
        ks,
        kt,
    );
    lemma_bit_product(xs, xt, ys, yt);
}

/// `(a + b) * (c + d)` in bits.
proof fn lemma_four_products(a: int, b: int, c: int, d: int)
    requires
        0 <= a < 2,
        0 <= b < 2,
        0 <= c < 2,
        0 <= d < 2,
    ensures
        F2::plus(
            F2::plus(F2::times(a, c), F2::times(b, d)),
            F2::plus(F2::times(a, d), F2::times(b, c)),
        ) == F2::times(F2::plus(a, b), F2::plus(c, d)),
{
    let (p, q) = (F2::plus(a, b), F2::plus(c, d));
    assert(p == 0 || p == 1);
    assert(0 * c == 0 && 1 * c == c && 0 * d == 0 && 1 * d == d && 0 * q == 0 && 1 * q == q);
    if a == 0 && b == 0 {
    } else if a == 0 {
    } else if b == 0 {
    } else {
    }
}

/// The bits that this peer holds as shares, as elements of `FE`.
pub fn local_field_bits<FE: FiniteField>(bits: &[SpdzBitShare]) -> (r: Vec<FE::PrimeField>)
    ensures
        r@.len() == bits@.len(),
        forall|i: int| 0 <= i < r@.len() ==> (#[trigger] r@[i]).val() == bits@[i]@.share,
{
    let mut out: Vec<FE::PrimeField> = Vec::new();
    let mut i: usize = 0;
    while i < bits.len()
        invariant
            i <= bits.len(),
            out@.len() == i,
            forall|j: int| 0 <= j < i ==> (#[trigger] out@[j]).val() == bits@[j]@.share,
        decreases bits.len() - i,
    {
        out.push(f2_to_fe::<FE>(bits[i].share));
        i = i + 1;
    }
    out
}

/// The share of a bit in `FE`: `local + peer - 2 * cross`.
pub open spec fn field_bit<FE: FiniteField>(
    local: SpdzView,
    peer: SpdzView,
    cross: SpdzView,
) -> SpdzView {
    spdz_sum::<FE>(
        spdz_sum::<FE>(local, peer),
        spdz_multiple::<FE>(
            FE::PrimeField::opposite(FE::PrimeField::plus(1, 1)),
            cross,
        ),
    )
}

/// The shares of bits in `FE`, from those of the two peers' shares of the bits,
/// and of their products.
pub fn convert_shared_bits_to_field<FE: FiniteField>(
    local_contribs: &[SpdzAuthenticatedShare<FE>],
    peer_contribs: &[SpdzAuthenticatedShare<FE>],
    cross_terms: &[SpdzAuthenticatedShare<FE>],
) -> (r: Vec<SpdzAuthenticatedShare<FE>>)
    ensures
        r@.len() == least(
            local_contribs@.len() as int,
            least(peer_contribs@.len() as int, cross_terms@.len() as int),
        ),
        forall|i: int|
            0 <= i < r@.len() ==> (#[trigger] r@[i])@ == field_bit::<FE>(
                local_contribs@[i]@,
                peer_contribs@[i]@,
                cross_terms@[i]@,
            ),
        forall|i: int|
            0 <= i < r@.len() ==> (#[trigger] r@[i])@ == spdz_sum::<FE>(
                spdz_sum::<FE>(local_contribs@[i]@, peer_contribs@[i]@),
                spdz_multiple::<FE>(
                    FE::PrimeField::opposite(FE::PrimeField::plus(1, 1)),
                    cross_terms@[i]@,
                ),
            ),
{
    let factor = FE::PrimeField::one().add(FE::PrimeField::one()).neg();
    let mut out: Vec<SpdzAuthenticatedShare<FE>> = Vec::new();
    let mut i: usize = 0;
    while i < local_contribs.len() && i < peer_contribs.len() && i < cross_terms.len()
        invariant
            i <= local_contribs.len(),
            i <= peer_contribs.len(),
            i <= cross_terms.len(),
            factor.val() == FE::PrimeField::opposite(FE::PrimeField::plus(1, 1)),
            out@.len() == i,
            forall|j: int|
                0 <= j < i ==> (#[trigger] out@[j])@ == field_bit::<FE>(
                    local_contribs@[j]@,
                    peer_contribs@[j]@,
                    cross_terms@[j]@,
                ),
        decreases local_contribs.len() - i,
    {
        out.push(
            add_spdz_shares(
                add_spdz_shares(local_contribs[i], peer_contribs[i]),
                scale_spdz_share(cross_terms[i], factor),
            ),
        );
        i = i + 1;
    }
    out
}

/// The share of the product with a public constant.
pub fn scale_spdz_share<MF: FiniteField>(
    value: SpdzAuthenticatedShare<MF>,
    scalar: MF::PrimeField,
) -> (r: SpdzAuthenticatedShare<MF>)
    ensures
        r@ == spdz_multiple::<MF>(scalar.val(), value@),
        r@.share == MF::PrimeField::times(scalar.val(), value@.share),
        r@.mac == MF::times(embed::<MF>(scalar.val()), value@.mac),
{
    SpdzAuthenticatedShare::new(scalar.mul(value.share), scale(scalar, value.mac))
}

/// `a + b - 2 * a * b` is the exclusive or of two bits, in every field.
proof fn lemma_xor_in_field<F: PrimeRing>(a: int, b: int)
    requires
        a == 0 || a == 1,
        b == 0 || b == 1,
    ensures
        F::plus(
            F::plus(a, b),
            F::times(
                F::opposite(F::plus(1, 1)),
                if a == 1 && b == 1 {
                    1
                } else {
                    0
                },
            ),
        ) == (if a != b {
            1int
        } else {
            0int
        }),
{
    F::law_order();
    let two = F::plus(1, 1);
    F::law_closed(two, 0);
    F::law_closed(1, 1);
    lemma_one_times::<F>(F::opposite(two));
    lemma_times_zero::<F>(F::opposite(two));
    F::law_plus_opposite(two);
    lemma_zero_plus::<F>(0);
    lemma_zero_plus::<F>(1);
}

/// Conversion of a bit: from valid shares in `FE` of the two peers' shares of
/// the bit, and of their product, the peers get valid shares of the bit.
pub proof fn law_field_bit<FE: FiniteField>(
    bs: SpdzView,
    bt: SpdzView,
    own_s: (SpdzView, SpdzView),
    own_t: (SpdzView, SpdzView),
    cross: (SpdzView, SpdzView),
    ks: int,
    kt: int,
)
    requires
        0 <= bs.share < 2,
        0 <= bt.share < 2,
        spdz_paired::<FE>(own_s.0, own_s.1, ks, kt),
        spdz_secret::<FE>(own_s.0, own_s.1) == bs.share,
        spdz_paired::<FE>(own_t.0, own_t.1, ks, kt),
        spdz_secret::<FE>(own_t.0, own_t.1) == bt.share,
        spdz_paired::<FE>(cross.0, cross.1, ks, kt),
        spdz_secret::<FE>(cross.0, cross.1) == (if bs.share == 1 && bt.share == 1 {
            1int
        } else {
            0int
        }),
    ensures
        ({
            let fs = field_bit::<FE>(own_s.0, own_t.0, cross.0);
            let ft = field_bit::<FE>(own_t.1, own_s.1, cross.1);
            &&& spdz_paired::<FE>(fs, ft, ks, kt)
            &&& spdz_secret::<FE>(fs, ft) == spdz_secret::<F40b>(bs, bt)
        }),
{
    FE::law_plus_comm(own_t.1.mac, own_s.1.mac);
    FE::PrimeField::law_plus_comm(own_t.1.share, own_s.1.share);
    law_spdz_sum::<FE>(own_s.0, own_s.1, own_t.0, own_t.1, ks, kt);
    let two = FE::PrimeField::plus(1, 1);
    let factor = FE::PrimeField::opposite(two);
    FE::PrimeField::law_closed(two, 0);
    law_spdz_multiple::<FE>(factor, cross.0, cross.1, ks, kt);
    law_spdz_sum::<FE>(
        spdz_sum::<FE>(own_s.0, own_t.0),
        spdz_sum::<FE>(own_s.1, own_t.1),
        spdz_multiple::<FE>(factor, cross.0),
        spdz_multiple::<FE>(factor, cross.1),
        ks,
        kt,
    );
    lemma_xor_in_field::<FE::PrimeField>(bs.share, bt.share);
}

} // verus!
