//! The products that an addition of SPDZ-shared bits takes, round by round.
//!
//! They come from triples, or directly from oblivious transfers. In either case
//! what the two peers hold is fixed by what they were given or have drawn.

use crate::bit_adder::{
    adder_run, adders_agree, all_products_match, law_adder_run, left_factor, lemma_factors_match,
    product_matches, products_match, right_factor, AdderView,
};
use crate::copee::{all_canonical, bit_total, corrections, full_weight, selected};
use crate::f40b::F40b;
use crate::field::{FiniteField, FiniteRing};
use crate::mpc_homcom::PeerRole;
use crate::mpc_spdz_common::{law_spdz_sharing, owned_share, received_share};
use crate::mpc_spdz_conv::{spdz_paired, spdz_secret, SpdzBitShare, SpdzView};
use crate::multiplication::lemma_round_fits;
use crate::prime_fields::F2;
use crate::spdz_multiplication::{
    direct_product, field_bit, law_cross_term, law_field_bit, law_spdz_round_by_triples,
    law_spdz_round_direct, spdz_opened, spdz_product_share, spdz_triple_paired, CrossTerm,
    SpdzTripleView,
};
use vstd::prelude::*;

verus! {

/// The two parts of a value can be exchanged.
pub proof fn lemma_spdz_paired_exchanged<MF: FiniteField>(
    s: SpdzView,
    t: SpdzView,
    ks: int,
    kt: int,
)
    requires
        spdz_paired::<MF>(s, t, ks, kt),
    ensures
        spdz_paired::<MF>(t, s, kt, ks),
        spdz_secret::<MF>(t, s) == spdz_secret::<MF>(s, t),
{
    MF::PrimeField::law_plus_comm(s.share, t.share);
    MF::law_plus_comm(s.mac, t.mac);
    MF::law_plus_comm(ks, kt);
}

/// What a value is shared by: the other peer's share, and the values of the keyed
/// functions.
pub struct SharedInput {
    pub remote: int,
    pub w0: Seq<int>,
    pub w1: Seq<int>,
}

impl SharedInput {
    /// Whether it consists of elements, and of one for each bit of a key.
    pub open spec fn fits<MF: FiniteField>(self) -> bool {
        &&& 0 <= self.remote < MF::PrimeField::order()
        &&& self.w0.len() == bit_total::<MF>()
        &&& self.w1.len() == bit_total::<MF>()
        &&& all_canonical::<MF>(self.w0)
        &&& all_canonical::<MF>(self.w1)
    }

    /// The shares of the owner of `value` and of the other peer, where `ks` and
    /// `kt` are their shares of the MAC key.
    pub open spec fn shares<MF: FiniteField>(self, value: int, ks: int, kt: int) -> (
        SpdzView,
        SpdzView,
    ) {
        let bits = MF::bits_of(kt);
        let w = Seq::new(
            self.w0.len(),
            |k: int|
                if bits[k] {
                    self.w1[k]
                } else {
                    self.w0[k]
                },
        );
        let received = full_weight::<MF>(
            selected::<MF>(bits, w, corrections::<MF>(self.w0, self.w1, value)),
        );
        (
            owned_share::<MF>(ks, value, self.remote, full_weight::<MF>(self.w0)),
            received_share::<MF>(self.remote, received),
        )
    }
}

/// What a product of two shared bits is made of directly: how the products of each
/// peer's own shares are shared, and what is drawn for the two products of a share
/// of each peer.
pub struct DirectTerms {
    pub own_s: SharedInput,
    pub own_t: SharedInput,
    pub first_second: CrossTerm,
    pub second_first: CrossTerm,
}

impl DirectTerms {
    /// Whether all parts consist of elements.
    pub open spec fn fits(self) -> bool {
        &&& self.own_s.fits::<F40b>()
        &&& self.own_t.fits::<F40b>()
        &&& self.first_second.fits::<F40b>()
        &&& self.second_first.fits::<F40b>()
    }

    /// The shares of the product of two bits of which the first peer holds `xs` and
    /// `ys`, and the second `xt` and `yt`.
    pub open spec fn products(
        self,
        xs: int,
        xt: int,
        ys: int,
        yt: int,
        ks: int,
        kt: int,
    ) -> (SpdzView, SpdzView) {
        let a = self.own_s.shares::<F40b>(F2::times(xs, ys), ks, kt);
        let b = self.own_t.shares::<F40b>(F2::times(xt, yt), kt, ks);
        let f = self.first_second.shares::<F40b>(xs == 1, yt == 1, ks, kt);
        let g = self.second_first.shares::<F40b>(xt == 1, ys == 1, kt, ks);
        (direct_product(a.0, b.1, f.0, g.1), direct_product(b.0, a.1, f.1, g.0))
    }
}

/// What the share of a bit in a field is made of: how each peer's share of the bit
/// is shared in the field, and what is drawn for the product of the two.
pub struct FieldTerms {
    pub own_s: SharedInput,
    pub own_t: SharedInput,
    pub cross: CrossTerm,
}

impl FieldTerms {
    /// Whether all parts consist of elements.
    pub open spec fn fits<FE: FiniteField>(self) -> bool {
        &&& self.own_s.fits::<FE>()
        &&& self.own_t.fits::<FE>()
        &&& self.cross.fits::<FE>()
    }

    /// The shares in the field of a bit of which the peers hold `bs` and `bt`.
    pub open spec fn shares<FE: FiniteField>(self, bs: int, bt: int, ks: int, kt: int) -> (
        SpdzView,
        SpdzView,
    ) {
        let a = self.own_s.shares::<FE>(bs, ks, kt);
        let b = self.own_t.shares::<FE>(bt, kt, ks);
        let f = self.cross.shares::<FE>(bs == 1, bt == 1, ks, kt);
        (field_bit::<FE>(a.0, b.1, f.0), field_bit::<FE>(b.0, a.1, f.1))
    }
}

/// Conversion of a shared bit: the peers end up with valid shares of it in the
/// field.
pub proof fn law_converted_bit<FE: FiniteField>(
    terms: FieldTerms,
    bs: SpdzView,
    bt: SpdzView,
    ks: int,
    kt: int,
)
    requires
        terms.fits::<FE>(),
        0 <= bs.share < 2,
        0 <= bt.share < 2,
        0 <= ks < FE::order(),
        0 <= kt < FE::order(),
    ensures
        ({
            let (fs, ft) = terms.shares::<FE>(bs.share, bt.share, ks, kt);
            &&& spdz_paired::<FE>(fs, ft, ks, kt)
            &&& spdz_secret::<FE>(fs, ft) == spdz_secret::<F40b>(bs, bt)
        }),
{
    FE::PrimeField::law_order();
    let a = terms.own_s.shares::<FE>(bs.share, ks, kt);
    let b = terms.own_t.shares::<FE>(bt.share, kt, ks);
    let f = terms.cross.shares::<FE>(bs.share == 1, bt.share == 1, ks, kt);
    law_spdz_sharing::<FE>(
        ks,
        kt,
        bs.share,
        terms.own_s.remote,
        terms.own_s.w0,
        terms.own_s.w1,
    );
    law_spdz_sharing::<FE>(
        kt,
        ks,
        bt.share,
        terms.own_t.remote,
        terms.own_t.w0,
        terms.own_t.w1,
    );
    law_cross_term::<FE>(terms.cross, bs.share == 1, bt.share == 1, ks, kt);
    lemma_spdz_paired_exchanged::<FE>(b.0, b.1, kt, ks);
    law_field_bit::<FE>(bs, bt, a, (b.1, b.0), f, ks, kt);
}

/// Where the products of an addition come from.
pub enum ProductSource {
    /// From triples, of which the peers hold one part each.
    Triples { s: Seq<SpdzTripleView>, t: Seq<SpdzTripleView> },
    /// From oblivious transfers, for each round and row.
    Direct { terms: Seq<Seq<DirectTerms>> },
}

/// The products of the current round of an addition, from the opened masks.
pub open spec fn spdz_round_products(
    a: AdderView<SpdzView>,
    triples: Seq<SpdzTripleView>,
    role: PeerRole,
    alpha: int,
    d: Seq<int>,
    e: Seq<int>,
) -> Seq<SpdzView> {
    Seq::new(
        a.lhs.len(),
        |row: int|
            spdz_product_share(role, alpha, triples[a.round * a.num() + row], d[row], e[row]),
    )
}

/// Two peers with the source of their products, of which `s` is the first, and
/// with the shares `ks` and `kt` of the MAC key.
pub struct ProductSetting {
    pub source: ProductSource,
    pub ks: int,
    pub kt: int,
}

impl ProductSetting {
    /// Whether there is enough for an addition of `num` rows of `bit_size` bits.
    pub open spec fn provides(self, num: int, bit_size: int) -> bool {
        &&& 0 <= self.ks < F40b::order()
        &&& 0 <= self.kt < F40b::order()
        &&& match self.source {
            ProductSource::Triples { s, t } => {
                &&& s.len() >= num * bit_size
                &&& t.len() >= num * bit_size
                &&& forall|i: int|
                    0 <= i < num * bit_size ==> spdz_triple_paired(
                        #[trigger] s[i],
                        t[i],
                        self.ks,
                        self.kt,
                    )
            },
            ProductSource::Direct { terms } => {
                &&& terms.len() >= bit_size
                &&& forall|r: int| 0 <= r < bit_size ==> (#[trigger] terms[r]).len() >= num
                &&& forall|r: int, row: int|
                    0 <= r < bit_size && 0 <= row < num ==> (#[trigger] terms[r][row]).fits()
            },
        }
    }

    /// The products of a round on both peers. Where there are triples, the masks
    /// are opened to what the peers share.
    pub open spec fn joint_products(self, s: AdderView<SpdzView>, t: AdderView<SpdzView>) -> (
        Seq<SpdzView>,
        Seq<SpdzView>,
    ) {
        match self.source {
            ProductSource::Triples { s: ts, t: tt } => {
                let first = s.round * s.num();
                let d = Seq::new(
                    s.lhs.len(),
                    |row: int| spdz_opened(s, t, ts[first + row], tt[first + row], row).0,
                );
                let e = Seq::new(
                    s.lhs.len(),
                    |row: int| spdz_opened(s, t, ts[first + row], tt[first + row], row).1,
                );
                (
                    spdz_round_products(s, ts, PeerRole::First, self.ks, d, e),
                    spdz_round_products(t, tt, PeerRole::Second, self.kt, d, e),
                )
            },
            ProductSource::Direct { terms } => (
                Seq::new(
                    s.lhs.len(),
                    |row: int| self.direct(terms[s.round][row], s, t, row).0,
                ),
                Seq::new(
                    s.lhs.len(),
                    |row: int| self.direct(terms[s.round][row], s, t, row).1,
                ),
            ),
        }
    }

    /// The product of the factors of a row, made of `terms`.
    pub open spec fn direct(
        self,
        terms: DirectTerms,
        s: AdderView<SpdzView>,
        t: AdderView<SpdzView>,
        row: int,
    ) -> (SpdzView, SpdzView) {
        terms.products(
            left_factor::<SpdzBitShare>(s, row).share,
            left_factor::<SpdzBitShare>(t, row).share,
            right_factor::<SpdzBitShare>(s, row).share,
            right_factor::<SpdzBitShare>(t, row).share,
            self.ks,
            self.kt,
        )
    }

    /// The products of the first `rounds` rounds on both peers.
    pub open spec fn all_products(
        self,
        s: AdderView<SpdzView>,
        t: AdderView<SpdzView>,
        rounds: nat,
    ) -> (Seq<Seq<SpdzView>>, Seq<Seq<SpdzView>>)
        decreases rounds,
    {
        if rounds == 0 {
            (Seq::empty(), Seq::empty())
        } else {
            let (ps, pt) = self.all_products(s, t, (rounds - 1) as nat);
            let (qs, qt) = self.joint_products(
                adder_run::<SpdzBitShare>(s, ps),
                adder_run::<SpdzBitShare>(t, pt),
            );
            (ps.push(qs), pt.push(qt))
        }
    }
}

proof fn lemma_direct_row(
    w: ProductSetting,
    terms: DirectTerms,
    s: AdderView<SpdzView>,
    t: AdderView<SpdzView>,
    ps: Seq<SpdzView>,
    pt: Seq<SpdzView>,
    row: int,
)
    requires
        adders_agree::<SpdzBitShare>(s, t, w.ks, w.kt),
        s.round < s.bit_size(),
        0 <= row < s.num(),
        0 <= w.ks < F40b::order(),
        0 <= w.kt < F40b::order(),
        terms.fits(),
        ps[row] == w.direct(terms, s, t, row).0,
        pt[row] == w.direct(terms, s, t, row).1,
    ensures
        product_matches::<SpdzBitShare>(s, t, ps, pt, w.ks, w.kt, row),
{
    let (ks, kt) = (w.ks, w.kt);
    let (xs, xt) = (
        left_factor::<SpdzBitShare>(s, row).share,
        left_factor::<SpdzBitShare>(t, row).share,
    );
    let (ys, yt) = (
        right_factor::<SpdzBitShare>(s, row).share,
        right_factor::<SpdzBitShare>(t, row).share,
    );
    lemma_factors_match::<SpdzBitShare>(s, t, ks, kt, row);
    F2::law_closed(xs, ys);
    F2::law_closed(xt, yt);
    let a = terms.own_s.shares::<F40b>(F2::times(xs, ys), ks, kt);
    let b = terms.own_t.shares::<F40b>(F2::times(xt, yt), kt, ks);
    let f = terms.first_second.shares::<F40b>(xs == 1, yt == 1, ks, kt);
    let g = terms.second_first.shares::<F40b>(xt == 1, ys == 1, kt, ks);
    law_spdz_sharing::<F40b>(
        ks,
        kt,
        F2::times(xs, ys),
        terms.own_s.remote,
        terms.own_s.w0,
        terms.own_s.w1,
    );
    law_spdz_sharing::<F40b>(
        kt,
        ks,
        F2::times(xt, yt),
        terms.own_t.remote,
        terms.own_t.w0,
        terms.own_t.w1,
    );
    law_cross_term::<F40b>(terms.first_second, xs == 1, yt == 1, ks, kt);
    law_cross_term::<F40b>(terms.second_first, xt == 1, ys == 1, kt, ks);
    lemma_spdz_paired_exchanged::<F40b>(b.0, b.1, kt, ks);
    lemma_spdz_paired_exchanged::<F40b>(g.0, g.1, kt, ks);
    assert(0 * yt == 0 && 1 * yt == yt && 0 * ys == 0 && 1 * ys == ys);
    law_spdz_round_direct(s, t, a, (b.1, b.0), f, (g.1, g.0), ps, pt, ks, kt, row);
}

/// A round of an addition: the peers end up with valid shares of the products of
/// the factors.
pub proof fn law_spdz_round_products(
    w: ProductSetting,
    s: AdderView<SpdzView>,
    t: AdderView<SpdzView>,
)
    requires
        adders_agree::<SpdzBitShare>(s, t, w.ks, w.kt),
        s.round < s.bit_size(),
        w.provides(s.num(), s.bit_size()),
    ensures
        ({
            let (ps, pt) = w.joint_products(s, t);
            products_match::<SpdzBitShare>(s, t, ps, pt, w.ks, w.kt)
        }),
{
    let (ps, pt) = w.joint_products(s, t);
    assert forall|row: int| 0 <= row < s.num() implies #[trigger] product_matches::<SpdzBitShare>(
        s,
        t,
        ps,
        pt,
        w.ks,
        w.kt,
        row,
    ) by {
        match w.source {
            ProductSource::Triples { s: ts, t: tt } => {
                let i = s.round * s.num() + row;
                lemma_round_fits(s.round, s.num(), s.bit_size(), row + 1);
                assert(spdz_triple_paired(ts[i], tt[i], w.ks, w.kt));
                law_spdz_round_by_triples(
                    s,
                    t,
                    ts[i],
                    tt[i],
                    ps,
                    pt,
                    PeerRole::First,
                    w.ks,
                    w.kt,
                    row,
                );
            },
            ProductSource::Direct { terms } => {
                lemma_direct_row(w, terms[s.round][row], s, t, ps, pt, row);
            },
        }
    }
}

/// An addition has valid shares of all the products it needs.
pub proof fn law_spdz_all_products(
    w: ProductSetting,
    s: AdderView<SpdzView>,
    t: AdderView<SpdzView>,
    rounds: nat,
)
    requires
        adders_agree::<SpdzBitShare>(s, t, w.ks, w.kt),
        s.round + rounds <= s.bit_size(),
        w.provides(s.num(), s.bit_size()),
    ensures
        ({
            let (ps, pt) = w.all_products(s, t, rounds);
            &&& ps.len() == rounds
            &&& all_products_match::<SpdzBitShare>(s, t, ps, pt, w.ks, w.kt)
        }),
    decreases rounds,
{
    if rounds > 0 {
        law_spdz_all_products(w, s, t, (rounds - 1) as nat);
        let (ps, pt) = w.all_products(s, t, (rounds - 1) as nat);
        law_adder_run::<SpdzBitShare>(s, t, ps, pt, w.ks, w.kt);
        let u = adder_run::<SpdzBitShare>(s, ps);
        let v = adder_run::<SpdzBitShare>(t, pt);
        law_spdz_round_products(w, u, v);
        let (qs, qt) = w.joint_products(u, v);
        assert(ps.push(qs).drop_last() =~= ps);
        assert(pt.push(qt).drop_last() =~= pt);
    }
}

} // verus!
