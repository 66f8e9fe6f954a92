//! What the steps of two peers with SPDZ-style shares come to: what a combination
//! and the check of buckets start with.

use crate::bit_adder::{
    adder_run, adders_agree, left_factor, lemma_factors_match, right_factor, shared_bits, AdderView,
};
use crate::bucket_laws::{full_buckets, lefts, rights};
use crate::cut_and_choose::{
    bucket_pairs_of, groups_denote, law_bucket_pairs, lemma_bucket_pairs_len,
};
use crate::f40b::F40b;
use crate::field::{field_vals, nat_of_bits, FiniteField, FiniteRing, PrimeFiniteField};
use crate::mpc_homcom::PeerRole;
use crate::mpc_original_edabits_spdz::{bucket_adder, bucket_sums};
use crate::mpc_spdz_common::opened_sums;
use crate::mpc_spdz_conv::{
    law_spdz_multiple, law_spdz_sum, spdz_multiple, spdz_paired, spdz_secret, spdz_sum,
    SpdzBitShare, SpdzEdabitView, SpdzView,
};
use crate::prime_fields::F2;
use crate::protocol_laws::lemma_less_multiple;
use crate::ring::lemma_zero_plus;
use crate::spdz_combination::{
    law_spdz_combination, lemma_spdz_deviation, spdz_combine_adder, spdz_consistent,
    spdz_corrected, spdz_number, SpdzCombination,
};
use crate::spdz_laws::{law_spdz_bucket_verdict, spdz_pair_cancels, spdz_pair_values, spdz_sent};
use crate::spdz_multiplication::{law_spdz_product_share, spdz_triple_paired, SpdzTripleView};
use crate::spdz_products::spdz_round_products;
use vstd::arithmetic::power2::pow2;
use vstd::prelude::*;

verus! {

/// A combination starts with nothing added, and with one row for each edaBit of
/// the first peer: its bits on the left, those of the second peer's edaBit on the
/// right.
pub proof fn law_spdz_combination_start(
    role: PeerRole,
    own: Seq<SpdzEdabitView>,
    peer: Seq<SpdzEdabitView>,
)
    ensures
        ({
            let start = spdz_combine_adder(role, own, peer);
            let (firsts, seconds) = if role is First {
                (own, peer)
            } else {
                (peer, own)
            };
            &&& start.lhs.len() == firsts.len()
            &&& start.rhs.len() == seconds.len()
            &&& forall|i: int|
                0 <= i < firsts.len() ==> #[trigger] start.lhs[i] == firsts[i].bits
            &&& forall|i: int|
                0 <= i < seconds.len() ==> #[trigger] start.rhs[i] == seconds[i].bits
            &&& start.round == 0
            &&& start.sums.len() == start.lhs.len()
            &&& start.carry.len() == start.lhs.len()
            &&& forall|i: int| 0 <= i < start.sums.len() ==> #[trigger] start.sums[i].len() == 0
            &&& forall|i: int|
                0 <= i < start.carry.len() ==> #[trigger] start.carry[i] == (SpdzView {
                    share: 0,
                    mac: 0,
                })
        }),
{
}

/// What the two peers start with is one combination, which can be carried out,
/// and what is started so ends in bits that denote the sums of the private numbers
/// modulo `2^m`.
pub proof fn law_spdz_started_combination<FE: PrimeFiniteField>(c: SpdzCombination, m: nat)
    requires
        forall|i: int| 0 <= i < c.firsts.0.len() ==> #[trigger] c.supplied::<FE>(m, i),
        c.firsts.0.len() > 0,
    ensures
        ({
            let s = spdz_combine_adder(PeerRole::First, c.firsts.0, c.seconds.0);
            let t = spdz_combine_adder(PeerRole::Second, c.seconds.1, c.firsts.1);
            let (ps, pt) = c.setting().all_products(s, t, m);
            let u = adder_run::<SpdzBitShare>(s, ps);
            let v = adder_run::<SpdzBitShare>(t, pt);
            &&& s == c.adder_s()
            &&& t == c.adder_t()
            &&& s.well_formed()
            &&& t.well_formed()
            &&& forall|i: int|
                0 <= i < c.firsts.0.len() ==> nat_of_bits(
                    shared_bits::<SpdzBitShare>(#[trigger] u.sums[i], v.sums[i]),
                ) == (spdz_number(c.firsts.0[i], c.firsts.1[i]) + spdz_number(
                    c.seconds.0[i],
                    c.seconds.1[i],
                )) % pow2(m)
        }),
{
    let s = spdz_combine_adder(PeerRole::First, c.firsts.0, c.seconds.0);
    let t = spdz_combine_adder(PeerRole::Second, c.seconds.1, c.firsts.1);
    assert(s == c.adder_s() && t == c.adder_t());
    assert(c.supplied::<FE>(m, 0));
    let (u, v) = c.added(m);
    assert forall|i: int| 0 <= i < c.firsts.0.len() implies nat_of_bits(
        shared_bits::<SpdzBitShare>(#[trigger] u.sums[i], v.sums[i]),
    ) == (spdz_number(c.firsts.0[i], c.firsts.1[i]) + spdz_number(
        c.seconds.0[i],
        c.seconds.1[i],
    )) % pow2(m) by {
        assert(c.supplied::<FE>(m, i));
        law_spdz_combination::<FE>(c, m, i);
    }
}

/// A row of a round of an addition: where the masks are opened to what the peers
/// share, each of them a factor plus a bit of the triple of that round and row, the
/// peers get valid shares of the product of the factors.
pub proof fn law_spdz_round(
    s: AdderView<SpdzView>,
    t: AdderView<SpdzView>,
    triples: (Seq<SpdzTripleView>, Seq<SpdzTripleView>),
    opened: (Seq<int>, Seq<int>),
    ks: int,
    kt: int,
    row: int,
)
    requires
        adders_agree::<SpdzBitShare>(s, t, ks, kt),
        0 <= row < s.num(),
        s.round < s.bit_size(),
        spdz_triple_paired(
            triples.0[s.round * s.num() + row],
            triples.1[s.round * s.num() + row],
            ks,
            kt,
        ),
        opened.0[row] == spdz_secret::<F40b>(
            spdz_sum::<F40b>(
                left_factor::<SpdzBitShare>(s, row),
                triples.0[s.round * s.num() + row].a,
            ),
            spdz_sum::<F40b>(
                left_factor::<SpdzBitShare>(t, row),
                triples.1[s.round * s.num() + row].a,
            ),
        ),
        opened.1[row] == spdz_secret::<F40b>(
            spdz_sum::<F40b>(
                right_factor::<SpdzBitShare>(s, row),
                triples.0[s.round * s.num() + row].b,
            ),
            spdz_sum::<F40b>(
                right_factor::<SpdzBitShare>(t, row),
                triples.1[s.round * s.num() + row].b,
            ),
        ),
    ensures
        ({
            let ps = spdz_round_products(
                s,
                triples.0,
                PeerRole::First,
                ks,
                opened.0,
                opened.1,
            );
            let pt = spdz_round_products(
                t,
                triples.1,
                PeerRole::Second,
                kt,
                opened.0,
                opened.1,
            );
            &&& spdz_paired::<F40b>(ps[row], pt[row], ks, kt)
            &&& spdz_secret::<F40b>(ps[row], pt[row]) == F2::times(
                spdz_secret::<F40b>(
                    left_factor::<SpdzBitShare>(s, row),
                    left_factor::<SpdzBitShare>(t, row),
                ),
                spdz_secret::<F40b>(
                    right_factor::<SpdzBitShare>(s, row),
                    right_factor::<SpdzBitShare>(t, row),
                ),
            )
        }),
{
    let i = s.round * s.num() + row;
    lemma_factors_match::<SpdzBitShare>(s, t, ks, kt, row);
    law_spdz_product_share(
        PeerRole::First,
        ks,
        kt,
        left_factor::<SpdzBitShare>(s, row),
        left_factor::<SpdzBitShare>(t, row),
        right_factor::<SpdzBitShare>(s, row),
        right_factor::<SpdzBitShare>(t, row),
        triples.0[i],
        triples.1[i],
    );
}

/// Correcting for overflow: the peers end up with valid shares of the sum less
/// `2^m` times the carry.
pub proof fn law_spdz_corrected<FE: FiniteField>(
    sum: (SpdzView, SpdzView),
    carry: (SpdzView, SpdzView),
    m: nat,
    ks: int,
    kt: int,
)
    requires
        spdz_paired::<FE>(sum.0, sum.1, ks, kt),
        spdz_paired::<FE>(carry.0, carry.1, ks, kt),
    ensures
        ({
            let s = spdz_corrected::<FE>(sum.0, carry.0, m);
            let t = spdz_corrected::<FE>(sum.1, carry.1, m);
            &&& spdz_paired::<FE>(s, t, ks, kt)
            &&& spdz_secret::<FE>(s, t) == (spdz_secret::<FE>(sum.0, sum.1) - pow2(m)
                * spdz_secret::<FE>(carry.0, carry.1)) % FE::PrimeField::order()
        }),
{
    let q = pow2(m) as int % FE::PrimeField::order();
    let scale = FE::PrimeField::opposite(q);
    FE::PrimeField::law_order();
    FE::PrimeField::law_closed(q, q);
    law_spdz_multiple::<FE>(scale, carry.0, carry.1, ks, kt);
    law_spdz_sum::<FE>(
        sum.0,
        sum.1,
        spdz_multiple::<FE>(scale, carry.0),
        spdz_multiple::<FE>(scale, carry.1),
        ks,
        kt,
    );
    FE::PrimeField::law_closed(sum.0.share, sum.1.share);
    FE::PrimeField::law_closed(carry.0.share, carry.1.share);
    lemma_less_multiple::<FE::PrimeField>(
        spdz_secret::<FE>(sum.0, sum.1),
        spdz_secret::<FE>(carry.0, carry.1),
        pow2(m),
    );
}

/// The sums that the check of buckets starts with: for each edaBit after the first
/// of a bucket, the peers hold valid shares of the sum of its value and the value
/// of the first edaBit of the bucket.
pub proof fn law_spdz_bucket_sums<FE: FiniteField>(
    s: Seq<Seq<SpdzEdabitView>>,
    t: Seq<Seq<SpdzEdabitView>>,
    ks: int,
    kt: int,
    b: int,
    p: int,
)
    requires
        t.len() == s.len(),
        0 <= b < s.len(),
        t[0].len() == s[0].len(),
        1 <= p < s[0].len(),
        spdz_paired::<FE>(s[b][0].value, t[b][0].value, ks, kt),
        spdz_paired::<FE>(s[b][p].value, t[b][p].value, ks, kt),
    ensures
        ({
            let i = b * (s[0].len() - 1) + p - 1;
            let (x, y) = (bucket_sums::<FE>(s), bucket_sums::<FE>(t));
            &&& x.len() == s.len() * (s[0].len() - 1)
            &&& y.len() == s.len() * (s[0].len() - 1)
            &&& 0 <= i < x.len()
            &&& spdz_paired::<FE>(x[i], y[i], ks, kt)
            &&& spdz_secret::<FE>(x[i], y[i]) == FE::PrimeField::plus(
                spdz_secret::<FE>(s[b][0].value, t[b][0].value),
                spdz_secret::<FE>(s[b][p].value, t[b][p].value),
            )
        }),
{
    law_bucket_pairs(s, b, p);
    law_bucket_pairs(t, b, p);
    law_spdz_sum::<FE>(
        s[b][0].value,
        t[b][0].value,
        s[b][p].value,
        t[b][p].value,
        ks,
        kt,
    );
}

/// The addition that the check of buckets starts with: in the row of each edaBit
/// after the first of a bucket, its bits are added to those of the first edaBit of
/// the bucket.
pub proof fn law_spdz_bucket_adder(s: Seq<Seq<SpdzEdabitView>>, b: int, p: int)
    requires
        0 <= b < s.len(),
        1 <= p < s[0].len(),
    ensures
        ({
            let i = b * (s[0].len() - 1) + p - 1;
            let start = bucket_adder(s);
            &&& start.lhs.len() == s.len() * (s[0].len() - 1)
            &&& start.rhs.len() == s.len() * (s[0].len() - 1)
            &&& start.round == 0
            &&& 0 <= i < start.lhs.len()
            &&& start.lhs[i] == s[b][0].bits
            &&& start.rhs[i] == s[b][p].bits
            &&& start.sums[i].len() == 0
            &&& start.carry[i] == (SpdzView { share: 0, mac: 0 })
        }),
{
    law_bucket_pairs(s, b, p);
}

/// Consistent edaBits pass the check of buckets: where the peers correct the sums
/// that the check starts with, and open them and the added bits to what they share,
/// the check finds nothing wrong.
pub proof fn law_spdz_consistent_buckets_pass<FE: PrimeFiniteField>(
    s: Seq<Seq<SpdzEdabitView>>,
    t: Seq<Seq<SpdzEdabitView>>,
    c: SpdzCombination,
    size: int,
    m: nat,
    bits: Seq<F2>,
    values: Seq<FE>,
)
    requires
        size >= 2,
        m > 0,
        full_buckets(s, t, size),
        c.firsts == (lefts(bucket_pairs_of(s)), lefts(bucket_pairs_of(t))),
        c.seconds == (rights(bucket_pairs_of(s)), rights(bucket_pairs_of(t))),
        forall|i: int|
            0 <= i < bucket_pairs_of(s).len() ==> #[trigger] c.supplied::<FE>(m, i),
        forall|b: int, p: int|
            0 <= b < s.len() && 0 <= p < size ==> spdz_consistent::<FE>(
                #[trigger] s[b][p],
                t[b][p],
            ),
        ({
            let (ps, pt) = c.setting().all_products(bucket_adder(s), bucket_adder(t), m);
            let u = adder_run::<SpdzBitShare>(bucket_adder(s), ps);
            let v = adder_run::<SpdzBitShare>(bucket_adder(t), pt);
            field_vals(bits) == opened_sums::<F2>(
                spdz_sent(u.sums.flatten()),
                spdz_sent(v.sums.flatten()),
            )
        }),
        ({
            let (x, y) = (bucket_sums::<FE>(s), bucket_sums::<FE>(t));
            field_vals(values) == opened_sums::<FE>(
                spdz_sent(
                    Seq::new(
                        x.len(),
                        |i: int| spdz_corrected::<FE>(x[i], c.carry::<FE>(m, i).0, m),
                    ),
                ),
                spdz_sent(
                    Seq::new(
                        y.len(),
                        |i: int| spdz_corrected::<FE>(y[i], c.carry::<FE>(m, i).1, m),
                    ),
                ),
            )
        }),
    ensures
        groups_denote::<FE>(bits, values, m as int),
{
    let (x, y) = (bucket_sums::<FE>(s), bucket_sums::<FE>(t));
    lemma_bucket_pairs_len(s, size);
    lemma_bucket_pairs_len(t, size);
    assert(c.adder_s().lhs =~= bucket_adder(s).lhs);
    assert(c.adder_s().rhs =~= bucket_adder(s).rhs);
    assert(c.adder_t().lhs =~= bucket_adder(t).lhs);
    assert(c.adder_t().rhs =~= bucket_adder(t).rhs);
    let left = Seq::new(
        x.len(),
        |i: int| spdz_corrected::<FE>(x[i], c.carry::<FE>(m, i).0, m),
    );
    let right = Seq::new(
        y.len(),
        |i: int| spdz_corrected::<FE>(y[i], c.carry::<FE>(m, i).1, m),
    );
    assert(left =~= spdz_pair_values::<FE>(c, m).0);
    assert(right =~= spdz_pair_values::<FE>(c, m).1);
    law_spdz_bucket_verdict::<FE>(s, t, c, size, m, bits, values);
    assert forall|b: int, p: int| 0 <= b < s.len() && 1 <= p < size implies
        #[trigger] spdz_pair_cancels::<FE>(s, t, b, p) by {
        assert(spdz_consistent::<FE>(s[b][0], t[b][0]));
        assert(spdz_consistent::<FE>(s[b][p], t[b][p]));
        lemma_spdz_deviation::<FE>(s[b][0], t[b][0]);
        lemma_spdz_deviation::<FE>(s[b][p], t[b][p]);
        FE::law_order();
        lemma_zero_plus::<FE>(0);
    }
}

} // verus!
