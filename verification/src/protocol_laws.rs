//! What the steps of the two peers come to: what a combination and the check of
//! buckets start with, and what opened edaBits are.

use crate::bit_adder::{adder_run, shared_bits};
use crate::bits::number;
use crate::bucket_laws::{
    full_buckets, law_bucket_verdict, lefts, pair_cancels, pair_values, rights,
};
use crate::combination_laws::{
    edabit_consistent, edabit_paired, law_combination, law_owner_zero, lemma_deviation,
    lemma_opened_number, shared_number, Combination, Keys,
};
use crate::cut_and_choose::{
    bucket_pairs_of, groups_denote, law_bucket_pairs, lemma_bucket_pairs_len,
};
use crate::f40b::F40b;
use crate::field::{
    field_vals, nat_of_bits, FiniteField, FiniteRing, PrimeFiniteField, PrimeRing,
};
use crate::homcom::MacVerifier;
use crate::mpc_conv::{EdabitView, GlobalEdabit};
use crate::mpc_edabits_common::{
    combinable, combination_start, corrected_share, opened_batch, opened_from, owner_zero_local,
    owner_zero_remote, sent_values, unmasked_share,
};
use crate::mpc_homcom::PeerRole;
use crate::mpc_original_edabits::{bucket_adder, bucket_sums};
use crate::prime_fields::F2;
use crate::ring::{embed, lemma_zero_plus};
use crate::share::{
    law_share_multiple, law_share_sum, paired, secret, share_multiple, AuthenticatedShare,
    ShareView,
};
use vstd::arithmetic::div_mod::{
    lemma_add_mod_noop, lemma_mul_mod_noop, lemma_small_mod, lemma_sub_mod_noop,
};
use vstd::arithmetic::power2::pow2;
use vstd::prelude::*;

verus! {

/// A combination starts with nothing added, and with one row for each edaBit of
/// the first peer: its bits on the left, those of the second peer's edaBit on the
/// right. A peer without edaBits starts with no row.
pub proof fn law_combination_start(role: PeerRole, own: Seq<EdabitView>, peer: Seq<EdabitView>)
    ensures
        ({
            let start = combination_start(role, own, peer);
            let (firsts, seconds) = if role is First {
                (own, peer)
            } else {
                (peer, own)
            };
            &&& own.len() == 0 ==> start.lhs.len() == 0 && start.rhs.len() == 0
            &&& own.len() > 0 ==> {
                &&& start.lhs.len() == firsts.len()
                &&& start.rhs.len() == seconds.len()
                &&& forall|i: int|
                    0 <= i < firsts.len() ==> #[trigger] start.lhs[i] == firsts[i].bits
                &&& forall|i: int|
                    0 <= i < seconds.len() ==> #[trigger] start.rhs[i] == seconds[i].bits
            }
            &&& start.round == 0
            &&& start.sums.len() == start.lhs.len()
            &&& start.carry.len() == start.lhs.len()
            &&& forall|i: int| 0 <= i < start.sums.len() ==> #[trigger] start.sums[i].len() == 0
            &&& forall|i: int|
                0 <= i < start.carry.len() ==> #[trigger] start.carry[i] == (ShareView {
                    value: 0,
                    mac: 0,
                    key: 0,
                })
        }),
{
}

/// What the two peers start with is one combination, which can be carried out,
/// and what is started so ends in bits that denote the sums of the private numbers
/// modulo `2^m`.
pub proof fn law_started_combination<FE: PrimeFiniteField>(c: Combination, m: nat)
    requires
        c.firsts.1.len() == c.firsts.0.len(),
        c.seconds.0.len() == c.firsts.0.len(),
        c.seconds.1.len() == c.firsts.0.len(),
        forall|i: int| 0 <= i < c.firsts.0.len() ==> #[trigger] c.ready::<FE>(m, i),
    ensures
        ({
            let s = combination_start(PeerRole::First, c.firsts.0, c.seconds.0);
            let t = combination_start(PeerRole::Second, c.seconds.1, c.firsts.1);
            let (ps, pt) = c.setting().all_products(s, t, m);
            let u = adder_run::<AuthenticatedShare<F40b>>(s, ps);
            let v = adder_run::<AuthenticatedShare<F40b>>(t, pt);
            &&& s == c.adder_s()
            &&& t == c.adder_t()
            &&& combinable(PeerRole::First, c.firsts.0, c.seconds.0)
            &&& combinable(PeerRole::Second, c.seconds.1, c.firsts.1)
            &&& forall|i: int|
                0 <= i < c.firsts.0.len() ==> nat_of_bits(
                    shared_bits::<AuthenticatedShare<F40b>>(#[trigger] u.sums[i], v.sums[i]),
                ) == (shared_number(c.firsts.0[i], c.firsts.1[i]) + shared_number(
                    c.seconds.0[i],
                    c.seconds.1[i],
                )) % pow2(m)
        }),
{
    let s = combination_start(PeerRole::First, c.firsts.0, c.seconds.0);
    let t = combination_start(PeerRole::Second, c.seconds.1, c.firsts.1);
    assert(s.lhs =~= c.adder_s().lhs && s.rhs =~= c.adder_s().rhs);
    assert(t.lhs =~= c.adder_t().lhs && t.rhs =~= c.adder_t().rhs);
    assert(s.sums =~= c.adder_s().sums && s.carry =~= c.adder_s().carry);
    assert(t.sums =~= c.adder_t().sums && t.carry =~= c.adder_t().carry);
    if c.firsts.0.len() > 0 {
        assert(c.ready::<FE>(m, 0));
    }
    assert(s == c.adder_s() && t == c.adder_t());
    let (u, v) = c.added(m);
    assert forall|i: int| 0 <= i < c.firsts.0.len() implies nat_of_bits(
        shared_bits::<AuthenticatedShare<F40b>>(#[trigger] u.sums[i], v.sums[i]),
    ) == (shared_number(c.firsts.0[i], c.firsts.1[i]) + shared_number(
        c.seconds.0[i],
        c.seconds.1[i],
    )) % pow2(m) by {
        assert(c.ready::<FE>(m, i));
        law_combination::<FE>(c, m, i);
    }
}

/// What each peer opens of edaBits of which it gets the other one's shares: both
/// get the same, every bit is the shared one, and the value is the shared one. Where
/// the edaBit is consistent, the value is what the bits denote.
pub proof fn law_opened_edabits<FE: PrimeFiniteField>(
    edabits: (Seq<GlobalEdabit<FE>>, Seq<GlobalEdabit<FE>>),
    sent: (Seq<(Vec<F2>, FE)>, Seq<(Vec<F2>, FE)>),
    opened: (Seq<(Vec<F2>, FE)>, Seq<(Vec<F2>, FE)>),
    keys: Keys,
    i: int,
)
    requires
        0 <= i < edabits.0.len(),
        edabits.1.len() == edabits.0.len(),
        edabit_paired::<FE>(edabits.0[i]@, edabits.1[i]@, keys),
        forall|j: int|
            0 <= j < edabits.0[i]@.bits.len() ==> (#[trigger] sent.0[i].0@[j]).val()
                == edabits.0[i]@.bits[j].value,
        forall|j: int|
            0 <= j < edabits.1[i]@.bits.len() ==> (#[trigger] sent.1[i].0@[j]).val()
                == edabits.1[i]@.bits[j].value,
        sent.0[i].1.val() == edabits.0[i]@.value.value,
        sent.1[i].1.val() == edabits.1[i]@.value.value,
        opened_from(opened.0, edabits.0, sent.1),
        opened_from(opened.1, edabits.1, sent.0),
    ensures
        opened.0.len() == edabits.0.len(),
        opened.1.len() == edabits.0.len(),
        opened.0[i].0@.len() == edabits.0[i]@.bits.len(),
        opened.1[i].0@.len() == edabits.0[i]@.bits.len(),
        forall|j: int|
            0 <= j < edabits.0[i]@.bits.len() ==> {
                let bit = secret::<F40b>(edabits.0[i]@.bits[j], edabits.1[i]@.bits[j]);
                &&& (#[trigger] opened.0[i].0@[j]).val() == bit
                &&& opened.1[i].0@[j].val() == bit
            },
        opened.0[i].1.val() == secret::<FE>(edabits.0[i]@.value, edabits.1[i]@.value),
        opened.1[i].1.val() == secret::<FE>(edabits.0[i]@.value, edabits.1[i]@.value),
        number(opened.0[i].0@) == shared_number(edabits.0[i]@, edabits.1[i]@),
        edabit_consistent::<FE>(edabits.0[i]@, edabits.1[i]@) ==> opened.0[i].1.val() == number(
            opened.0[i].0@,
        ) as int % FE::order(),
{
    let (s, t) = (edabits.0[i]@, edabits.1[i]@);
    assert(opened.0[i].0@.len() == s.bits.len());
    assert(opened.1[i].0@.len() == t.bits.len());
    assert forall|j: int| 0 <= j < s.bits.len() implies {
        let bit = secret::<F40b>(s.bits[j], t.bits[j]);
        &&& (#[trigger] opened.0[i].0@[j]).val() == bit
        &&& opened.1[i].0@[j].val() == bit
    } by {
        assert(sent.0[i].0@[j].val() == s.bits[j].value);
        assert(sent.1[i].0@[j].val() == t.bits[j].value);
        F2::law_plus_comm(s.bits[j].value, t.bits[j].value);
        assert(opened.1[i].0@[j].val() == F2::plus(t.bits[j].value, s.bits[j].value));
    }
    FE::law_plus_comm(s.value.value, t.value.value);
    lemma_opened_number(s, t, opened.0[i].0@);
}

/// What the global edaBits of a combination open to, where each peer gets the other
/// one's shares: the sums of the private numbers, for both peers alike.
pub proof fn law_opened_combination<FE: PrimeFiniteField>(
    c: Combination,
    m: nat,
    edabits: (Seq<GlobalEdabit<FE>>, Seq<GlobalEdabit<FE>>),
    sent: (Seq<(Vec<F2>, FE)>, Seq<(Vec<F2>, FE)>),
    opened: (Seq<(Vec<F2>, FE)>, Seq<(Vec<F2>, FE)>),
    i: int,
)
    requires
        0 <= i < c.firsts.0.len(),
        c.ready::<FE>(m, i),
        c.ready::<FE>(m, 0),
        edabits.0.len() == c.firsts.0.len(),
        edabits.1.len() == c.firsts.0.len(),
        edabits.0[i]@ == c.result_s::<FE>(m, i),
        edabits.1[i]@ == c.result_t::<FE>(m, i),
        forall|j: int|
            0 <= j < edabits.0[i]@.bits.len() ==> (#[trigger] sent.0[i].0@[j]).val()
                == edabits.0[i]@.bits[j].value,
        forall|j: int|
            0 <= j < edabits.1[i]@.bits.len() ==> (#[trigger] sent.1[i].0@[j]).val()
                == edabits.1[i]@.bits[j].value,
        sent.0[i].1.val() == edabits.0[i]@.value.value,
        sent.1[i].1.val() == edabits.1[i]@.value.value,
        opened_from(opened.0, edabits.0, sent.1),
        opened_from(opened.1, edabits.1, sent.0),
    ensures
        number(opened.0[i].0@) == (shared_number(c.firsts.0[i], c.firsts.1[i]) + shared_number(
            c.seconds.0[i],
            c.seconds.1[i],
        )) % pow2(m),
        opened.0[i].1.val() == number(opened.0[i].0@) as int % FE::order(),
        opened.1[i].1.val() == opened.0[i].1.val(),
        opened.0[i].0@.len() == m,
        opened.1[i].0@.len() == m,
        forall|j: int|
            0 <= j < m ==> (#[trigger] opened.1[i].0@[j]).val() == opened.0[i].0@[j].val(),
{
    law_combination::<FE>(c, m, i);
    law_opened_edabits::<FE>(edabits, sent, opened, c.keys, i);
    assert forall|j: int| 0 <= j < m implies (#[trigger] opened.1[i].0@[j]).val()
        == opened.0[i].0@[j].val() by {
        assert(opened.0[i].0@[j].val() == secret::<F40b>(
            edabits.0[i]@.bits[j],
            edabits.1[i]@.bits[j],
        ));
    }
}

/// Taking `c` times a power from an element.
pub proof fn lemma_less_multiple<F: PrimeRing>(a: int, c: int, power: nat)
    requires
        0 <= a < F::order(),
        0 <= c < F::order(),
    ensures
        F::plus(a, F::times(F::opposite(power as int % F::order()), c)) == (a - power * c)
            % F::order(),
{
    let p = F::order();
    F::law_order();
    let q = power as int % p;
    F::law_modular(q, 0);
    F::law_modular(F::opposite(q), c);
    F::law_modular(a, F::times(F::opposite(q), c));
    lemma_sub_mod_noop(0, power as int, p);
    lemma_small_mod(0, p as nat);
    assert((-q) % p == (-(power as int)) % p);
    lemma_mul_mod_noop(-(power as int), c, p);
    lemma_small_mod(c as nat, p as nat);
    assert(((-(power as int)) % p * c) % p == (-(power as int) * c) % p);
    lemma_add_mod_noop(a, -(power as int) * c, p);
    lemma_small_mod(a as nat, p as nat);
    assert(a + (-(power as int) * c) == a - power * c) by (nonlinear_arith);
}

/// Correcting for overflow: the peers end up with valid shares of the sum less
/// `2^m` times the carry.
pub proof fn law_corrected_share<FE: FiniteField>(
    sum: (ShareView, ShareView),
    carry: (ShareView, ShareView),
    m: nat,
    ds: int,
    dt: int,
)
    requires
        paired::<FE>(sum.0, sum.1, ds, dt),
        paired::<FE>(carry.0, carry.1, ds, dt),
    ensures
        ({
            let s = corrected_share::<FE>(sum.0, carry.0, m);
            let t = corrected_share::<FE>(sum.1, carry.1, m);
            &&& paired::<FE>(s, t, ds, dt)
            &&& secret::<FE>(s, t) == (secret::<FE>(sum.0, sum.1) - pow2(m) * secret::<FE>(
                carry.0,
                carry.1,
            )) % FE::PrimeField::order()
        }),
{
    let q = pow2(m) as int % FE::PrimeField::order();
    let scale = FE::PrimeField::opposite(q);
    FE::PrimeField::law_order();
    FE::PrimeField::law_closed(q, q);
    law_share_multiple::<FE>(scale, carry.0, carry.1, ds, dt);
    law_share_sum::<FE>(
        sum.0,
        sum.1,
        share_multiple::<FE>(scale, carry.0),
        share_multiple::<FE>(scale, carry.1),
        ds,
        dt,
    );
    FE::PrimeField::law_closed(sum.0.value, sum.1.value);
    FE::PrimeField::law_closed(carry.0.value, carry.1.value);
    lemma_less_multiple::<FE::PrimeField>(
        secret::<FE>(sum.0, sum.1),
        secret::<FE>(carry.0, carry.1),
        pow2(m),
    );
}

/// An edaBit that its owner keeps in clear: with MACs that fit the other peer's
/// keys, the two parts are a valid edaBit whose bits and value are the clear ones.
pub proof fn law_owner_zero_edabit<FE: FiniteField>(
    bits: Seq<F2>,
    macs: Seq<F40b>,
    auth: Seq<MacVerifier<F40b>>,
    offset: int,
    value: (int, int),
    value_key: int,
    keys: Keys,
)
    requires
        0 <= offset,
        forall|j: int|
            0 <= j < bits.len() ==> (#[trigger] macs[offset + j]).val() == F40b::plus(
                F40b::times(keys.t_bit, embed::<F40b>(bits[j].val())),
                auth[offset + j].mac.val(),
            ),
        0 <= value.0 < FE::PrimeField::order(),
        0 <= value.1 < FE::order(),
        0 <= value_key < FE::order(),
        value.1 == FE::plus(FE::times(keys.t_value, embed::<FE>(value.0)), value_key),
    ensures
        ({
            let s = owner_zero_local(bits, macs, offset, value.0, value.1);
            let t = owner_zero_remote(auth, offset, bits.len(), value_key);
            &&& edabit_paired::<FE>(s, t, keys)
            &&& s.bits.len() == bits.len()
            &&& forall|j: int|
                0 <= j < bits.len() ==> #[trigger] s.bits[j] == (ShareView {
                    value: bits[j].val(),
                    mac: macs[offset + j].val(),
                    key: 0,
                })
            &&& forall|j: int|
                0 <= j < bits.len() ==> #[trigger] t.bits[j] == (ShareView {
                    value: 0,
                    mac: 0,
                    key: auth[offset + j].mac.val(),
                })
            &&& s.value == (ShareView { value: value.0, mac: value.1, key: 0 })
            &&& t.value == (ShareView { value: 0, mac: 0, key: value_key })
            &&& forall|j: int|
                0 <= j < bits.len() ==> #[trigger] secret::<F40b>(s.bits[j], t.bits[j])
                    == bits[j].val()
            &&& secret::<FE>(s.value, t.value) == value.0
            &&& shared_number(s, t) == number(bits)
            &&& value.0 == number(bits) as int % FE::PrimeField::order()
                ==> edabit_consistent::<FE>(s, t)
        }),
{
    let s = owner_zero_local(bits, macs, offset, value.0, value.1);
    let t = owner_zero_remote(auth, offset, bits.len(), value_key);
    assert forall|j: int| 0 <= j < bits.len() implies {
        &&& paired::<F40b>(#[trigger] s.bits[j], t.bits[j], keys.s_bit, keys.t_bit)
        &&& secret::<F40b>(s.bits[j], t.bits[j]) == bits[j].val()
    } by {
        macs[offset + j].law_val();
        auth[offset + j].mac.law_val();
        law_owner_zero::<F40b>(
            bits[j].val(),
            macs[offset + j].val(),
            auth[offset + j].mac.val(),
            keys.s_bit,
            keys.t_bit,
        );
    }
    law_owner_zero::<FE>(value.0, value.1, value_key, keys.s_value, keys.t_value);
    assert forall|j: int| 0 <= j < bits.len() implies (#[trigger] bits[j]).val() == F2::plus(
        s.bits[j].value,
        t.bits[j].value,
    ) by {
        assert(secret::<F40b>(s.bits[j], t.bits[j]) == bits[j].val());
    }
    lemma_opened_number(s, t, bits);
}

/// The sums that the check of buckets starts with: for each edaBit after the first
/// of a bucket, the peers hold valid shares of the sum of its value and the value
/// of the first edaBit of the bucket.
pub proof fn law_bucket_sums<FE: FiniteField>(
    s: Seq<Seq<EdabitView>>,
    t: Seq<Seq<EdabitView>>,
    keys: Keys,
    b: int,
    p: int,
)
    requires
        t.len() == s.len(),
        0 <= b < s.len(),
        t[0].len() == s[0].len(),
        1 <= p < s[0].len(),
        paired::<FE>(s[b][0].value, t[b][0].value, keys.s_value, keys.t_value),
        paired::<FE>(s[b][p].value, t[b][p].value, keys.s_value, keys.t_value),
    ensures
        ({
            let i = b * (s[0].len() - 1) + p - 1;
            let (x, y) = (bucket_sums::<FE>(s), bucket_sums::<FE>(t));
            &&& x.len() == s.len() * (s[0].len() - 1)
            &&& y.len() == s.len() * (s[0].len() - 1)
            &&& 0 <= i < x.len()
            &&& paired::<FE>(x[i], y[i], keys.s_value, keys.t_value)
            &&& secret::<FE>(x[i], y[i]) == FE::PrimeField::plus(
                secret::<FE>(s[b][0].value, t[b][0].value),
                secret::<FE>(s[b][p].value, t[b][p].value),
            )
        }),
{
    law_bucket_pairs(s, b, p);
    law_bucket_pairs(t, b, p);
    law_share_sum::<FE>(
        s[b][0].value,
        t[b][0].value,
        s[b][p].value,
        t[b][p].value,
        keys.s_value,
        keys.t_value,
    );
}

/// The addition that the check of buckets starts with: in the row of each edaBit
/// after the first of a bucket, its bits are added to those of the first edaBit of
/// the bucket.
pub proof fn law_bucket_adder(s: Seq<Seq<EdabitView>>, b: int, p: int)
    requires
        0 <= b < s.len(),
        1 <= p < s[0].len(),
    ensures
        ({
            let i = b * (s[0].len() - 1) + p - 1;
            let start = bucket_adder(s);
            &&& start.lhs.len() == s.len() * (s[0].len() - 1)
            &&& start.rhs.len() == s.len() * (s[0].len() - 1)
            &&& start.round == 0
            &&& 0 <= i < start.lhs.len()
            &&& start.lhs[i] == s[b][0].bits
            &&& start.rhs[i] == s[b][p].bits
            &&& start.sums[i].len() == 0
            &&& start.carry[i] == (ShareView { value: 0, mac: 0, key: 0 })
        }),
{
    law_bucket_pairs(s, b, p);
}

/// Consistent edaBits pass the check of buckets: where the peers correct the sums
/// that the check starts with, and open them and the added bits to what they share,
/// the check finds nothing wrong.
pub proof fn law_consistent_buckets_pass<FE: PrimeFiniteField>(
    s: Seq<Seq<EdabitView>>,
    t: Seq<Seq<EdabitView>>,
    c: Combination,
    size: int,
    m: nat,
    bits: Seq<F2>,
    values: Seq<FE>,
)
    requires
        size >= 2,
        m > 0,
        full_buckets(s, t, size),
        c.firsts == (lefts(bucket_pairs_of(s)), lefts(bucket_pairs_of(t))),
        c.seconds == (rights(bucket_pairs_of(s)), rights(bucket_pairs_of(t))),
        forall|i: int|
            0 <= i < bucket_pairs_of(s).len() ==> #[trigger] c.supplied::<FE>(m, i),
        forall|b: int, p: int|
            0 <= b < s.len() && 0 <= p < size ==> edabit_consistent::<FE>(
                #[trigger] s[b][p],
                t[b][p],
            ),
        ({
            let (ps, pt) = c.setting().all_products(bucket_adder(s), bucket_adder(t), m);
            let u = adder_run::<AuthenticatedShare<F40b>>(bucket_adder(s), ps);
            let v = adder_run::<AuthenticatedShare<F40b>>(bucket_adder(t), pt);
            field_vals(bits) == opened_batch::<F40b>(
                u.sums.flatten(),
                sent_values(v.sums.flatten()),
            )
        }),
        ({
            let (x, y) = (bucket_sums::<FE>(s), bucket_sums::<FE>(t));
            field_vals(values) == opened_batch::<FE>(
                Seq::new(
                    x.len(),
                    |i: int|
                        corrected_share::<FE>(
                            x[i],
                            unmasked_share::<FE>(
                                PeerRole::First,
                                c.keys.s_value,
                                c.dabit_values.0[i],
                                c.mask(m, i),
                            ),
                            m,
                        ),
                ),
                sent_values(
                    Seq::new(
                        y.len(),
                        |i: int|
                            corrected_share::<FE>(
                                y[i],
                                unmasked_share::<FE>(
                                    PeerRole::Second,
                                    c.keys.t_value,
                                    c.dabit_values.1[i],
                                    c.mask(m, i),
                                ),
                                m,
                            ),
                    ),
                ),
            )
        }),
    ensures
        groups_denote::<FE>(bits, values, m as int),
{
    let (x, y) = (bucket_sums::<FE>(s), bucket_sums::<FE>(t));
    lemma_bucket_pairs_len(s, size);
    lemma_bucket_pairs_len(t, size);
    assert(c.adder_s().lhs =~= bucket_adder(s).lhs);
    assert(c.adder_s().rhs =~= bucket_adder(s).rhs);
    assert(c.adder_t().lhs =~= bucket_adder(t).lhs);
    assert(c.adder_t().rhs =~= bucket_adder(t).rhs);
    let left = Seq::new(
        x.len(),
        |i: int|
            corrected_share::<FE>(
                x[i],
                unmasked_share::<FE>(
                    PeerRole::First,
                    c.keys.s_value,
                    c.dabit_values.0[i],
                    c.mask(m, i),
                ),
                m,
            ),
    );
    let right = Seq::new(
        y.len(),
        |i: int|
            corrected_share::<FE>(
                y[i],
                unmasked_share::<FE>(
                    PeerRole::Second,
                    c.keys.t_value,
                    c.dabit_values.1[i],
                    c.mask(m, i),
                ),
                m,
            ),
    );
    assert(left =~= pair_values::<FE>(c, m).0);
    assert(right =~= pair_values::<FE>(c, m).1);
    law_bucket_verdict::<FE>(s, t, c, size, m, bits, values);
    assert forall|b: int, p: int| 0 <= b < s.len() && 1 <= p < size implies
        #[trigger] pair_cancels::<FE>(s, t, b, p) by {
        assert(edabit_consistent::<FE>(s[b][0], t[b][0]));
        assert(edabit_consistent::<FE>(s[b][p], t[b][p]));
        lemma_deviation::<FE>(s[b][0], t[b][0]);
        lemma_deviation::<FE>(s[b][p], t[b][p]);
        FE::law_order();
        lemma_zero_plus::<FE>(0);
    }
}

} // verus!
