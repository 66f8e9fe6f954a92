//! What two peers open of SPDZ-style shares, what the check of all buckets finds
//! out, and what a combination of all private edaBits opens to.

use crate::bit_adder::{law_adder_start, law_addition, shared_bits};
use crate::bits::{chunked, least, lemma_chunked_exact, lemma_flatten_index, number, truths};
use crate::bucket_laws::{full_buckets, lefts, lemma_all_pairs, rights};
use crate::combination_laws::{lemma_number_bound, opens_to_sum};
use crate::cut_and_choose::{
    bucket_pairs_of, groups_denote, lemma_bucket_pairs, lemma_bucket_pairs_len,
};
use crate::f40b::F40b;
use crate::field::{field_vals, FiniteField, FiniteRing, PrimeFiniteField};
use crate::mpc_original_edabits_spdz::bucket_adder;
use crate::mpc_spdz_common::{law_mac_check, mac_check_sum, opened_sums};
use crate::mpc_spdz_conv::{
    spdz_paired, spdz_secret, spdz_sum, SpdzBitShare, SpdzEdabitView, SpdzView,
};
use crate::prime_fields::F2;
use crate::spdz_combination::{
    law_spdz_combination, law_spdz_opened_edabit, spdz_consistent, spdz_corrected, spdz_deviation,
    spdz_number, spdz_rows, SpdzCombination,
};
use crate::spdz_products::law_spdz_all_products;
use vstd::arithmetic::div_mod::{lemma_fundamental_div_mod_converse, lemma_small_mod};
use vstd::arithmetic::power2::{lemma_pow2_pos, pow2};
use vstd::prelude::*;

verus! {

/// The values of a peer's shares, which it sends to open them.
pub open spec fn spdz_sent(shares: Seq<SpdzView>) -> Seq<int> {
    Seq::new(shares.len(), |i: int| shares[i].share)
}

/// Opening a batch: both peers get the same values, which are those that they
/// share, and the MAC check on them passes.
pub proof fn law_spdz_batch_opens<MF: FiniteField>(
    s: Seq<SpdzView>,
    t: Seq<SpdzView>,
    ks: int,
    kt: int,
    chi: int,
)
    requires
        s.len() == t.len(),
        forall|i: int| 0 <= i < s.len() ==> spdz_paired::<MF>(#[trigger] s[i], t[i], ks, kt),
    ensures
        ({
            let opened = opened_sums::<MF::PrimeField>(spdz_sent(s), spdz_sent(t));
            &&& opened == opened_sums::<MF::PrimeField>(spdz_sent(t), spdz_sent(s))
            &&& opened.len() == s.len()
            &&& forall|i: int|
                0 <= i < s.len() ==> #[trigger] opened[i] == spdz_secret::<MF>(s[i], t[i])
            &&& MF::plus(
                mac_check_sum::<MF>(ks, s, opened, chi, s.len()),
                mac_check_sum::<MF>(kt, t, opened, chi, s.len()),
            ) == 0
        }),
{
    let opened = opened_sums::<MF::PrimeField>(spdz_sent(s), spdz_sent(t));
    let other = opened_sums::<MF::PrimeField>(spdz_sent(t), spdz_sent(s));
    assert forall|i: int| 0 <= i < s.len() implies opened[i] == other[i] by {
        MF::PrimeField::law_plus_comm(s[i].share, t[i].share);
    }
    assert(opened =~= other);
    law_mac_check::<MF>(ks, kt, s, t, opened, chi, s.len());
}

/// The values of the sums of the pairs, as both peers hold them.
pub open spec fn spdz_pair_values<FE: FiniteField>(c: SpdzCombination, m: nat) -> (
    Seq<SpdzView>,
    Seq<SpdzView>,
) {
    (
        Seq::new(
            c.firsts.0.len(),
            |i: int|
                spdz_corrected::<FE>(
                    spdz_sum::<FE>(c.firsts.0[i].value, c.seconds.0[i].value),
                    c.carry::<FE>(m, i).0,
                    m,
                ),
        ),
        Seq::new(
            c.firsts.0.len(),
            |i: int|
                spdz_corrected::<FE>(
                    spdz_sum::<FE>(c.firsts.1[i].value, c.seconds.1[i].value),
                    c.carry::<FE>(m, i).1,
                    m,
                ),
        ),
    )
}

/// Whether what the first edaBit of bucket `b` and the one at `p` are off by
/// cancels out.
pub open spec fn spdz_pair_cancels<FE: PrimeFiniteField>(
    s: Seq<Seq<SpdzEdabitView>>,
    t: Seq<Seq<SpdzEdabitView>>,
    b: int,
    p: int,
) -> bool {
    FE::plus(spdz_deviation::<FE>(s[b][0], t[b][0]), spdz_deviation::<FE>(s[b][p], t[b][p])) == 0
}

/// The opened bits of an edaBit denote the number that its shared bits do.
proof fn lemma_spdz_opened_number(s: SpdzEdabitView, t: SpdzEdabitView, bits: Seq<F2>)
    requires
        bits.len() == s.bits.len(),
        forall|j: int|
            0 <= j < bits.len() ==> (#[trigger] bits[j]).val() == F2::plus(
                s.bits[j].share,
                t.bits[j].share,
            ),
    ensures
        number(bits) == spdz_number(s, t),
{
    assert forall|j: int| 0 <= j < bits.len() implies #[trigger] truths(bits)[j] == shared_bits::<
        SpdzBitShare,
    >(s.bits, t.bits)[j] by {
        assert(bits[j].val() == spdz_secret::<F40b>(s.bits[j], t.bits[j]));
    }
    assert(truths(bits) =~= shared_bits::<SpdzBitShare>(s.bits, t.bits));
}

proof fn lemma_spdz_sums<FE: PrimeFiniteField>(c: SpdzCombination, m: nat)
    requires
        c.firsts.0.len() > 0,
        forall|k: int| 0 <= k < c.firsts.0.len() ==> #[trigger] c.supplied::<FE>(m, k),
    ensures
        c.added(m).0.sums.len() == c.firsts.0.len(),
        c.added(m).1.sums.len() == c.firsts.0.len(),
        forall|k: int| 0 <= k < c.firsts.0.len() ==> #[trigger] c.added(m).0.sums[k].len() == m,
        forall|k: int| 0 <= k < c.firsts.0.len() ==> #[trigger] c.added(m).1.sums[k].len() == m,
{
    let n = c.firsts.0.len();
    let (u, v) = c.added(m);
    assert(c.supplied::<FE>(m, 0));
    let (p, q) = (
        (spdz_rows(c.firsts.0), spdz_rows(c.firsts.1)),
        (spdz_rows(c.seconds.0), spdz_rows(c.seconds.1)),
    );
    assert(c.adder_s().bit_size() == m);
    law_adder_start::<SpdzBitShare>(p, q, c.bit_keys.0, c.bit_keys.1);
    law_spdz_all_products(c.setting(), c.adder_s(), c.adder_t(), m);
    let products = c.setting().all_products(c.adder_s(), c.adder_t(), m);
    law_addition::<SpdzBitShare>(p, q, products, c.bit_keys.0, c.bit_keys.1, 0);
    assert forall|k: int| 0 <= k < n implies #[trigger] u.sums[k].len() == m by {
        law_addition::<SpdzBitShare>(p, q, products, c.bit_keys.0, c.bit_keys.1, k);
    }
    assert forall|k: int| 0 <= k < n implies #[trigger] v.sums[k].len() == m by {
        law_addition::<SpdzBitShare>(p, q, products, c.bit_keys.0, c.bit_keys.1, k);
    }
}

/// One pair: its group of opened bits denotes the opened value exactly where what
/// the two edaBits are off by cancels out.
proof fn lemma_spdz_pair_opened<FE: PrimeFiniteField>(
    c: SpdzCombination,
    m: nat,
    bits: Seq<F2>,
    values: Seq<FE>,
    i: int,
)
    requires
        m > 0,
        forall|k: int| 0 <= k < c.firsts.0.len() ==> #[trigger] c.supplied::<FE>(m, k),
        field_vals(bits) == opened_sums::<F2>(
            spdz_sent(c.added(m).0.sums.flatten()),
            spdz_sent(c.added(m).1.sums.flatten()),
        ),
        field_vals(values) == opened_sums::<FE>(
            spdz_sent(spdz_pair_values::<FE>(c, m).0),
            spdz_sent(spdz_pair_values::<FE>(c, m).1),
        ),
        0 <= i < c.firsts.0.len(),
    ensures
        chunked(bits, m as int).len() == c.firsts.0.len(),
        values.len() == c.firsts.0.len(),
        values[i].val() == number(chunked(bits, m as int)[i]) as int % FE::order() <==> FE::plus(
            spdz_deviation::<FE>(c.firsts.0[i], c.firsts.1[i]),
            spdz_deviation::<FE>(c.seconds.0[i], c.seconds.1[i]),
        ) == 0,
{
    let n = c.firsts.0.len();
    let (u, v) = c.added(m);
    lemma_spdz_sums::<FE>(c, m);
    assert(c.supplied::<FE>(m, i));
    lemma_flatten_index(u.sums, m as int, i, 0);
    lemma_flatten_index(v.sums, m as int, i, 0);
    assert(field_vals(bits).len() == bits.len());
    assert(bits.len() == n * m);
    lemma_chunked_exact(bits, m as int, n);
    let group = chunked(bits, m as int)[i];
    assert(group == bits.subrange(i * m, i * m + m));
    assert(0 <= i * m && i * m + m <= n * m) by (nonlinear_arith)
        requires
            0 <= i,
            i + 1 <= n,
            0 < m,
    ;
    let (s, t) = (c.result_s::<FE>(m, i), c.result_t::<FE>(m, i));
    assert forall|j: int| 0 <= j < group.len() implies (#[trigger] group[j]).val() == F2::plus(
        s.bits[j].share,
        t.bits[j].share,
    ) by {
        lemma_flatten_index(u.sums, m as int, i, j);
        lemma_flatten_index(v.sums, m as int, i, j);
        let k = i * m + j;
        assert(group[j] == bits[k]);
        assert(field_vals(bits)[k] == bits[k].val());
    }
    lemma_spdz_opened_number(s, t, group);
    assert(field_vals(values).len() == values.len());
    assert(field_vals(values)[i] == values[i].val());
    law_spdz_combination::<FE>(c, m, i);
    let (x, y) = (c.firsts.1[i].value, c.seconds.1[i].value);
    FE::law_plus_comm(x.share, y.share);
    FE::law_plus_comm(x.mac, y.mac);
}

/// The check of all buckets: where both peers add the pairs of the buckets, and
/// open the sums to what they share, the check passes exactly where in every
/// bucket what the first edaBit and each other one are off by cancels out.
pub proof fn law_spdz_bucket_verdict<FE: PrimeFiniteField>(
    s: Seq<Seq<SpdzEdabitView>>,
    t: Seq<Seq<SpdzEdabitView>>,
    c: SpdzCombination,
    size: int,
    m: nat,
    bits: Seq<F2>,
    values: Seq<FE>,
)
    requires
        size >= 2,
        m > 0,
        full_buckets(s, t, size),
        c.firsts == (lefts(bucket_pairs_of(s)), lefts(bucket_pairs_of(t))),
        c.seconds == (rights(bucket_pairs_of(s)), rights(bucket_pairs_of(t))),
        forall|i: int|
            0 <= i < bucket_pairs_of(s).len() ==> #[trigger] c.supplied::<FE>(m, i),
        field_vals(bits) == opened_sums::<F2>(
            spdz_sent(c.added(m).0.sums.flatten()),
            spdz_sent(c.added(m).1.sums.flatten()),
        ),
        field_vals(values) == opened_sums::<FE>(
            spdz_sent(spdz_pair_values::<FE>(c, m).0),
            spdz_sent(spdz_pair_values::<FE>(c, m).1),
        ),
    ensures
        c.adder_s() == bucket_adder(s),
        c.adder_t() == bucket_adder(t),
        groups_denote::<FE>(bits, values, m as int) <==> (forall|b: int, p: int|
            0 <= b < s.len() && 1 <= p < size ==> #[trigger] spdz_pair_cancels::<FE>(s, t, b, p)),
{
    let (ps, pt) = (bucket_pairs_of(s), bucket_pairs_of(t));
    let n = ps.len() as int;
    lemma_bucket_pairs_len(s, size);
    lemma_bucket_pairs_len(t, size);
    assert(c.adder_s().lhs =~= bucket_adder(s).lhs);
    assert(c.adder_s().rhs =~= bucket_adder(s).rhs);
    assert(c.adder_t().lhs =~= bucket_adder(t).lhs);
    assert(c.adder_t().rhs =~= bucket_adder(t).rhs);
    let ok = |i: int|
        values[i].val() == number(chunked(bits, m as int)[i]) as int % FE::order();
    let good = |b: int, p: int| spdz_pair_cancels::<FE>(s, t, b, p);
    assert forall|i: int| 0 <= i < n implies #[trigger] ok(i) == good(
        i / (size - 1),
        i % (size - 1) + 1,
    ) by {
        lemma_bucket_pairs(s, size, i);
        lemma_bucket_pairs(t, size, i);
        lemma_spdz_pair_opened::<FE>(c, m, bits, values, i);
    }
    lemma_all_pairs(s, t, size, ok, good);
    let groups = chunked(bits, m as int);
    if n > 0 {
        lemma_spdz_pair_opened::<FE>(c, m, bits, values, 0);
    } else {
        assert(field_vals(values).len() == values.len());
    }
    if forall|i: int| 0 <= i < n ==> #[trigger] ok(i) {
        let shown = least(groups.len() as int, values.len() as int);
        assert forall|i: int| 0 <= i < shown implies #[trigger] values[i].val() == number(
            groups[i],
        ) as int % FE::order() by {
            assert(ok(i));
        }
    }
    if groups_denote::<FE>(bits, values, m as int) {
        assert forall|i: int| 0 <= i < n implies #[trigger] ok(i) by {
            assert(values[i].val() == number(groups[i]) as int % FE::order());
        }
    }
    if forall|b: int, p: int| 0 <= b < s.len() && 1 <= p < size ==> #[trigger] good(b, p) {
        assert forall|b: int, p: int|
            0 <= b < s.len() && 1 <= p < size implies #[trigger] spdz_pair_cancels::<FE>(
            s,
            t,
            b,
            p,
        ) by {
            assert(good(b, p));
        }
    }
}

/// Combining all private edaBits of two peers: both end up with as many global
/// edaBits as either has private ones, and these are valid, consistent, and open to
/// the sums of the private numbers.
pub proof fn law_spdz_global_edabits<FE: PrimeFiniteField>(
    c: SpdzCombination,
    m: nat,
    opened_bits: Seq<Seq<F2>>,
    opened_values: Seq<int>,
)
    requires
        forall|i: int| 0 <= i < c.firsts.0.len() ==> #[trigger] c.supplied::<FE>(m, i),
        forall|i: int|
            0 <= i < c.firsts.0.len() ==> {
                &&& spdz_consistent::<FE>(#[trigger] c.firsts.0[i], c.firsts.1[i])
                &&& spdz_consistent::<FE>(c.seconds.0[i], c.seconds.1[i])
            },
        opened_bits.len() == c.firsts.0.len(),
        opened_values.len() == c.firsts.0.len(),
        forall|i: int|
            0 <= i < opened_bits.len() ==> {
                &&& (#[trigger] opened_bits[i]).len() == m
                &&& forall|j: int|
                    0 <= j < m ==> (#[trigger] opened_bits[i][j]).val() == F2::plus(
                        c.result_s::<FE>(m, i).bits[j].share,
                        c.result_t::<FE>(m, i).bits[j].share,
                    )
                &&& opened_values[i] == FE::plus(
                    c.result_s::<FE>(m, i).value.share,
                    c.result_t::<FE>(m, i).value.share,
                )
            },
    ensures
        forall|i: int|
            0 <= i < c.firsts.0.len() ==> {
                &&& spdz_consistent::<FE>(
                    #[trigger] c.result_s::<FE>(m, i),
                    c.result_t::<FE>(m, i),
                )
                &&& spdz_paired::<FE>(
                    c.result_s::<FE>(m, i).value,
                    c.result_t::<FE>(m, i).value,
                    c.value_keys.0,
                    c.value_keys.1,
                )
            },
        forall|i: int|
            0 <= i < c.firsts.0.len() ==> opens_to_sum::<FE>(
                spdz_number(c.firsts.0[i], c.firsts.1[i]),
                spdz_number(c.seconds.0[i], c.seconds.1[i]),
                m,
                #[trigger] opened_bits[i],
                opened_values[i],
            ),
{
    assert forall|i: int| 0 <= i < c.firsts.0.len() implies {
        &&& spdz_consistent::<FE>(#[trigger] c.result_s::<FE>(m, i), c.result_t::<FE>(m, i))
        &&& spdz_paired::<FE>(
            c.result_s::<FE>(m, i).value,
            c.result_t::<FE>(m, i).value,
            c.value_keys.0,
            c.value_keys.1,
        )
        &&& opens_to_sum::<FE>(
            spdz_number(c.firsts.0[i], c.firsts.1[i]),
            spdz_number(c.seconds.0[i], c.seconds.1[i]),
            m,
            opened_bits[i],
            opened_values[i],
        )
    } by {
        assert(c.supplied::<FE>(m, i));
        assert(spdz_consistent::<FE>(c.firsts.0[i], c.firsts.1[i]));
        let a = spdz_number(c.firsts.0[i], c.firsts.1[i]);
        let b = spdz_number(c.seconds.0[i], c.seconds.1[i]);
        let (s, t) = (c.result_s::<FE>(m, i), c.result_t::<FE>(m, i));
        law_spdz_combination::<FE>(c, m, i);
        assert(opened_bits[i].len() == m);
        lemma_spdz_opened_number(s, t, opened_bits[i]);
        law_spdz_opened_edabit::<FE>(s, t, opened_bits[i], opened_values[i]);
        lemma_number_bound(
            shared_bits::<SpdzBitShare>(c.firsts.0[i].bits, c.firsts.1[i].bits),
        );
        lemma_number_bound(
            shared_bits::<SpdzBitShare>(c.seconds.0[i].bits, c.seconds.1[i].bits),
        );
        lemma_pow2_pos(m);
        if a + b >= pow2(m) {
            lemma_fundamental_div_mod_converse((a + b) as int, pow2(m) as int, 1, a + b - pow2(m));
        } else {
            lemma_small_mod(a + b, pow2(m));
        }
    }
    assert forall|i: int| 0 <= i < c.firsts.0.len() implies opens_to_sum::<FE>(
        spdz_number(c.firsts.0[i], c.firsts.1[i]),
        spdz_number(c.seconds.0[i], c.seconds.1[i]),
        m,
        #[trigger] opened_bits[i],
        opened_values[i],
    ) by {
        assert(spdz_consistent::<FE>(c.result_s::<FE>(m, i), c.result_t::<FE>(m, i)));
    }
}

} // verus!
