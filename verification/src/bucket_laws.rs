//! What the check of all buckets finds out.

use crate::bit_adder::{law_adder_start, law_addition, row_seq_views, seq_views};
use crate::bits::{chunked, least, lemma_chunked_exact, lemma_flatten_index, number, rows};
use crate::combination_laws::{
    deviation, law_bucket_check, lemma_opened_number, Combination,
};
use crate::cut_and_choose::{
    bucket_pairs_of, groups_denote, lemma_bucket_pairs, lemma_bucket_pairs_len,
};
use crate::f40b::F40b;
use crate::field::{field_vals, FiniteField, FiniteRing, PrimeFiniteField};
use crate::mpc_conv::EdabitView;
use crate::mpc_edabits_common::{
    corrected_share, edabit_rows, opened_batch, sent_values, unmasked_share,
};
use crate::mpc_homcom::PeerRole;
use crate::mpc_original_edabits::bucket_adder;
use crate::multiplication::law_all_products;
use crate::prime_fields::F2;
use crate::share::{share_sum, AuthenticatedShare, ShareView};
use vstd::prelude::*;

verus! {

/// Flattening does not depend on whether the items or their views are looked at.
pub proof fn law_flatten_views<T: View>(vectors: Seq<Vec<T>>)
    ensures
        seq_views(rows(vectors).flatten()) == row_seq_views(vectors).flatten(),
    decreases vectors.len(),
{
    let (p, q) = (rows(vectors), row_seq_views(vectors));
    if vectors.len() > 0 {
        let rest = vectors.drop_first();
        law_flatten_views(rest);
        assert(p.drop_first() =~= rows(rest));
        assert(q.drop_first() =~= row_seq_views(rest));
        assert(q.first() == seq_views(p.first()));
    }
    assert(seq_views(p.flatten()) =~= q.flatten());
}

/// The first items of pairs.
pub open spec fn lefts<V>(pairs: Seq<(V, V)>) -> Seq<V> {
    Seq::new(pairs.len(), |i: int| pairs[i].0)
}

/// The second items of pairs.
pub open spec fn rights<V>(pairs: Seq<(V, V)>) -> Seq<V> {
    Seq::new(pairs.len(), |i: int| pairs[i].1)
}

/// The values of the sums of the pairs, as both peers hold them.
pub open spec fn pair_values<FE: FiniteField>(c: Combination, m: nat) -> (
    Seq<ShareView>,
    Seq<ShareView>,
) {
    (
        Seq::new(
            c.firsts.0.len(),
            |i: int|
                corrected_share::<FE>(
                    share_sum::<FE>(c.firsts.0[i].value, c.seconds.0[i].value),
                    unmasked_share::<FE>(
                        PeerRole::First,
                        c.keys.s_value,
                        c.dabit_values.0[i],
                        c.mask(m, i),
                    ),
                    m,
                ),
        ),
        Seq::new(
            c.firsts.0.len(),
            |i: int|
                corrected_share::<FE>(
                    share_sum::<FE>(c.firsts.1[i].value, c.seconds.1[i].value),
                    unmasked_share::<FE>(
                        PeerRole::Second,
                        c.keys.t_value,
                        c.dabit_values.1[i],
                        c.mask(m, i),
                    ),
                    m,
                ),
        ),
    )
}

/// Whether two groups of as many buckets of `size` items have the same shape.
pub open spec fn full_buckets<V>(s: Seq<Seq<V>>, t: Seq<Seq<V>>, size: int) -> bool {
    &&& s.len() == t.len()
    &&& forall|b: int| 0 <= b < s.len() ==> (#[trigger] s[b]).len() == size
    &&& forall|b: int| 0 <= b < t.len() ==> (#[trigger] t[b]).len() == size
}

/// Whether what the first edaBit of bucket `b` and the one at `p` are off by
/// cancels out.
pub open spec fn pair_cancels<FE: PrimeFiniteField>(
    s: Seq<Seq<EdabitView>>,
    t: Seq<Seq<EdabitView>>,
    b: int,
    p: int,
) -> bool {
    FE::plus(deviation::<FE>(s[b][0], t[b][0]), deviation::<FE>(s[b][p], t[b][p])) == 0
}

/// The pairs of buckets by their position in the bucket: what holds of all pairs
/// holds of each item after the first with the first, and the other way round.
pub proof fn lemma_all_pairs<V>(
    s: Seq<Seq<V>>,
    t: Seq<Seq<V>>,
    size: int,
    ok: spec_fn(int) -> bool,
    good: spec_fn(int, int) -> bool,
)
    requires
        size >= 2,
        full_buckets(s, t, size),
        forall|i: int|
            0 <= i < bucket_pairs_of(s).len() ==> #[trigger] ok(i) == good(
                i / (size - 1),
                i % (size - 1) + 1,
            ),
    ensures
        (forall|i: int| 0 <= i < bucket_pairs_of(s).len() ==> #[trigger] ok(i)) <==> (forall|
            b: int,
            p: int,
        |
            0 <= b < s.len() && 1 <= p < size ==> #[trigger] good(b, p)),
{
    lemma_bucket_pairs_len(s, size);
    let n = bucket_pairs_of(s).len() as int;
    if forall|i: int| 0 <= i < n ==> #[trigger] ok(i) {
        assert forall|b: int, p: int| 0 <= b < s.len() && 1 <= p < size implies #[trigger] good(
            b,
            p,
        ) by {
            let i = b * (size - 1) + (p - 1);
            assert(0 <= i < s.len() * (size - 1)) by (nonlinear_arith)
                requires
                    i == b * (size - 1) + (p - 1),
                    0 <= b,
                    b + 1 <= s.len(),
                    1 <= p < size,
            ;
            vstd::arithmetic::div_mod::lemma_fundamental_div_mod_converse(
                i,
                size - 1,
                b,
                p - 1,
            );
            assert(ok(i));
        }
    }
    if forall|b: int, p: int| 0 <= b < s.len() && 1 <= p < size ==> #[trigger] good(b, p) {
        assert forall|i: int| 0 <= i < n implies #[trigger] ok(i) by {
            lemma_bucket_pairs(s, size, i);
            assert(good(i / (size - 1), i % (size - 1) + 1));
        }
    }
}

/// One pair: its group of opened bits denotes the opened value exactly where what
/// the two edaBits are off by cancels out.
proof fn lemma_pair_opened<FE: PrimeFiniteField>(
    c: Combination,
    m: nat,
    bits: Seq<F2>,
    values: Seq<FE>,
    i: int,
)
    requires
        m > 0,
        forall|k: int| 0 <= k < c.firsts.0.len() ==> #[trigger] c.supplied::<FE>(m, k),
        field_vals(bits) == opened_batch::<F40b>(
            c.added(m).0.sums.flatten(),
            sent_values(c.added(m).1.sums.flatten()),
        ),
        field_vals(values) == opened_batch::<FE>(
            pair_values::<FE>(c, m).0,
            sent_values(pair_values::<FE>(c, m).1),
        ),
        0 <= i < c.firsts.0.len(),
    ensures
        chunked(bits, m as int).len() == c.firsts.0.len(),
        values.len() == c.firsts.0.len(),
        values[i].val() == number(chunked(bits, m as int)[i]) as int % FE::order() <==> FE::plus(
            deviation::<FE>(c.firsts.0[i], c.firsts.1[i]),
            deviation::<FE>(c.seconds.0[i], c.seconds.1[i]),
        ) == 0,
{
    let n = c.firsts.0.len();
    let (u, v) = c.added(m);
    assert(c.supplied::<FE>(m, i));
    assert(c.supplied::<FE>(m, 0));
    let (p, q) = (
        (edabit_rows(c.firsts.0), edabit_rows(c.firsts.1)),
        (edabit_rows(c.seconds.0), edabit_rows(c.seconds.1)),
    );
    assert(c.adder_s().bit_size() == m);
    law_adder_start::<AuthenticatedShare<F40b>>(p, q, c.keys.s_bit, c.keys.t_bit);
    law_all_products(c.setting(), c.adder_s(), c.adder_t(), m);
    let products = c.setting().all_products(c.adder_s(), c.adder_t(), m);
    assert forall|k: int| 0 <= k < n implies #[trigger] u.sums[k].len() == m by {
        law_addition::<AuthenticatedShare<F40b>>(
            p,
            q,
            products,
            c.keys.s_bit,
            c.keys.t_bit,
            k,
        );
    }
    assert forall|k: int| 0 <= k < n implies #[trigger] v.sums[k].len() == m by {
        law_addition::<AuthenticatedShare<F40b>>(
            p,
            q,
            products,
            c.keys.s_bit,
            c.keys.t_bit,
            k,
        );
    }
    law_addition::<AuthenticatedShare<F40b>>(p, q, products, c.keys.s_bit, c.keys.t_bit, i);
    let (fs, ft) = (u.sums.flatten(), v.sums.flatten());
    lemma_flatten_index(u.sums, m as int, i, 0);
    lemma_flatten_index(v.sums, m as int, i, 0);
    assert(field_vals(bits).len() == bits.len());
    assert(bits.len() == n * m);
    lemma_chunked_exact(bits, m as int, n);
    let group = chunked(bits, m as int)[i];
    assert(group == bits.subrange(i * m, i * m + m));
    assert(0 <= i * m && i * m + m <= n * m) by (nonlinear_arith)
        requires
            0 <= i,
            i + 1 <= n,
            0 < m,
    ;
    let (s, t) = (c.result_s::<FE>(m, i), c.result_t::<FE>(m, i));
    assert forall|j: int| 0 <= j < group.len() implies (#[trigger] group[j]).val() == F2::plus(
        s.bits[j].value,
        t.bits[j].value,
    ) by {
        lemma_flatten_index(u.sums, m as int, i, j);
        lemma_flatten_index(v.sums, m as int, i, j);
        let k = i * m + j;
        assert(group[j] == bits[k]);
        assert(field_vals(bits)[k] == bits[k].val());
    }
    lemma_opened_number(s, t, group);
    assert(field_vals(values).len() == values.len());
    assert(field_vals(values)[i] == values[i].val());
    law_bucket_check::<FE>(c, m, i);
}

/// The check of all buckets: where both peers add the pairs of the buckets, and
/// open the sums to what they share, the check passes exactly where in every
/// bucket what the first edaBit and each other one are off by cancels out.
pub proof fn law_bucket_verdict<FE: PrimeFiniteField>(
    s: Seq<Seq<EdabitView>>,
    t: Seq<Seq<EdabitView>>,
    c: Combination,
    size: int,
    m: nat,
    bits: Seq<F2>,
    values: Seq<FE>,
)
    requires
        size >= 2,
        m > 0,
        full_buckets(s, t, size),
        c.firsts == (lefts(bucket_pairs_of(s)), lefts(bucket_pairs_of(t))),
        c.seconds == (rights(bucket_pairs_of(s)), rights(bucket_pairs_of(t))),
        forall|i: int|
            0 <= i < bucket_pairs_of(s).len() ==> #[trigger] c.supplied::<FE>(m, i),
        field_vals(bits) == opened_batch::<F40b>(
            c.added(m).0.sums.flatten(),
            sent_values(c.added(m).1.sums.flatten()),
        ),
        field_vals(values) == opened_batch::<FE>(
            pair_values::<FE>(c, m).0,
            sent_values(pair_values::<FE>(c, m).1),
        ),
    ensures
        c.adder_s() == bucket_adder(s),
        c.adder_t() == bucket_adder(t),
        groups_denote::<FE>(bits, values, m as int) <==> (forall|b: int, p: int|
            0 <= b < s.len() && 1 <= p < size ==> #[trigger] pair_cancels::<FE>(s, t, b, p)),
{
    let (ps, pt) = (bucket_pairs_of(s), bucket_pairs_of(t));
    let n = ps.len() as int;
    lemma_bucket_pairs_len(s, size);
    lemma_bucket_pairs_len(t, size);
    assert(c.adder_s().lhs =~= bucket_adder(s).lhs);
    assert(c.adder_s().rhs =~= bucket_adder(s).rhs);
    assert(c.adder_t().lhs =~= bucket_adder(t).lhs);
    assert(c.adder_t().rhs =~= bucket_adder(t).rhs);
    let ok = |i: int|
        values[i].val() == number(chunked(bits, m as int)[i]) as int % FE::order();
    let good = |b: int, p: int| pair_cancels::<FE>(s, t, b, p);
    assert forall|i: int| 0 <= i < n implies #[trigger] ok(i) == good(
        i / (size - 1),
        i % (size - 1) + 1,
    ) by {
        lemma_bucket_pairs(s, size, i);
        lemma_bucket_pairs(t, size, i);
        lemma_pair_opened::<FE>(c, m, bits, values, i);
    }
    lemma_all_pairs(s, t, size, ok, good);
    let groups = chunked(bits, m as int);
    if n > 0 {
        lemma_pair_opened::<FE>(c, m, bits, values, 0);
    } else {
        assert(field_vals(values).len() == values.len());
    }
    if forall|i: int| 0 <= i < n ==> #[trigger] ok(i) {
        let shown = least(groups.len() as int, values.len() as int);
        assert forall|i: int| 0 <= i < shown implies #[trigger] values[i].val() == number(
            groups[i],
        ) as int % FE::order() by {
            assert(ok(i));
        }
    }
    if groups_denote::<FE>(bits, values, m as int) {
        assert forall|i: int| 0 <= i < n implies #[trigger] ok(i) by {
            assert(values[i].val() == number(groups[i]) as int % FE::order());
        }
    }
    assert((forall|b: int, p: int|
        0 <= b < s.len() && 1 <= p < size ==> #[trigger] good(b, p)) <==> (forall|b: int, p: int|
        0 <= b < s.len() && 1 <= p < size ==> #[trigger] pair_cancels::<FE>(s, t, b, p))) by {
        assert forall|b: int, p: int| #[trigger] good(b, p) == pair_cancels::<FE>(
            s,
            t,
            b,
            p,
        ) by {}
        if forall|b: int, p: int|
            0 <= b < s.len() && 1 <= p < size ==> #[trigger] good(b, p) {
            assert forall|b: int, p: int|
                0 <= b < s.len() && 1 <= p < size implies #[trigger] pair_cancels::<FE>(
                s,
                t,
                b,
                p,
            ) by {
                assert(good(b, p));
            }
        }
    }
}

} // verus!
