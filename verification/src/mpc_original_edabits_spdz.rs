//! Private edaBits checked by cut-and-choose, over SPDZ-style shares.
//!
//! The flow is that of [`crate::mpc_original_edabits`]; bucket consistency is
//! checked with possibly faulty triples.

use crate::bit_adder::{adder_start, row_seq_views, seq_views, AdderView, BitAdder};
use crate::bits::{
    chunked, flatten_rows, law_flatten_of_split, lemma_chunked_exact, rows, split_rows,
};
use crate::cut_and_choose::{
    bucket_items, bucket_pairs, bucket_pairs_of, law_bucket_counts, law_bucket_pairs,
    lemma_bucket_pairs, lemma_bucket_pairs_len, lemma_cut_fits, CutParameters, PrivateBitTriple,
};
use crate::f40b::F40b;
use crate::field::{FiniteField, FiniteRing, PrimeFiniteField};
use crate::flow::{Flow, FlowView};
use crate::mpc_conv::{copy_vec, Replicate};
use crate::mpc_edabits_common::bucket_count;
use crate::mpc_homcom::PeerRole;
use crate::mpc_original_edabits::select_cut_and_choose_parameters;
use crate::mpc_spdz_common::SpdzFieldBackend;
use crate::mpc_spdz_conv::{
    add_spdz_shares, spdz_sum, SpdzBitShare, SpdzEdabitView, SpdzFieldShare, SpdzPrivateEdabit,
    SpdzSharedEdabit, SpdzView,
};
use crate::multiplication::round_items;
use crate::prime_fields::F2;
use crate::spdz_combination::{spdz_bits_of_edabits, spdz_rows, spdz_shared_views, MpcSpdzCommon};
use crate::spdz_multiplication::SpdzSharedBitTriple;
use vstd::prelude::*;

verus! {

/// What a peer holds after sampling, before the check.
pub struct RawPrivateEdabitState<FE: FiniteField> {
    pub private_edabits: Vec<SpdzPrivateEdabit<FE>>,
    pub peer_private_edabits: Vec<SpdzSharedEdabit<FE>>,
    pub private_triples: Vec<PrivateBitTriple<SpdzSharedBitTriple>>,
    pub peer_private_triples: Vec<SpdzSharedBitTriple>,
}

/// What a peer holds after the check.
pub struct VerifiedPrivateEdabitState<FE: FiniteField> {
    pub private_edabits: Vec<SpdzPrivateEdabit<FE>>,
    pub peer_private_edabits: Vec<SpdzSharedEdabit<FE>>,
}

/// This peer's part of `num` edaBits, from the shares of all their bits one
/// after the other and of their values.
pub fn group_shared_edabits<FE: FiniteField>(
    flat_bits: &[SpdzBitShare],
    values: &[SpdzFieldShare<FE>],
    bit_size: usize,
    num: usize,
) -> (r: Vec<SpdzSharedEdabit<FE>>)
    requires
        num * bit_size <= flat_bits@.len(),
        num <= values@.len(),
    ensures
        r@.len() == num,
        forall|i: int|
            0 <= i < num ==> {
                &&& (#[trigger] r@[i]).bits@ == flat_bits@.subrange(
                    i * bit_size,
                    i * bit_size + bit_size,
                )
                &&& r@[i].value == values@[i]
            },
{
    let mut out: Vec<SpdzSharedEdabit<FE>> = Vec::new();
    let mut i: usize = 0;
    while i < num
        invariant
            i <= num,
            num * bit_size <= flat_bits@.len(),
            num <= values@.len(),
            out@.len() == i,
            forall|j: int|
                0 <= j < i ==> {
                    &&& (#[trigger] out@[j]).bits@ == flat_bits@.subrange(
                        j * bit_size,
                        j * bit_size + bit_size,
                    )
                    &&& out@[j].value == values@[j]
                },
        decreases num - i,
    {
        assert(i * bit_size + bit_size <= num * bit_size) by (nonlinear_arith)
            requires
                i + 1 <= num,
        ;
        out.push(SpdzSharedEdabit { bits: round_items(flat_bits, i, bit_size), value: values[i] });
        i = i + 1;
    }
    out
}

/// This peer's own edaBits, from their clear bits and values, and the shares of
/// all their bits one after the other and of their values.
pub fn group_private_edabits<FE: FiniteField>(
    clear_bits: &[Vec<F2>],
    clear_values: &[FE::PrimeField],
    flat_bits: &[SpdzBitShare],
    values: &[SpdzFieldShare<FE>],
    bit_size: usize,
) -> (r: Vec<SpdzPrivateEdabit<FE>>)
    requires
        clear_values@.len() == clear_bits@.len(),
        clear_bits@.len() * bit_size <= flat_bits@.len(),
        clear_bits@.len() <= values@.len(),
    ensures
        r@.len() == clear_bits@.len(),
        forall|i: int|
            0 <= i < r@.len() ==> {
                &&& (#[trigger] r@[i]).clear_bits@ == clear_bits@[i]@
                &&& r@[i].clear_value == clear_values@[i]
                &&& r@[i].shared.bits@ == flat_bits@.subrange(
                    i * bit_size,
                    i * bit_size + bit_size,
                )
                &&& r@[i].shared.value == values@[i]
            },
{
    let num: usize = clear_bits.len();
    let mut out: Vec<SpdzPrivateEdabit<FE>> = Vec::new();
    let mut i: usize = 0;
    while i < num
        invariant
            i <= num,
            num == clear_bits@.len(),
            clear_values@.len() == num,
            num * bit_size <= flat_bits@.len(),
            num <= values@.len(),
            out@.len() == i,
            forall|j: int|
                0 <= j < i ==> {
                    &&& (#[trigger] out@[j]).clear_bits@ == clear_bits@[j]@
                    &&& out@[j].clear_value == clear_values@[j]
                    &&& out@[j].shared.bits@ == flat_bits@.subrange(
                        j * bit_size,
                        j * bit_size + bit_size,
                    )
                    &&& out@[j].shared.value == values@[j]
                },
        decreases num - i,
    {
        assert(i * bit_size + bit_size <= num * bit_size) by (nonlinear_arith)
            requires
                i + 1 <= num,
        ;
        out.push(
            SpdzPrivateEdabit {
                clear_bits: copy_vec(&clear_bits[i]),
                clear_value: clear_values[i],
                shared: SpdzSharedEdabit {
                    bits: round_items(flat_bits, i, bit_size),
                    value: values[i],
                },
            },
        );
        i = i + 1;
    }
    out
}

/// Triples from the shares of their three bits, as many as asked for.
pub fn assemble_triples(
    a: &[SpdzBitShare],
    b: &[SpdzBitShare],
    c: &[SpdzBitShare],
    num: usize,
) -> (r: Vec<SpdzSharedBitTriple>)
    requires
        num <= a@.len(),
        num <= b@.len(),
        num <= c@.len(),
    ensures
        r@.len() == num,
        forall|i: int|
            0 <= i < num ==> #[trigger] r@[i] == (SpdzSharedBitTriple {
                a: a@[i],
                b: b@[i],
                c: c@[i],
            }),
{
    let mut out: Vec<SpdzSharedBitTriple> = Vec::new();
    let mut i: usize = 0;
    while i < num
        invariant
            i <= num,
            num <= a@.len(),
            num <= b@.len(),
            num <= c@.len(),
            out@.len() == i,
            forall|j: int|
                0 <= j < i ==> #[trigger] out@[j] == (SpdzSharedBitTriple {
                    a: a@[j],
                    b: b@[j],
                    c: c@[j],
                }),
        decreases num - i,
    {
        out.push(SpdzSharedBitTriple { a: a[i], b: b[i], c: c[i] });
        i = i + 1;
    }
    out
}

/// The shares of private edaBits.
pub fn shared_edabits<FE: FiniteField>(edabits: &[SpdzPrivateEdabit<FE>]) -> (r: Vec<
    SpdzSharedEdabit<FE>,
>)
    ensures
        seq_views(r@) == spdz_shared_views(edabits@),
{
    let mut out: Vec<SpdzSharedEdabit<FE>> = Vec::new();
    let mut i: usize = 0;
    while i < edabits.len()
        invariant
            i <= edabits.len(),
            out@.len() == i,
            forall|j: int| 0 <= j < i ==> (#[trigger] out@[j])@ == edabits@[j].shared@,
        decreases edabits.len() - i,
    {
        out.push(edabits[i].shared.replicate());
        i = i + 1;
    }
    assert(seq_views(out@) =~= spdz_shared_views(edabits@));
    out
}

/// The shares to open in order to check edaBits: of all their bits one after the
/// other, and of their values.
pub fn edabit_openings<FE: FiniteField>(edabits: &[SpdzSharedEdabit<FE>]) -> (r: (
    Vec<SpdzBitShare>,
    Vec<SpdzFieldShare<FE>>,
))
    ensures
        r.0@ == Seq::new(edabits@.len(), |i: int| edabits@[i].bits@).flatten(),
        r.1@ == Seq::new(edabits@.len(), |i: int| edabits@[i].value),
{
    let mut bits: Vec<Vec<SpdzBitShare>> = Vec::new();
    let mut values: Vec<SpdzFieldShare<FE>> = Vec::new();
    let mut i: usize = 0;
    while i < edabits.len()
        invariant
            i <= edabits.len(),
            bits@.len() == i,
            values@.len() == i,
            forall|j: int| 0 <= j < i ==> (#[trigger] bits@[j])@ == edabits@[j].bits@,
            forall|j: int| 0 <= j < i ==> #[trigger] values@[j] == edabits@[j].value,
        decreases edabits.len() - i,
    {
        bits.push(copy_vec(&edabits[i].bits));
        values.push(edabits[i].value);
        i = i + 1;
    }
    assert(rows(bits@) =~= Seq::new(edabits@.len(), |i: int| edabits@[i].bits@));
    assert(values@ =~= Seq::new(edabits@.len(), |i: int| edabits@[i].value));
    (flatten_rows(bits.as_slice()), values)
}

/// The shares to open in order to check triples.
pub fn triple_openings(triples: &[SpdzSharedBitTriple]) -> (r: (
    Vec<SpdzBitShare>,
    Vec<SpdzBitShare>,
    Vec<SpdzBitShare>,
))
    ensures
        r.0@ == Seq::new(triples@.len(), |i: int| triples@[i].a),
        r.1@ == Seq::new(triples@.len(), |i: int| triples@[i].b),
        r.2@ == Seq::new(triples@.len(), |i: int| triples@[i].c),
{
    let mut a: Vec<SpdzBitShare> = Vec::new();
    let mut b: Vec<SpdzBitShare> = Vec::new();
    let mut c: Vec<SpdzBitShare> = Vec::new();
    let mut i: usize = 0;
    while i < triples.len()
        invariant
            i <= triples.len(),
            a@.len() == i,
            b@.len() == i,
            c@.len() == i,
            forall|j: int| 0 <= j < i ==> #[trigger] a@[j] == triples@[j].a,
            forall|j: int| 0 <= j < i ==> #[trigger] b@[j] == triples@[j].b,
            forall|j: int| 0 <= j < i ==> #[trigger] c@[j] == triples@[j].c,
        decreases triples.len() - i,
    {
        a.push(triples[i].a);
        b.push(triples[i].b);
        c.push(triples[i].c);
        i = i + 1;
    }
    assert(a@ =~= Seq::new(triples@.len(), |i: int| triples@[i].a));
    assert(b@ =~= Seq::new(triples@.len(), |i: int| triples@[i].b));
    assert(c@ =~= Seq::new(triples@.len(), |i: int| triples@[i].c));
    (a, b, c)
}

/// The shares to open for the cut: of the bits and values of the edaBits in it,
/// and of the three bits of its triples.
pub struct CutOpenings<FE: PrimeFiniteField> {
    pub bits: Vec<SpdzBitShare>,
    pub values: Vec<SpdzFieldShare<FE>>,
    pub a: Vec<SpdzBitShare>,
    pub b: Vec<SpdzBitShare>,
    pub c: Vec<SpdzBitShare>,
}

/// The shares to open for the cut of shuffled edaBits, and of as many triples as
/// the edaBits in it have bits.
pub fn cut_openings<FE: PrimeFiniteField>(
    edabits: &[SpdzSharedEdabit<FE>],
    triples: &[SpdzSharedBitTriple],
    params: CutParameters,
) -> (r: CutOpenings<FE>)
    requires
        params.fit(edabits@.len() as int, triples@.len() as int),
    ensures
        r.bits@ == Seq::new(params.num_cut as nat, |i: int| edabits@[i].bits@).flatten(),
        r.values@ == Seq::new(params.num_cut as nat, |i: int| edabits@[i].value),
        r.a@ == Seq::new((params.num_cut * params.bit_size) as nat, |i: int| triples@[i].a),
        r.b@ == Seq::new((params.num_cut * params.bit_size) as nat, |i: int| triples@[i].b),
        r.c@ == Seq::new((params.num_cut * params.bit_size) as nat, |i: int| triples@[i].c),
{
    let num_cut: usize = params.num_cut;
    let available: usize = triples.len();
    proof {
        lemma_cut_fits(params, edabits@.len() as int, available as int);
    }
    let cut_triples: usize = num_cut * params.bit_size;
    let cut = vstd::slice::slice_subrange(edabits, 0, num_cut);
    let cut_of_triples = vstd::slice::slice_subrange(triples, 0, cut_triples);
    let (bits, values) = edabit_openings(cut);
    let (a, b, c) = triple_openings(cut_of_triples);
    proof {
        assert(Seq::new(cut@.len(), |i: int| cut@[i].bits@) =~= Seq::new(
            num_cut as nat,
            |i: int| edabits@[i].bits@,
        ));
        assert(values@ =~= Seq::new(num_cut as nat, |i: int| edabits@[i].value));
        assert(a@ =~= Seq::new(cut_triples as nat, |i: int| triples@[i].a));
        assert(b@ =~= Seq::new(cut_triples as nat, |i: int| triples@[i].b));
        assert(c@ =~= Seq::new(cut_triples as nat, |i: int| triples@[i].c));
    }
    CutOpenings { bits, values, a, b, c }
}

/// The addition that checks buckets: in every bucket each other edaBit is added
/// to the first one.
pub open spec fn bucket_adder(buckets: Seq<Seq<SpdzEdabitView>>) -> AdderView<SpdzView> {
    let pairs = bucket_pairs_of(buckets);
    adder_start::<SpdzBitShare>(
        Seq::new(pairs.len(), |i: int| pairs[i].0.bits),
        Seq::new(pairs.len(), |i: int| pairs[i].1.bits),
    )
}

/// The sums of the values of the pairs of all buckets.
pub open spec fn bucket_sums<FE: FiniteField>(buckets: Seq<Seq<SpdzEdabitView>>) -> Seq<SpdzView> {
    let pairs = bucket_pairs_of(buckets);
    Seq::new(pairs.len(), |i: int| spdz_sum::<FE>(pairs[i].0.value, pairs[i].1.value))
}

/// The check of buckets in progress.
pub struct BucketCheck<FE: PrimeFiniteField> {
    /// The addition of the bits of the pairs.
    pub adder: BitAdder<SpdzBitShare>,
    /// The triples for the addition.
    pub triples: Vec<SpdzSharedBitTriple>,
    /// The sums of the values of the pairs.
    pub sums: Vec<SpdzFieldShare<FE>>,
    /// How many bits the edaBits have.
    pub bit_size: usize,
}

/// Peer of the cut-and-choose flow over SPDZ-style shares.
pub struct MpcOriginalEdabitsSpdzPeer<FE: PrimeFiniteField> {
    pub common: MpcSpdzCommon<FE>,
}

impl<FE: PrimeFiniteField> MpcOriginalEdabitsSpdzPeer<FE> {
    /// A peer that has drawn its shares of the MAC keys for bits and for values.
    pub fn init(role: PeerRole, alpha_f2: F40b, alpha_fe: FE) -> (r: Self)
        ensures
            r.common.role == role,
            r.common.spdz_f2.alpha_share == alpha_f2,
            r.common.spdz_fe.alpha_share == alpha_fe,
            r.common.spdz_f2.inbound.bits() == F40b::bits_of(alpha_f2.val()),
            r.common.spdz_fe.inbound.bits() == FE::bits_of(alpha_fe.val()),
            r.common.spdz_f2.inbound.counter() == 0,
            r.common.spdz_fe.inbound.counter() == 0,
            r.common.spdz_f2.outbound.counter() == 0,
            r.common.spdz_fe.outbound.counter() == 0,
    {
        MpcOriginalEdabitsSpdzPeer {
            common: MpcSpdzCommon {
                role,
                spdz_f2: SpdzFieldBackend::init(alpha_f2),
                spdz_fe: SpdzFieldBackend::init(alpha_fe),
            },
        }
    }

    /// The full run for `num` edaBits of `bit_size` bits, and how they are
    /// checked.
    pub fn generate_global_edabits(&self, bit_size: usize, num: usize) -> (r: (
        Flow,
        CutParameters,
    ))
        requires
            num >= 1024,
        ensures
            r.0@ == FlowView::start(self.common.role, 2),
            r.1.bit_size == bit_size,
            r.1.num == num,
            r.1.num_bucket == bucket_count(num as int),
            r.1.num_cut == bucket_count(num as int),
    {
        let (num_bucket, num_cut) = select_cut_and_choose_parameters(num);
        (Flow::start(self.common.role, 2), CutParameters { bit_size, num, num_bucket, num_cut })
    }

    /// Starts the check of buckets, each with the triples for its pairs. There is
    /// nothing to check where there are no buckets.
    pub fn open_and_check_bucket_pairs(
        &self,
        edabit_buckets: &[Vec<SpdzSharedEdabit<FE>>],
        triple_buckets: &[Vec<SpdzSharedBitTriple>],
    ) -> (r: Option<BucketCheck<FE>>)
        requires
            edabit_buckets@.len() > 0 ==> edabit_buckets@[0]@.len() > 0,
            forall|b: int|
                0 <= b < edabit_buckets@.len() ==> (#[trigger] edabit_buckets@[b])@.len()
                    >= edabit_buckets@[0]@.len(),
            edabit_buckets@.len() > 0 ==> bucket_adder(
                row_seq_views(edabit_buckets@),
            ).well_formed(),
            edabit_buckets@.len() > 0 ==> triple_buckets@.len() >= edabit_buckets@.len(),
        ensures
            r is None <==> edabit_buckets@.len() == 0,
            r matches Some(check) ==> {
                &&& check.adder@ == bucket_adder(row_seq_views(edabit_buckets@))
                &&& check.adder@.well_formed()
                &&& check.triples@ == rows(
                    triple_buckets@.take(edabit_buckets@.len() as int),
                ).flatten()
                &&& seq_views(check.sums@) == bucket_sums::<FE>(row_seq_views(edabit_buckets@))
                &&& check.bit_size == edabit_buckets@[0]@[0].bits@.len()
            },
            r matches Some(check) ==> forall|b: int, p: int|
                0 <= b < edabit_buckets@.len() && 1 <= p < edabit_buckets@[0]@.len()
                    ==> check.sums@[b * (edabit_buckets@[0]@.len() - 1) + p - 1]@ == spdz_sum::<FE>(
                    edabit_buckets@[b]@[0].value@,
                    (#[trigger] edabit_buckets@[b]@[p]).value@,
                ),
    {
        if edabit_buckets.len() == 0 {
            return None;
        }
        let num_buckets: usize = edabit_buckets.len();
        let bit_size: usize = edabit_buckets[0][0].bit_len();
        let ghost views = row_seq_views(edabit_buckets@);
        let (lhs, rhs) = bucket_pairs(edabit_buckets);
        let mut sums: Vec<SpdzFieldShare<FE>> = Vec::new();
        let mut i: usize = 0;
        while i < lhs.len()
            invariant
                i <= lhs.len(),
                lhs@.len() == rhs@.len(),
                sums@.len() == i,
                forall|j: int|
                    0 <= j < i ==> (#[trigger] sums@[j])@ == spdz_sum::<FE>(
                        lhs@[j].value@,
                        rhs@[j].value@,
                    ),
            decreases lhs.len() - i,
        {
            sums.push(add_spdz_shares(lhs[i].value, rhs[i].value));
            i = i + 1;
        }
        let mut used: Vec<Vec<SpdzSharedBitTriple>> = Vec::new();
        let mut b: usize = 0;
        while b < num_buckets
            invariant
                b <= num_buckets,
                num_buckets <= triple_buckets@.len(),
                used@.len() == b,
                forall|j: int| 0 <= j < b ==> (#[trigger] used@[j])@ == triple_buckets@[j]@,
            decreases num_buckets - b,
        {
            used.push(copy_vec(&triple_buckets[b]));
            b = b + 1;
        }
        proof {
            assert(rows(used@) =~= rows(triple_buckets@.take(num_buckets as int)));
            let pairs = bucket_pairs_of(views);
            assert forall|j: int| 0 <= j < pairs.len() implies #[trigger] seq_views(sums@)[j]
                == bucket_sums::<FE>(views)[j] by {
                assert(lhs@[j]@ == pairs[j].0);
                assert(rhs@[j]@ == pairs[j].1);
                assert(sums@[j]@ == seq_views(sums@)[j]);
            }
            assert(seq_views(sums@) =~= bucket_sums::<FE>(views));
            assert forall|j: int| 0 <= j < pairs.len() implies #[trigger] spdz_rows(
                seq_views(lhs@),
            )[j] == bucket_adder(views).lhs[j] by {
                assert(lhs@[j]@ == pairs[j].0);
            }
            assert forall|j: int| 0 <= j < pairs.len() implies #[trigger] spdz_rows(
                seq_views(rhs@),
            )[j] == bucket_adder(views).rhs[j] by {
                assert(rhs@[j]@ == pairs[j].1);
            }
            assert(spdz_rows(seq_views(lhs@)) =~= bucket_adder(views).lhs);
            assert(spdz_rows(seq_views(rhs@)) =~= bucket_adder(views).rhs);
        }
        proof {
            assert forall|b: int, p: int|
                0 <= b < edabit_buckets@.len() && 1 <= p < edabit_buckets@[0]@.len() implies
                sums@[b * (edabit_buckets@[0]@.len() - 1) + p - 1]@ == spdz_sum::<FE>(
                edabit_buckets@[b]@[0].value@,
                (#[trigger] edabit_buckets@[b]@[p]).value@,
            ) by {
                law_bucket_pairs(views, b, p);
                let i = b * (edabit_buckets@[0]@.len() - 1) + p - 1;
                assert(views[0] == seq_views(edabit_buckets@[0]@));
                assert(views[b] == seq_views(edabit_buckets@[b]@));
                assert(seq_views(sums@)[i] == sums@[i]@);
            }
        }
        let left = spdz_bits_of_edabits(lhs.as_slice());
        let right = spdz_bits_of_edabits(rhs.as_slice());
        let adder = BitAdder::start(left, right);
        Some(BucketCheck { adder, triples: flatten_rows(used.as_slice()), sums, bit_size })
    }

    /// Starts the check of what a cut has left of shuffled edaBits and triples:
    /// the edaBits are put into buckets. There is nothing to check where nothing is
    /// left.
    pub fn start_bucket_check(
        &self,
        edabits: &[SpdzSharedEdabit<FE>],
        triples: &[SpdzSharedBitTriple],
        params: CutParameters,
    ) -> (r: Option<BucketCheck<FE>>)
        requires
            params.fit(edabits@.len() as int, triples@.len() as int),
            forall|i: int|
                0 <= i < edabits@.len() ==> (#[trigger] edabits@[i]).bits@.len()
                    == params.bit_size,
        ensures
            r is None <==> params.num == 0,
            r matches Some(check) ==> {
                let buckets = chunked(
                    seq_views(edabits@).skip(params.num_cut as int),
                    params.num_bucket as int,
                );
                &&& check.adder@ == bucket_adder(buckets)
                &&& check.adder@.well_formed()
                &&& check.adder@.num() == params.num * (params.num_bucket - 1)
                &&& check.adder@.bit_size() == params.bit_size
                &&& check.triples@ == triples@.skip(params.num_cut * params.bit_size)
                &&& check.triples@.len() == check.adder@.num() * check.adder@.bit_size()
                &&& seq_views(check.sums@) == bucket_sums::<FE>(buckets)
                &&& check.bit_size == params.bit_size
            },
    {
        let CutParameters { bit_size, num, num_bucket, num_cut } = params;
        if num == 0 {
            return None;
        }
        let available: usize = triples.len();
        let ghost views = seq_views(edabits@).skip(num_cut as int);
        let ghost buckets = chunked(views, num_bucket as int);
        let ghost size = (num_bucket - 1) * bit_size;
        proof {
            law_bucket_counts(
                seq_views(edabits@),
                triples@,
                num as nat,
                num_bucket as nat,
                num_cut as nat,
                bit_size as nat,
            );
            assert(0 <= num * num_bucket) by (nonlinear_arith)
                requires
                    0 <= num,
                    0 <= num_bucket,
            ;
            assert(0 <= num_cut * bit_size && 0 < size && size <= num * (num_bucket - 1) * bit_size)
                by (nonlinear_arith)
                requires
                    0 <= num_cut,
                    1 <= bit_size,
                    1 <= num,
                    2 <= num_bucket,
                    size == (num_bucket - 1) * bit_size,
            ;
        }
        let cut_triples: usize = num_cut * bit_size;
        let triple_size: usize = (num_bucket - 1) * bit_size;
        let edabit_buckets = bucket_items(edabits, num_cut, num_bucket);
        let triple_buckets = split_rows(triples, cut_triples, triple_size);
        proof {
            assert(row_seq_views(edabit_buckets@) == buckets);
            assert(rows(triple_buckets@) == chunked(triples@.skip(cut_triples as int), size));
            assert(rows(triple_buckets@).len() == num);
            assert forall|b: int| 0 <= b < num implies (#[trigger] edabit_buckets@[b])@.len()
                == num_bucket by {
                assert(row_seq_views(edabit_buckets@)[b] == seq_views(edabit_buckets@[b]@));
                assert(buckets[b].len() == num_bucket);
            }
            lemma_bucket_pairs_len(buckets, num_bucket as int);
            lemma_chunked_exact(views, num_bucket as int, num as nat);
            let pairs = bucket_pairs_of(buckets);
            let adder = bucket_adder(buckets);
            assert forall|i: int| 0 <= i < pairs.len() implies (#[trigger] pairs[i]).0.bits.len()
                == bit_size && pairs[i].1.bits.len() == bit_size by {
                lemma_bucket_pairs(buckets, num_bucket as int, i);
                let (b, p) = (i / (num_bucket - 1), i % (num_bucket - 1) + 1);
                lemma_bucket_element(edabits@, num_cut as int, num_bucket as int, num as nat, b, 0);
                lemma_bucket_element(edabits@, num_cut as int, num_bucket as int, num as nat, b, p);
            }
            assert(num * (num_bucket - 1) >= 1) by (nonlinear_arith)
                requires
                    1 <= num,
                    2 <= num_bucket,
            ;
            assert(pairs.len() == num * (num_bucket - 1));
            assert(pairs[0].0.bits.len() == bit_size);
            assert(adder.lhs[0] == pairs[0].0.bits);
            assert(adder.bit_size() == bit_size);
            assert forall|row: int| 0 <= row < adder.num() implies (#[trigger] adder.lhs[row]).len()
                >= adder.bit_size() by {
                assert(pairs[row].0.bits.len() == bit_size);
            }
            assert forall|row: int| 0 <= row < adder.num() implies (#[trigger] adder.rhs[row]).len()
                >= adder.bit_size() by {
                assert(pairs[row].1.bits.len() == bit_size);
            }
            assert(adder.well_formed());
            law_flatten_of_split(triples@.skip(cut_triples as int), size);
            assert(triple_buckets@.take(num as int) =~= triple_buckets@);
            lemma_bucket_element(edabits@, num_cut as int, num_bucket as int, num as nat, 0, 0);
            assert(row_seq_views(edabit_buckets@)[0] == seq_views(edabit_buckets@[0]@));
            assert(buckets[0][0].bits.len() == edabit_buckets@[0]@[0].bits@.len());
        }
        self.open_and_check_bucket_pairs(edabit_buckets.as_slice(), triple_buckets.as_slice())
    }
}

/// Where an edaBit of a bucket stands among the shuffled ones: it has their
/// number of bits.
proof fn lemma_bucket_element<FE: FiniteField>(
    edabits: Seq<SpdzSharedEdabit<FE>>,
    num_cut: int,
    num_bucket: int,
    num: nat,
    b: int,
    p: int,
)
    requires
        num_bucket >= 1,
        0 <= num_cut,
        edabits.len() == num * num_bucket + num_cut,
        0 <= b < num,
        0 <= p < num_bucket,
        forall|i: int|
            0 <= i < edabits.len() ==> (#[trigger] edabits[i]).bits@.len()
                == edabits[0].bits@.len(),
    ensures
        chunked(seq_views(edabits).skip(num_cut), num_bucket)[b][p].bits.len()
            == edabits[0].bits@.len(),
{
    assert(0 <= b * num_bucket && b * num_bucket + num_bucket <= num * num_bucket)
        by (nonlinear_arith)
        requires
            0 <= b,
            b + 1 <= num,
            num_bucket >= 1,
    ;
    let views = seq_views(edabits).skip(num_cut);
    lemma_chunked_exact(views, num_bucket, num);
    let i = num_cut + b * num_bucket + p;
    assert(chunked(views, num_bucket)[b] == views.subrange(
        b * num_bucket,
        b * num_bucket + num_bucket,
    ));
    assert(chunked(views, num_bucket)[b][p] == edabits[i]@);
    assert(edabits[i].bits@.len() == edabits[0].bits@.len());
}

} // verus!
