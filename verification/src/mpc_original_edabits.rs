//! Private edaBits checked by cut-and-choose over shared values.
//!
//! Private edaBits and private triples are sampled and shared, a random cut set
//! is opened, and the remaining buckets are checked with possibly faulty
//! triples. What is left is combined as in [`crate::mpc_edabits_common`].

use crate::bit_adder::{adder_start, row_seq_views, seq_views, AdderView, BitAdder};
use crate::bits::{
    chunked, convert_bits_to_field, flatten_rows, law_flatten_of_split, least, lemma_chunked_exact,
    number, rows, split_rows,
};
use crate::cut_and_choose::{
    bits_multiply, bucket_items, bucket_pairs, bucket_pairs_of, law_bit_product,
    law_bucket_counts, law_bucket_pairs, lemma_bucket_pairs, lemma_bucket_pairs_len, lemma_cut_fits,
    CutParameters, PrivateBitTriple,
};
use crate::f40b::F40b;
use crate::field::{FiniteField, FiniteRing, PrimeFiniteField, PrimeRing};
use crate::flow::{Flow, FlowView};
use crate::mpc_conv::{copy_vec, EdabitView, GlobalEdabit, PrivateEdabit, SharedEdabit};
use crate::mpc_edabits_common::{
    bits_of_edabits, bucket_count, combinable, combination_start, corrected_share, edabit_rows,
    opened_from, shared_views, unmasked_share, MpcEdabitsCommon, SharedDabit,
};
use crate::mpc_homcom::{PeerFieldMacs, PeerRole};
use crate::multiplication::{round_items, SharedBitTriple};
use crate::prime_fields::F2;
use crate::share::{share_sum, AuthenticatedShare, ShareView};
use vstd::prelude::*;

verus! {

/// The bucket size and the number of items to open for a batch of
/// `num_edabits`.
pub fn select_cut_and_choose_parameters(num_edabits: usize) -> (r: (usize, usize))
    requires
        num_edabits >= 1024,
    ensures
        r.0 == bucket_count(num_edabits as int),
        r.1 == bucket_count(num_edabits as int),
        num_edabits < 10322 ==> r == (5usize, 5usize),
        10322 <= num_edabits < 1048576 ==> r == (4usize, 4usize),
        1048576 <= num_edabits ==> r == (3usize, 3usize),
{
    crate::mpc_edabits::select_cut_and_choose_parameters(num_edabits)
}

/// What a peer holds after sampling, before the check.
pub struct RawPrivateEdabitState<FE: FiniteField> {
    pub private_edabits: Vec<PrivateEdabit<FE>>,
    pub peer_private_edabits: Vec<SharedEdabit<FE>>,
    pub private_triples: Vec<PrivateBitTriple<SharedBitTriple>>,
    pub peer_private_triples: Vec<SharedBitTriple>,
}

/// What a peer holds after the check.
pub struct VerifiedPrivateEdabitState<FE: FiniteField> {
    pub private_edabits: Vec<PrivateEdabit<FE>>,
    pub peer_private_edabits: Vec<SharedEdabit<FE>>,
}

/// The values that clear bits denote, row by row.
pub fn clear_values<FE: FiniteField>(clear_bits: &[Vec<F2>]) -> (r: Vec<FE::PrimeField>)
    ensures
        r@.len() == clear_bits@.len(),
        forall|i: int|
            0 <= i < r@.len() ==> (#[trigger] r@[i]).val() == number(clear_bits@[i]@) as int
                % FE::PrimeField::order(),
{
    let mut out: Vec<FE::PrimeField> = Vec::new();
    let mut i: usize = 0;
    while i < clear_bits.len()
        invariant
            i <= clear_bits.len(),
            out@.len() == i,
            forall|j: int|
                0 <= j < i ==> (#[trigger] out@[j]).val() == number(clear_bits@[j]@) as int
                    % FE::PrimeField::order(),
        decreases clear_bits.len() - i,
    {
        out.push(convert_bits_to_field::<FE>(clear_bits[i].as_slice()));
        i = i + 1;
    }
    out
}

/// The products of bits, pair by pair.
pub fn product_bits(a: &[F2], b: &[F2]) -> (r: Vec<F2>)
    requires
        a@.len() == b@.len(),
    ensures
        r@.len() == a@.len(),
        bits_multiply(a@, b@, r@, a@.len() as int),
        forall|i: int|
            0 <= i < a@.len() ==> (#[trigger] r@[i]).val() == a@[i].val() * b@[i].val(),
{
    proof {
        assert forall|x: F2, y: F2| #[trigger] F2::times(x.val(), y.val()) == x.val()
            * y.val() by {
            law_bit_product(x, y);
        }
    }
    let mut out: Vec<F2> = Vec::new();
    let mut i: usize = 0;
    while i < a.len()
        invariant
            i <= a.len(),
            a@.len() == b@.len(),
            out@.len() == i,
            bits_multiply(a@, b@, out@, i as int),
        decreases a.len() - i,
    {
        let ghost before = out@;
        out.push(a[i].mul(b[i]));
        assert forall|j: int| 0 <= j < i + 1 implies #[trigger] out@[j].val() == F2::times(
            a@[j].val(),
            b@[j].val(),
        ) by {
            if j < i {
                assert(before[j].val() == F2::times(a@[j].val(), b@[j].val()));
            }
        }
        i = i + 1;
    }
    out
}

/// This peer's part of `num` edaBits, from the shares of all their bits one
/// after the other and of their values.
pub fn group_shared_edabits<FE: FiniteField>(
    flat_bits: &[AuthenticatedShare<F40b>],
    values: &[AuthenticatedShare<FE>],
    bit_size: usize,
    num: usize,
) -> (r: Vec<SharedEdabit<FE>>)
    requires
        num * bit_size <= flat_bits@.len(),
        num <= values@.len(),
    ensures
        r@.len() == num,
        forall|i: int|
            0 <= i < num ==> {
                &&& (#[trigger] r@[i]).bits@ == flat_bits@.subrange(
                    i * bit_size,
                    i * bit_size + bit_size,
                )
                &&& r@[i].value == values@[i]
            },
{
    let mut out: Vec<SharedEdabit<FE>> = Vec::new();
    let mut i: usize = 0;
    while i < num
        invariant
            i <= num,
            num * bit_size <= flat_bits@.len(),
            num <= values@.len(),
            out@.len() == i,
            forall|j: int|
                0 <= j < i ==> {
                    &&& (#[trigger] out@[j]).bits@ == flat_bits@.subrange(
                        j * bit_size,
                        j * bit_size + bit_size,
                    )
                    &&& out@[j].value == values@[j]
                },
        decreases num - i,
    {
        assert(i * bit_size + bit_size <= num * bit_size) by (nonlinear_arith)
            requires
                i + 1 <= num,
        ;
        out.push(SharedEdabit { bits: round_items(flat_bits, i, bit_size), value: values[i] });
        i = i + 1;
    }
    out
}

/// This peer's own edaBits, from their clear bits and values, and the shares of
/// all their bits one after the other and of their values.
pub fn group_private_edabits<FE: FiniteField>(
    clear_bits: &[Vec<F2>],
    clear_values: &[FE::PrimeField],
    flat_bits: &[AuthenticatedShare<F40b>],
    values: &[AuthenticatedShare<FE>],
    bit_size: usize,
) -> (r: Vec<PrivateEdabit<FE>>)
    requires
        clear_values@.len() == clear_bits@.len(),
        clear_bits@.len() * bit_size <= flat_bits@.len(),
        clear_bits@.len() <= values@.len(),
    ensures
        r@.len() == clear_bits@.len(),
        forall|i: int|
            0 <= i < r@.len() ==> {
                &&& (#[trigger] r@[i]).clear_bits@ == clear_bits@[i]@
                &&& r@[i].clear_value == clear_values@[i]
                &&& r@[i].shared.bits@ == flat_bits@.subrange(
                    i * bit_size,
                    i * bit_size + bit_size,
                )
                &&& r@[i].shared.value == values@[i]
            },
{
    let num: usize = clear_bits.len();
    let mut out: Vec<PrivateEdabit<FE>> = Vec::new();
    let mut i: usize = 0;
    while i < num
        invariant
            i <= num,
            num == clear_bits@.len(),
            clear_values@.len() == num,
            num * bit_size <= flat_bits@.len(),
            num <= values@.len(),
            out@.len() == i,
            forall|j: int|
                0 <= j < i ==> {
                    &&& (#[trigger] out@[j]).clear_bits@ == clear_bits@[j]@
                    &&& out@[j].clear_value == clear_values@[j]
                    &&& out@[j].shared.bits@ == flat_bits@.subrange(
                        j * bit_size,
                        j * bit_size + bit_size,
                    )
                    &&& out@[j].shared.value == values@[j]
                },
        decreases num - i,
    {
        assert(i * bit_size + bit_size <= num * bit_size) by (nonlinear_arith)
            requires
                i + 1 <= num,
        ;
        out.push(
            PrivateEdabit {
                clear_bits: copy_vec(&clear_bits[i]),
                clear_value: clear_values[i],
                shared: SharedEdabit {
                    bits: round_items(flat_bits, i, bit_size),
                    value: values[i],
                },
            },
        );
        i = i + 1;
    }
    out
}

/// The shares of private edaBits.
pub fn shared_edabits<FE: FiniteField>(edabits: &[PrivateEdabit<FE>]) -> (r: Vec<SharedEdabit<FE>>)
    ensures
        seq_views(r@) == shared_views(edabits@),
{
    let mut out: Vec<SharedEdabit<FE>> = Vec::new();
    let mut i: usize = 0;
    while i < edabits.len()
        invariant
            i <= edabits.len(),
            out@.len() == i,
            forall|j: int| 0 <= j < i ==> (#[trigger] out@[j])@ == edabits@[j].shared@,
        decreases edabits.len() - i,
    {
        out.push(edabits[i].shared.duplicate());
        i = i + 1;
    }
    assert(seq_views(out@) =~= shared_views(edabits@));
    out
}

/// The shares to open in order to check edaBits: of all their bits one after the
/// other, and of their values.
pub fn edabit_openings<FE: FiniteField>(edabits: &[SharedEdabit<FE>]) -> (r: (
    Vec<AuthenticatedShare<F40b>>,
    Vec<AuthenticatedShare<FE>>,
))
    ensures
        r.0@ == Seq::new(edabits@.len(), |i: int| edabits@[i].bits@).flatten(),
        r.1@ == Seq::new(edabits@.len(), |i: int| edabits@[i].value),
{
    let mut bits: Vec<Vec<AuthenticatedShare<F40b>>> = Vec::new();
    let mut values: Vec<AuthenticatedShare<FE>> = Vec::new();
    let mut i: usize = 0;
    while i < edabits.len()
        invariant
            i <= edabits.len(),
            bits@.len() == i,
            values@.len() == i,
            forall|j: int| 0 <= j < i ==> (#[trigger] bits@[j])@ == edabits@[j].bits@,
            forall|j: int| 0 <= j < i ==> #[trigger] values@[j] == edabits@[j].value,
        decreases edabits.len() - i,
    {
        bits.push(copy_vec(&edabits[i].bits));
        values.push(edabits[i].value);
        i = i + 1;
    }
    assert(rows(bits@) =~= Seq::new(edabits@.len(), |i: int| edabits@[i].bits@));
    assert(values@ =~= Seq::new(edabits@.len(), |i: int| edabits@[i].value));
    (flatten_rows(bits.as_slice()), values)
}

/// The shares to open in order to check triples.
pub fn triple_openings(triples: &[SharedBitTriple]) -> (r: (
    Vec<AuthenticatedShare<F40b>>,
    Vec<AuthenticatedShare<F40b>>,
    Vec<AuthenticatedShare<F40b>>,
))
    ensures
        r.0@ == Seq::new(triples@.len(), |i: int| triples@[i].a),
        r.1@ == Seq::new(triples@.len(), |i: int| triples@[i].b),
        r.2@ == Seq::new(triples@.len(), |i: int| triples@[i].c),
{
    let mut a: Vec<AuthenticatedShare<F40b>> = Vec::new();
    let mut b: Vec<AuthenticatedShare<F40b>> = Vec::new();
    let mut c: Vec<AuthenticatedShare<F40b>> = Vec::new();
    let mut i: usize = 0;
    while i < triples.len()
        invariant
            i <= triples.len(),
            a@.len() == i,
            b@.len() == i,
            c@.len() == i,
            forall|j: int| 0 <= j < i ==> #[trigger] a@[j] == triples@[j].a,
            forall|j: int| 0 <= j < i ==> #[trigger] b@[j] == triples@[j].b,
            forall|j: int| 0 <= j < i ==> #[trigger] c@[j] == triples@[j].c,
        decreases triples.len() - i,
    {
        a.push(triples[i].a);
        b.push(triples[i].b);
        c.push(triples[i].c);
        i = i + 1;
    }
    assert(a@ =~= Seq::new(triples@.len(), |i: int| triples@[i].a));
    assert(b@ =~= Seq::new(triples@.len(), |i: int| triples@[i].b));
    assert(c@ =~= Seq::new(triples@.len(), |i: int| triples@[i].c));
    (a, b, c)
}

/// The shares to open for the cut: of the bits and values of the edaBits in it,
/// and of the three bits of its triples.
pub struct CutOpenings<FE: PrimeFiniteField> {
    pub bits: Vec<AuthenticatedShare<F40b>>,
    pub values: Vec<AuthenticatedShare<FE>>,
    pub a: Vec<AuthenticatedShare<F40b>>,
    pub b: Vec<AuthenticatedShare<F40b>>,
    pub c: Vec<AuthenticatedShare<F40b>>,
}

/// The shares to open for the cut of shuffled edaBits, and of as many triples as
/// the edaBits in it have bits.
pub fn cut_openings<FE: PrimeFiniteField>(
    edabits: &[SharedEdabit<FE>],
    triples: &[SharedBitTriple],
    params: CutParameters,
) -> (r: CutOpenings<FE>)
    requires
        params.fit(edabits@.len() as int, triples@.len() as int),
    ensures
        r.bits@ == Seq::new(params.num_cut as nat, |i: int| edabits@[i].bits@).flatten(),
        r.values@ == Seq::new(params.num_cut as nat, |i: int| edabits@[i].value),
        r.a@ == Seq::new((params.num_cut * params.bit_size) as nat, |i: int| triples@[i].a),
        r.b@ == Seq::new((params.num_cut * params.bit_size) as nat, |i: int| triples@[i].b),
        r.c@ == Seq::new((params.num_cut * params.bit_size) as nat, |i: int| triples@[i].c),
{
    let num_cut: usize = params.num_cut;
    let available: usize = triples.len();
    proof {
        lemma_cut_fits(params, edabits@.len() as int, available as int);
    }
    let cut_triples: usize = num_cut * params.bit_size;
    let cut = vstd::slice::slice_subrange(edabits, 0, num_cut);
    let cut_of_triples = vstd::slice::slice_subrange(triples, 0, cut_triples);
    let (bits, values) = edabit_openings(cut);
    let (a, b, c) = triple_openings(cut_of_triples);
    proof {
        assert(Seq::new(cut@.len(), |i: int| cut@[i].bits@) =~= Seq::new(
            num_cut as nat,
            |i: int| edabits@[i].bits@,
        ));
        assert(values@ =~= Seq::new(num_cut as nat, |i: int| edabits@[i].value));
        assert(a@ =~= Seq::new(cut_triples as nat, |i: int| triples@[i].a));
        assert(b@ =~= Seq::new(cut_triples as nat, |i: int| triples@[i].b));
        assert(c@ =~= Seq::new(cut_triples as nat, |i: int| triples@[i].c));
    }
    CutOpenings { bits, values, a, b, c }
}

/// The addition that checks buckets: in every bucket each other edaBit is added
/// to the first one.
pub open spec fn bucket_adder(buckets: Seq<Seq<EdabitView>>) -> AdderView<ShareView> {
    let pairs = bucket_pairs_of(buckets);
    adder_start::<AuthenticatedShare<F40b>>(
        Seq::new(pairs.len(), |i: int| pairs[i].0.bits),
        Seq::new(pairs.len(), |i: int| pairs[i].1.bits),
    )
}

/// The sums of the values of the pairs of all buckets.
pub open spec fn bucket_sums<FE: FiniteField>(buckets: Seq<Seq<EdabitView>>) -> Seq<ShareView> {
    let pairs = bucket_pairs_of(buckets);
    Seq::new(pairs.len(), |i: int| share_sum::<FE>(pairs[i].0.value, pairs[i].1.value))
}

/// The check of buckets in progress.
pub struct BucketCheck<FE: PrimeFiniteField> {
    /// The addition of the bits of the pairs.
    pub adder: BitAdder<AuthenticatedShare<F40b>>,
    /// The triples for the addition.
    pub triples: Vec<SharedBitTriple>,
    /// The sums of the values of the pairs.
    pub sums: Vec<AuthenticatedShare<FE>>,
    /// How many bits the edaBits have.
    pub bit_size: usize,
}

/// MPC-facing peer of the cut-and-choose flow.
pub struct MpcOriginalEdabitsPeer<FE: PrimeFiniteField> {
    pub common: MpcEdabitsCommon<FE>,
}

impl<FE: PrimeFiniteField> MpcOriginalEdabitsPeer<FE> {
    /// A peer whose two fields have been initialized.
    pub fn init(role: PeerRole, fcom_f2: PeerFieldMacs<F40b>, fcom_fe: PeerFieldMacs<FE>) -> (r:
        Self)
        ensures
            r.common.role == role,
            r.common.fcom_f2 == fcom_f2,
            r.common.fcom_fe == fcom_fe,
    {
        MpcOriginalEdabitsPeer { common: MpcEdabitsCommon { role, fcom_f2, fcom_fe } }
    }

    /// The full run for `num` edaBits of `bit_size` bits, and how they are
    /// checked.
    pub fn generate_global_edabits(&self, bit_size: usize, num: usize) -> (r: (
        Flow,
        CutParameters,
    ))
        requires
            num >= 1024,
        ensures
            r.0@ == FlowView::start(self.common.role, 2),
            r.1.bit_size == bit_size,
            r.1.num == num,
            r.1.num_bucket == bucket_count(num as int),
            r.1.num_cut == bucket_count(num as int),
    {
        let (num_bucket, num_cut) = select_cut_and_choose_parameters(num);
        (Flow::start(self.common.role, 2), CutParameters { bit_size, num, num_bucket, num_cut })
    }

    /// The full run, under its shorter name.
    pub fn generate_edabits(&self, bit_size: usize, num: usize) -> (r: (
        Flow,
        CutParameters,
    ))
        requires
            num >= 1024,
        ensures
            r.0@ == FlowView::start(self.common.role, 2),
            r.1.bit_size == bit_size,
            r.1.num == num,
            r.1.num_bucket == bucket_count(num as int),
            r.1.num_cut == bucket_count(num as int),
    {
        self.generate_global_edabits(bit_size, num)
    }

    /// The opened bits and values of global edaBits, from the other peer's shares
    /// of them.
    pub fn open_global_edabits(
        &self,
        global_edabits: &[GlobalEdabit<FE>],
        remote_values: &[(Vec<F2>, FE)],
    ) -> (r: Vec<(Vec<F2>, FE)>)
        requires
            remote_values@.len() == global_edabits@.len(),
            forall|i: int|
                0 <= i < global_edabits@.len() ==> (#[trigger] remote_values@[i]).0@.len()
                    == global_edabits@[i].bits@.len(),
        ensures
            opened_from(r@, global_edabits@, remote_values@),
    {
        self.common.open_global_edabits(global_edabits, remote_values)
    }

    /// Starts combining checked private edaBits with those of the other peer.
    pub fn combine_private_into_global_edabits(&self, state: &VerifiedPrivateEdabitState<FE>) -> (r:
        BitAdder<AuthenticatedShare<F40b>>)
        requires
            combinable(
                self.common.role,
                shared_views(state.private_edabits@),
                seq_views(state.peer_private_edabits@),
            ),
        ensures
            r@.well_formed(),
            r@ == combination_start(
                self.common.role,
                shared_views(state.private_edabits@),
                seq_views(state.peer_private_edabits@),
            ),
    {
        self.common.combine_start(
            state.private_edabits.as_slice(),
            state.peer_private_edabits.as_slice(),
        )
    }

    /// Starts the check of buckets, each with the triples for its pairs. There is
    /// nothing to check where there are no buckets.
    pub fn open_and_check_bucket_pairs(
        &self,
        edabit_buckets: &[Vec<SharedEdabit<FE>>],
        triple_buckets: &[Vec<SharedBitTriple>],
    ) -> (r: Option<BucketCheck<FE>>)
        requires
            edabit_buckets@.len() > 0 ==> edabit_buckets@[0]@.len() > 0,
            forall|b: int|
                0 <= b < edabit_buckets@.len() ==> (#[trigger] edabit_buckets@[b])@.len()
                    >= edabit_buckets@[0]@.len(),
            edabit_buckets@.len() > 0 ==> bucket_adder(
                row_seq_views(edabit_buckets@),
            ).well_formed(),
            edabit_buckets@.len() > 0 ==> triple_buckets@.len() >= edabit_buckets@.len(),
        ensures
            r is None <==> edabit_buckets@.len() == 0,
            r matches Some(check) ==> {
                &&& check.adder@ == bucket_adder(row_seq_views(edabit_buckets@))
                &&& check.adder@.well_formed()
                &&& check.triples@ == rows(
                    triple_buckets@.take(edabit_buckets@.len() as int),
                ).flatten()
                &&& seq_views(check.sums@) == bucket_sums::<FE>(row_seq_views(edabit_buckets@))
                &&& check.bit_size == edabit_buckets@[0]@[0].bits@.len()
            },
            r matches Some(check) ==> forall|b: int, p: int|
                0 <= b < edabit_buckets@.len() && 1 <= p < edabit_buckets@[0]@.len()
                    ==> check.sums@[b * (edabit_buckets@[0]@.len() - 1) + p - 1]@
                    == share_sum::<FE>(
                    edabit_buckets@[b]@[0].value@,
                    (#[trigger] edabit_buckets@[b]@[p]).value@,
                ),
    {
        if edabit_buckets.len() == 0 {
            return None;
        }
        let num_buckets: usize = edabit_buckets.len();
        let bit_size: usize = edabit_buckets[0][0].bit_len();
        let ghost views = row_seq_views(edabit_buckets@);
        let (lhs, rhs) = bucket_pairs(edabit_buckets);
        let mut sums: Vec<AuthenticatedShare<FE>> = Vec::new();
        let mut i: usize = 0;
        while i < lhs.len()
            invariant
                i <= lhs.len(),
                lhs@.len() == rhs@.len(),
                sums@.len() == i,
                forall|j: int|
                    0 <= j < i ==> (#[trigger] sums@[j])@ == share_sum::<FE>(
                        lhs@[j].value@,
                        rhs@[j].value@,
                    ),
            decreases lhs.len() - i,
        {
            sums.push(self.common.fcom_fe.add_shares(lhs[i].value, rhs[i].value));
            i = i + 1;
        }
        let mut used: Vec<Vec<SharedBitTriple>> = Vec::new();
        let mut b: usize = 0;
        while b < num_buckets
            invariant
                b <= num_buckets,
                num_buckets <= triple_buckets@.len(),
                used@.len() == b,
                forall|j: int| 0 <= j < b ==> (#[trigger] used@[j])@ == triple_buckets@[j]@,
            decreases num_buckets - b,
        {
            used.push(copy_vec(&triple_buckets[b]));
            b = b + 1;
        }
        proof {
            assert(rows(used@) =~= rows(triple_buckets@.take(num_buckets as int)));
            let pairs = bucket_pairs_of(views);
            assert forall|j: int| 0 <= j < pairs.len() implies #[trigger] seq_views(sums@)[j]
                == bucket_sums::<FE>(views)[j] by {
                assert(lhs@[j]@ == pairs[j].0);
                assert(rhs@[j]@ == pairs[j].1);
                assert(sums@[j]@ == seq_views(sums@)[j]);
            }
            assert(seq_views(sums@) =~= bucket_sums::<FE>(views));
            assert forall|j: int| 0 <= j < pairs.len() implies #[trigger] edabit_rows(
                seq_views(lhs@),
            )[j] == bucket_adder(views).lhs[j] by {
                assert(lhs@[j]@ == pairs[j].0);
            }
            assert forall|j: int| 0 <= j < pairs.len() implies #[trigger] edabit_rows(
                seq_views(rhs@),
            )[j] == bucket_adder(views).rhs[j] by {
                assert(rhs@[j]@ == pairs[j].1);
            }
            assert(edabit_rows(seq_views(lhs@)) =~= bucket_adder(views).lhs);
            assert(edabit_rows(seq_views(rhs@)) =~= bucket_adder(views).rhs);
        }
        proof {
            assert forall|b: int, p: int|
                0 <= b < edabit_buckets@.len() && 1 <= p < edabit_buckets@[0]@.len() implies
                sums@[b * (edabit_buckets@[0]@.len() - 1) + p - 1]@ == share_sum::<FE>(
                edabit_buckets@[b]@[0].value@,
                (#[trigger] edabit_buckets@[b]@[p]).value@,
            ) by {
                law_bucket_pairs(views, b, p);
                let i = b * (edabit_buckets@[0]@.len() - 1) + p - 1;
                assert(views[0] == seq_views(edabit_buckets@[0]@));
                assert(views[b] == seq_views(edabit_buckets@[b]@));
                assert(seq_views(sums@)[i] == sums@[i]@);
            }
        }
        let left = bits_of_edabits(lhs.as_slice());
        let right = bits_of_edabits(rhs.as_slice());
        let adder = BitAdder::start(left, right);
        Some(BucketCheck { adder, triples: flatten_rows(used.as_slice()), sums, bit_size })
    }

    /// Starts the check of what a cut has left of shuffled edaBits and triples:
    /// the edaBits are put into buckets. There is nothing to check where nothing is
    /// left.
    pub fn start_bucket_check(
        &self,
        edabits: &[SharedEdabit<FE>],
        triples: &[SharedBitTriple],
        params: CutParameters,
    ) -> (r: Option<BucketCheck<FE>>)
        requires
            params.fit(edabits@.len() as int, triples@.len() as int),
            forall|i: int|
                0 <= i < edabits@.len() ==> (#[trigger] edabits@[i]).bits@.len()
                    == params.bit_size,
        ensures
            r is None <==> params.num == 0,
            r matches Some(check) ==> {
                let buckets = chunked(
                    seq_views(edabits@).skip(params.num_cut as int),
                    params.num_bucket as int,
                );
                &&& check.adder@ == bucket_adder(buckets)
                &&& check.adder@.well_formed()
                &&& check.adder@.num() == params.num * (params.num_bucket - 1)
                &&& check.adder@.bit_size() == params.bit_size
                &&& check.triples@ == triples@.skip(params.num_cut * params.bit_size)
                &&& check.triples@.len() == check.adder@.num() * check.adder@.bit_size()
                &&& seq_views(check.sums@) == bucket_sums::<FE>(buckets)
                &&& check.bit_size == params.bit_size
            },
    {
        let CutParameters { bit_size, num, num_bucket, num_cut } = params;
        if num == 0 {
            return None;
        }
        let available: usize = triples.len();
        let ghost views = seq_views(edabits@).skip(num_cut as int);
        let ghost buckets = chunked(views, num_bucket as int);
        let ghost size = (num_bucket - 1) * bit_size;
        proof {
            law_bucket_counts(
                seq_views(edabits@),
                triples@,
                num as nat,
                num_bucket as nat,
                num_cut as nat,
                bit_size as nat,
            );
            assert(0 <= num * num_bucket) by (nonlinear_arith)
                requires
                    0 <= num,
                    0 <= num_bucket,
            ;
            assert(0 <= num_cut * bit_size && 0 < size && size <= num * (num_bucket - 1) * bit_size)
                by (nonlinear_arith)
                requires
                    0 <= num_cut,
                    1 <= bit_size,
                    1 <= num,
                    2 <= num_bucket,
                    size == (num_bucket - 1) * bit_size,
            ;
        }
        let cut_triples: usize = num_cut * bit_size;
        let triple_size: usize = (num_bucket - 1) * bit_size;
        let edabit_buckets = bucket_items(edabits, num_cut, num_bucket);
        let triple_buckets = split_rows(triples, cut_triples, triple_size);
        proof {
            assert(row_seq_views(edabit_buckets@) == buckets);
            assert(rows(triple_buckets@) == chunked(triples@.skip(cut_triples as int), size));
            assert(rows(triple_buckets@).len() == num);
            assert forall|b: int| 0 <= b < num implies (#[trigger] edabit_buckets@[b])@.len()
                == num_bucket by {
                assert(row_seq_views(edabit_buckets@)[b] == seq_views(edabit_buckets@[b]@));
                assert(buckets[b].len() == num_bucket);
            }
            lemma_bucket_pairs_len(buckets, num_bucket as int);
            lemma_chunked_exact(views, num_bucket as int, num as nat);
            let pairs = bucket_pairs_of(buckets);
            let adder = bucket_adder(buckets);
            assert forall|i: int| 0 <= i < pairs.len() implies (#[trigger] pairs[i]).0.bits.len()
                == bit_size && pairs[i].1.bits.len() == bit_size by {
                lemma_bucket_pairs(buckets, num_bucket as int, i);
                let (b, p) = (i / (num_bucket - 1), i % (num_bucket - 1) + 1);
                lemma_bucket_element(edabits@, num_cut as int, num_bucket as int, num as nat, b, 0);
                lemma_bucket_element(edabits@, num_cut as int, num_bucket as int, num as nat, b, p);
            }
            assert(num * (num_bucket - 1) >= 1) by (nonlinear_arith)
                requires
                    1 <= num,
                    2 <= num_bucket,
            ;
            assert(pairs.len() == num * (num_bucket - 1));
            assert(pairs[0].0.bits.len() == bit_size);
            assert(adder.lhs[0] == pairs[0].0.bits);
            assert(adder.bit_size() == bit_size);
            assert forall|row: int| 0 <= row < adder.num() implies (#[trigger] adder.lhs[row]).len()
                >= adder.bit_size() by {
                assert(pairs[row].0.bits.len() == bit_size);
            }
            assert forall|row: int| 0 <= row < adder.num() implies (#[trigger] adder.rhs[row]).len()
                >= adder.bit_size() by {
                assert(pairs[row].1.bits.len() == bit_size);
            }
            assert(adder.well_formed());
            law_flatten_of_split(triples@.skip(cut_triples as int), size);
            assert(triple_buckets@.take(num as int) =~= triple_buckets@);
            lemma_bucket_element(edabits@, num_cut as int, num_bucket as int, num as nat, 0, 0);
            assert(row_seq_views(edabit_buckets@)[0] == seq_views(edabit_buckets@[0]@));
            assert(buckets[0][0].bits.len() == edabit_buckets@[0]@[0].bits@.len());
        }
        self.open_and_check_bucket_pairs(edabit_buckets.as_slice(), triple_buckets.as_slice())
    }

    /// The shares of the values of the pairs to open, from the opened masks of
    /// the carries.
    pub fn bucket_values(
        &self,
        sums: &[AuthenticatedShare<FE>],
        dabits: &[SharedDabit<FE>],
        opened_masks: &[F2],
        bit_size: usize,
    ) -> (r: Vec<AuthenticatedShare<FE>>)
        ensures
            r@.len() == least(
                sums@.len() as int,
                least(dabits@.len() as int, opened_masks@.len() as int),
            ),
            forall|i: int|
                0 <= i < r@.len() ==> (#[trigger] r@[i])@ == corrected_share::<FE>(
                    sums@[i]@,
                    unmasked_share::<FE>(
                        self.common.role,
                        self.common.fcom_fe.delta().val(),
                        dabits@[i].value@,
                        opened_masks@[i].val(),
                    ),
                    bit_size as nat,
                ),
    {
        let carries = self.common.convert_shared_bits_to_field(dabits, opened_masks);
        let out = self.common.apply_overflow_correction(sums, carries.as_slice(), bit_size);
        proof {
            assert forall|i: int| 0 <= i < out@.len() implies (#[trigger] out@[i])@
                == corrected_share::<FE>(
                sums@[i]@,
                unmasked_share::<FE>(
                    self.common.role,
                    self.common.fcom_fe.delta().val(),
                    dabits@[i].value@,
                    opened_masks@[i].val(),
                ),
                bit_size as nat,
            ) by {
                assert(carries@[i]@ == unmasked_share::<FE>(
                    self.common.role,
                    self.common.fcom_fe.delta().val(),
                    dabits@[i].value@,
                    opened_masks@[i].val(),
                ));
            }
        }
        out
    }
}

/// Where an edaBit of a bucket stands among the shuffled ones: it has their
/// number of bits.
proof fn lemma_bucket_element<FE: FiniteField>(
    edabits: Seq<SharedEdabit<FE>>,
    num_cut: int,
    num_bucket: int,
    num: nat,
    b: int,
    p: int,
)
    requires
        num_bucket >= 1,
        0 <= num_cut,
        edabits.len() == num * num_bucket + num_cut,
        0 <= b < num,
        0 <= p < num_bucket,
        forall|i: int|
            0 <= i < edabits.len() ==> (#[trigger] edabits[i]).bits@.len()
                == edabits[0].bits@.len(),
    ensures
        chunked(seq_views(edabits).skip(num_cut), num_bucket)[b][p].bits.len()
            == edabits[0].bits@.len(),
{
    assert(0 <= b * num_bucket && b * num_bucket + num_bucket <= num * num_bucket)
        by (nonlinear_arith)
        requires
            0 <= b,
            b + 1 <= num,
            num_bucket >= 1,
    ;
    let views = seq_views(edabits).skip(num_cut);
    lemma_chunked_exact(views, num_bucket, num);
    let i = num_cut + b * num_bucket + p;
    assert(chunked(views, num_bucket)[b] == views.subrange(
        b * num_bucket,
        b * num_bucket + num_bucket,
    ));
    assert(chunked(views, num_bucket)[b][p] == edabits[i]@);
    assert(edabits[i].bits@.len() == edabits[0].bits@.len());
}

} // verus!
