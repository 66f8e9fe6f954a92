//! What the edaBit protocols share: sharing values, combining the private
//! edaBits of the two peers into global ones, and opening those.
//!
//! Each function is the computation between two exchanges with the other peer:
//! it takes what was drawn or received, and returns what is to be sent or kept.

use crate::bit_adder::{
    adder_start, adder_step, left_factor, right_factor, row_seq_views, seq_views, AdderView,
    BitAdder,
};
use crate::bits::{least, power_two, rows};
use crate::f40b::F40b;
use crate::field::{field_vals, minus, FiniteField, FiniteRing, PrimeFiniteField, PrimeRing};
use crate::homcom::{MacProver, MacVerifier};
use crate::mpc_conv::{copy_vec, EdabitView, GlobalEdabit, LocalDabit, PrivateEdabit, SharedEdabit};
use crate::mpc_homcom::{PeerFieldMacs, PeerRole};
use crate::multiplication::{
    left_mask, lemma_round_fits, multiplication_masks, multiply_shared_bits, right_mask,
    round_items, round_products, SharedBitTriple,
};
use crate::prime_fields::F2;
use crate::share::{
    share_multiple, share_opposite, share_shifted, share_sum, zero_share, AuthenticatedShare,
    ShareView,
};
use vstd::arithmetic::power2::pow2;
use vstd::prelude::*;

verus! {

/// How many buckets, and how many items of each, cut-and-choose takes for a
/// batch of `num_edabits`.
pub open spec fn bucket_count(num_edabits: int) -> int {
    if num_edabits < 10322 {
        5
    } else if num_edabits < 1048576 {
        4
    } else {
        3
    }
}

/// The bucket size and the number of items to open for a batch of
/// `num_edabits`.
pub fn select_cut_and_choose_parameters(num_edabits: usize) -> (r: (usize, usize))
    requires
        num_edabits >= 1024,
    ensures
        r.0 == bucket_count(num_edabits as int),
        r.1 == bucket_count(num_edabits as int),
        num_edabits < 10322 ==> r == (5usize, 5usize),
        10322 <= num_edabits < 1048576 ==> r == (4usize, 4usize),
        1048576 <= num_edabits ==> r == (3usize, 3usize),
{
    let num_buckets: usize = if num_edabits < 10322 {
        5
    } else if num_edabits < 1048576 {
        4
    } else {
        3
    };
    (num_buckets, num_buckets)
}

/// A shared bit, and the same bit shared in `FE`.
#[derive(Clone, Copy)]
pub struct SharedDabit<FE: FiniteField> {
    pub bit: AuthenticatedShare<F40b>,
    pub value: AuthenticatedShare<FE>,
}

/// The shares of the bits of daBits.
pub open spec fn dabit_bits<FE: FiniteField>(dabits: Seq<SharedDabit<FE>>) -> Seq<ShareView> {
    Seq::new(dabits.len(), |i: int| dabits[i].bit@)
}

/// The shares of the values of daBits.
pub open spec fn dabit_shares<FE: FiniteField>(dabits: Seq<SharedDabit<FE>>) -> Seq<ShareView> {
    Seq::new(dabits.len(), |i: int| dabits[i].value@)
}

/// The opened value of a share, from the other peer's share.
pub fn open_authenticated_share<FE: FiniteField>(
    share: &AuthenticatedShare<FE>,
    remote_value: FE::PrimeField,
) -> (r: FE::PrimeField)
    ensures
        r.val() == FE::PrimeField::plus(share@.value, remote_value.val()),
{
    share.local.value().add(remote_value)
}

/// This peer's values and MACs of a batch, which it opens to the other peer.
pub fn local_batch<FE: FiniteField>(shares: &[AuthenticatedShare<FE>]) -> (r: Vec<MacProver<FE>>)
    ensures
        r@.len() == shares@.len(),
        forall|i: int| 0 <= i < shares@.len() ==> #[trigger] r@[i] == shares@[i].local,
{
    let mut out: Vec<MacProver<FE>> = Vec::new();
    let mut i: usize = 0;
    while i < shares.len()
        invariant
            i <= shares.len(),
            out@.len() == i,
            forall|j: int| 0 <= j < i ==> #[trigger] out@[j] == shares@[j].local,
        decreases shares.len() - i,
    {
        out.push(shares[i].local);
        i = i + 1;
    }
    out
}

/// This peer's keys of a batch, by which it verifies the other peer's opening.
pub fn remote_batch<FE: FiniteField>(shares: &[AuthenticatedShare<FE>]) -> (r: Vec<MacVerifier<FE>>)
    ensures
        r@.len() == shares@.len(),
        forall|i: int| 0 <= i < shares@.len() ==> #[trigger] r@[i] == shares@[i].remote,
{
    let mut out: Vec<MacVerifier<FE>> = Vec::new();
    let mut i: usize = 0;
    while i < shares.len()
        invariant
            i <= shares.len(),
            out@.len() == i,
            forall|j: int| 0 <= j < i ==> #[trigger] out@[j] == shares@[j].remote,
        decreases shares.len() - i,
    {
        out.push(shares[i].remote);
        i = i + 1;
    }
    out
}

/// The values that a peer sends to open its shares.
pub open spec fn sent_values(shares: Seq<ShareView>) -> Seq<int> {
    Seq::new(shares.len(), |i: int| shares[i].value)
}

/// What a batch opens to, from a peer's shares and the values that the other peer
/// has sent.
pub open spec fn opened_batch<FE: FiniteField>(shares: Seq<ShareView>, remote: Seq<int>) -> Seq<
    int,
> {
    Seq::new(
        least(shares.len() as int, remote.len() as int) as nat,
        |i: int| FE::PrimeField::plus(shares[i].value, remote[i]),
    )
}

/// The opened values of a batch, from the other peer's shares.
pub fn open_shared_batch<FE: FiniteField>(
    shares: &[AuthenticatedShare<FE>],
    remote_values: &[FE::PrimeField],
) -> (r: Vec<FE::PrimeField>)
    ensures
        r@.len() == least(shares@.len() as int, remote_values@.len() as int),
        forall|i: int|
            0 <= i < r@.len() ==> (#[trigger] r@[i]).val() == FE::PrimeField::plus(
                shares@[i]@.value,
                remote_values@[i].val(),
            ),
        field_vals(r@) == opened_batch::<FE>(seq_views(shares@), field_vals(remote_values@)),
{
    let mut out: Vec<FE::PrimeField> = Vec::new();
    let mut i: usize = 0;
    while i < shares.len() && i < remote_values.len()
        invariant
            i <= shares.len(),
            i <= remote_values.len(),
            out@.len() == i,
            forall|j: int|
                0 <= j < i ==> (#[trigger] out@[j]).val() == FE::PrimeField::plus(
                    shares@[j]@.value,
                    remote_values@[j].val(),
                ),
        decreases shares.len() - i,
    {
        out.push(open_authenticated_share(&shares[i], remote_values[i]));
        i = i + 1;
    }
    assert(field_vals(out@) =~= opened_batch::<FE>(
        seq_views(shares@),
        field_vals(remote_values@),
    ));
    out
}

/// The other peer's shares of `values` when this peer keeps `local`.
pub open spec fn complementary<F: FiniteRing>(values: Seq<int>, local: Seq<int>) -> Seq<int> {
    Seq::new(values.len(), |i: int| minus::<F>(values[i], local[i]))
}

/// The other peer's shares of `values` when this peer keeps `local_shares`.
pub fn complementary_shares<F: FiniteRing>(values: &[F], local_shares: &[F]) -> (r: Vec<F>)
    requires
        values@.len() == local_shares@.len(),
    ensures
        r@.len() == values@.len(),
        forall|i: int|
            0 <= i < values@.len() ==> (#[trigger] r@[i]).val() == minus::<F>(
                values@[i].val(),
                local_shares@[i].val(),
            ),
        field_vals(r@) == complementary::<F>(field_vals(values@), field_vals(local_shares@)),
{
    let mut out: Vec<F> = Vec::new();
    let mut i: usize = 0;
    while i < values.len()
        invariant
            i <= values.len(),
            values@.len() == local_shares@.len(),
            out@.len() == i,
            forall|j: int|
                0 <= j < i ==> (#[trigger] out@[j]).val() == minus::<F>(
                    values@[j].val(),
                    local_shares@[j].val(),
                ),
        decreases values.len() - i,
    {
        out.push(values[i].sub(local_shares[i]));
        i = i + 1;
    }
    assert(field_vals(out@) =~= complementary::<F>(
        field_vals(values@),
        field_vals(local_shares@),
    ));
    out
}

/// A peer's shares, from its values, the MACs on them, and the keys to the other
/// peer's values.
pub open spec fn assembled(values: Seq<int>, macs: Seq<int>, keys: Seq<int>) -> Seq<ShareView> {
    Seq::new(
        least(values.len() as int, least(macs.len() as int, keys.len() as int)) as nat,
        |i: int| ShareView { value: values[i], mac: macs[i], key: keys[i] },
    )
}

/// The keys of a batch.
pub open spec fn key_vals<FE: FiniteField>(keys: Seq<MacVerifier<FE>>) -> Seq<int> {
    Seq::new(keys.len(), |i: int| keys[i].mac.val())
}

/// This peer's shares with the MACs and keys of both directions.
pub fn assemble_shares<FE: FiniteField>(
    local_shares: &[FE::PrimeField],
    local_macs: &[FE],
    remote_auth: &[MacVerifier<FE>],
) -> (r: Vec<AuthenticatedShare<FE>>)
    ensures
        r@.len() == least(
            local_shares@.len() as int,
            least(local_macs@.len() as int, remote_auth@.len() as int),
        ),
        forall|i: int|
            0 <= i < r@.len() ==> {
                &&& (#[trigger] r@[i]).local.value == local_shares@[i]
                &&& r@[i].local.mac == local_macs@[i]
                &&& r@[i].remote == remote_auth@[i]
            },
        seq_views(r@) == assembled(
            field_vals(local_shares@),
            field_vals(local_macs@),
            key_vals(remote_auth@),
        ),
{
    let mut out: Vec<AuthenticatedShare<FE>> = Vec::new();
    let mut i: usize = 0;
    while i < local_shares.len() && i < local_macs.len() && i < remote_auth.len()
        invariant
            i <= local_shares.len(),
            i <= local_macs.len(),
            i <= remote_auth.len(),
            out@.len() == i,
            forall|j: int|
                0 <= j < i ==> {
                    &&& (#[trigger] out@[j]).local.value == local_shares@[j]
                    &&& out@[j].local.mac == local_macs@[j]
                    &&& out@[j].remote == remote_auth@[j]
                },
        decreases local_shares.len() - i,
    {
        out.push(
            AuthenticatedShare::new(MacProver::new(local_shares[i], local_macs[i]), remote_auth[i]),
        );
        i = i + 1;
    }
    assert(seq_views(out@) =~= assembled(
        field_vals(local_shares@),
        field_vals(local_macs@),
        key_vals(remote_auth@),
    ));
    out
}

/// The values of the bits of triples that this peer has proved.
pub fn triple_values(
    triples: &[(MacProver<F40b>, MacProver<F40b>, MacProver<F40b>)],
) -> (r: (Vec<F2>, Vec<F2>, Vec<F2>))
    ensures
        r.0@.len() == triples@.len(),
        r.1@.len() == triples@.len(),
        r.2@.len() == triples@.len(),
        forall|i: int| 0 <= i < triples@.len() ==> #[trigger] r.0@[i] == triples@[i].0.value,
        forall|i: int| 0 <= i < triples@.len() ==> #[trigger] r.1@[i] == triples@[i].1.value,
        forall|i: int| 0 <= i < triples@.len() ==> #[trigger] r.2@[i] == triples@[i].2.value,
{
    let mut a: Vec<F2> = Vec::new();
    let mut b: Vec<F2> = Vec::new();
    let mut c: Vec<F2> = Vec::new();
    let mut i: usize = 0;
    while i < triples.len()
        invariant
            i <= triples.len(),
            a@.len() == i,
            b@.len() == i,
            c@.len() == i,
            forall|j: int| 0 <= j < i ==> #[trigger] a@[j] == triples@[j].0.value,
            forall|j: int| 0 <= j < i ==> #[trigger] b@[j] == triples@[j].1.value,
            forall|j: int| 0 <= j < i ==> #[trigger] c@[j] == triples@[j].2.value,
        decreases triples.len() - i,
    {
        a.push(triples[i].0.value());
        b.push(triples[i].1.value());
        c.push(triples[i].2.value());
        i = i + 1;
    }
    (a, b, c)
}

/// The values of daBits that this peer has proved.
pub fn dabit_values<FE: FiniteField>(dabits: &[LocalDabit<FE>]) -> (r: (
    Vec<F2>,
    Vec<FE::PrimeField>,
))
    ensures
        r.0@.len() == dabits@.len(),
        r.1@.len() == dabits@.len(),
        forall|i: int| 0 <= i < dabits@.len() ==> #[trigger] r.0@[i] == dabits@[i].0.value,
        forall|i: int| 0 <= i < dabits@.len() ==> #[trigger] r.1@[i] == dabits@[i].1.value,
{
    let mut bits: Vec<F2> = Vec::new();
    let mut values: Vec<FE::PrimeField> = Vec::new();
    let mut i: usize = 0;
    while i < dabits.len()
        invariant
            i <= dabits.len(),
            bits@.len() == i,
            values@.len() == i,
            forall|j: int| 0 <= j < i ==> #[trigger] bits@[j] == dabits@[j].0.value,
            forall|j: int| 0 <= j < i ==> #[trigger] values@[j] == dabits@[j].1.value,
        decreases dabits.len() - i,
    {
        bits.push(dabits[i].0.value());
        values.push(dabits[i].1.value());
        i = i + 1;
    }
    (bits, values)
}

/// DaBits from the shares of their bits and of their values.
pub fn assemble_dabits<FE: FiniteField>(
    bits: &[AuthenticatedShare<F40b>],
    values: &[AuthenticatedShare<FE>],
) -> (r: Vec<SharedDabit<FE>>)
    ensures
        r@.len() == least(bits@.len() as int, values@.len() as int),
        forall|i: int|
            0 <= i < r@.len() ==> #[trigger] r@[i] == (SharedDabit {
                bit: bits@[i],
                value: values@[i],
            }),
        dabit_bits(r@) == seq_views(bits@).take(r@.len() as int),
        dabit_shares(r@) == seq_views(values@).take(r@.len() as int),
{
    let mut out: Vec<SharedDabit<FE>> = Vec::new();
    let mut i: usize = 0;
    while i < bits.len() && i < values.len()
        invariant
            i <= bits.len(),
            i <= values.len(),
            out@.len() == i,
            forall|j: int|
                0 <= j < i ==> #[trigger] out@[j] == (SharedDabit {
                    bit: bits@[j],
                    value: values@[j],
                }),
        decreases bits.len() - i,
    {
        out.push(SharedDabit { bit: bits[i], value: values[i] });
        i = i + 1;
    }
    assert(dabit_bits(out@) =~= seq_views(bits@).take(out@.len() as int));
    assert(dabit_shares(out@) =~= seq_views(values@).take(out@.len() as int));
    out
}

/// How many correlations in each field combining `num` edaBits of `bit_size`
/// bits takes, next to what the two conversion proofs take.
pub fn estimate_combine_voles<FE: FiniteField>(
    num: usize,
    bit_size: u32,
    proof_local: (usize, usize),
    proof_remote: (usize, usize),
) -> (r: (usize, usize))
    requires
        proof_local.0 + proof_remote.0 + 10 * num * bit_size + 40 + 2 * num <= usize::MAX,
        proof_local.1 + proof_remote.1 + 6 * num + FE::dimension() <= usize::MAX,
    ensures
        r.0 == proof_local.0 + proof_remote.0 + 10 * num * bit_size + 40 + 2 * num,
        r.1 == proof_local.1 + proof_remote.1 + 6 * num + FE::dimension(),
{
    let bits: usize = bit_size as usize;
    assert(4 * num * bits + 6 * num * bits == 10 * num * bit_size && 0 <= 4 * num * bits && 0 <= 6
        * num * bits && num * bits * 4 == 4 * num * bits) by (nonlinear_arith)
        requires
            bits == bit_size,
            0 <= num,
            0 <= bits,
    ;
    let share_private_f2: usize = 4 * num * bits;
    let share_private_fe: usize = 4 * num;
    let triple_f2: usize = 6 * num * bits + F40b::degree();
    let dabit_f2: usize = 2 * num;
    let dabit_fe: usize = 2 * num + FE::degree();
    (
        proof_local.0 + proof_remote.0 + share_private_f2 + triple_f2 + dabit_f2,
        proof_local.1 + proof_remote.1 + share_private_fe + dabit_fe,
    )
}

/// The share of a bit in `FE`, from a daBit that was opened as `mask` after
/// adding the bit to it.
pub open spec fn unmasked_share<FE: FiniteField>(
    role: PeerRole,
    delta: int,
    value: ShareView,
    mask: int,
) -> ShareView {
    if mask == 0 {
        value
    } else {
        share_shifted::<FE>(role, delta, share_opposite::<FE>(value), 1)
    }
}

/// A value less the overflow that a carry out of `bit_size` bits stands for.
pub open spec fn corrected_share<FE: FiniteField>(
    sum: ShareView,
    carry: ShareView,
    bit_size: nat,
) -> ShareView {
    share_sum::<FE>(
        sum,
        share_multiple::<FE>(
            FE::PrimeField::opposite(pow2(bit_size) as int % FE::PrimeField::order()),
            carry,
        ),
    )
}

/// One peer's side of the protocols: its role and its keys.
pub struct MpcEdabitsCommon<FE: PrimeFiniteField> {
    pub role: PeerRole,
    pub fcom_f2: PeerFieldMacs<F40b>,
    pub fcom_fe: PeerFieldMacs<FE>,
}

impl<FE: PrimeFiniteField> MpcEdabitsCommon<FE> {
    /// The agreed share of the bit zero.
    pub fn zero_bit_share(&self) -> (r: AuthenticatedShare<F40b>)
        ensures
            r@ == zero_share(),
    {
        self.fcom_f2.zero_share()
    }

    /// The agreed share of zero.
    pub fn zero_field_share(&self) -> (r: AuthenticatedShare<FE>)
        ensures
            r@ == zero_share(),
    {
        self.fcom_fe.zero_share()
    }

    /// The share of the exclusive or of two bits.
    pub fn add_bit_shares(
        &self,
        lhs: AuthenticatedShare<F40b>,
        rhs: AuthenticatedShare<F40b>,
    ) -> (r: AuthenticatedShare<F40b>)
        ensures
            r@ == share_sum::<F40b>(lhs@, rhs@),
    {
        self.fcom_f2.add_shares(lhs, rhs)
    }

    /// The share of the exclusive or of a bit and a public one.
    pub fn add_bit_const(&self, share: AuthenticatedShare<F40b>, cst: F2) -> (r: AuthenticatedShare<
        F40b,
    >)
        ensures
            r@ == share_shifted::<F40b>(self.role, self.fcom_f2.delta().val(), share@, cst.val()),
    {
        self.fcom_f2.add_const(self.role, share, cst)
    }

    /// The share of the additive inverse.
    pub fn negate_field_share(&self, share: AuthenticatedShare<FE>) -> (r: AuthenticatedShare<FE>)
        ensures
            r@ == share_opposite::<FE>(share@),
    {
        self.fcom_fe.negate_share(share)
    }

    /// The share of the sum of a value and a public one.
    pub fn add_field_const(&self, share: AuthenticatedShare<FE>, cst: FE) -> (r: AuthenticatedShare<
        FE,
    >)
        ensures
            r@ == share_shifted::<FE>(self.role, self.fcom_fe.delta().val(), share@, cst.val()),
    {
        self.fcom_fe.add_const(self.role, share, cst)
    }

    /// The edaBits of which this peer keeps the clear values as its shares,
    /// with the MACs on them. The other peer's shares are zero, and so are the
    /// keys to them.
    pub fn share_private_clear_edabits_owner_zero(
        &self,
        clear_bits: &[Vec<F2>],
        clear_values: &[FE],
        local_bit_macs: &[F40b],
        local_value_macs: &[FE],
    ) -> (r: Vec<PrivateEdabit<FE>>)
        requires
            clear_values@.len() == clear_bits@.len(),
            local_value_macs@.len() == clear_bits@.len(),
            local_bit_macs@.len() == rows(clear_bits@).flatten().len(),
            forall|i: int|
                0 <= i < clear_bits@.len() ==> (#[trigger] clear_bits@[i])@.len()
                    >= clear_bits@[0]@.len(),
        ensures
            r@.len() == clear_bits@.len(),
            forall|i: int|
                0 <= i < r@.len() ==> {
                    &&& (#[trigger] r@[i]).clear_bits@ == clear_bits@[i]@
                    &&& r@[i].clear_value == clear_values@[i]
                    &&& r@[i].shared@ == owner_zero_local(
                        clear_bits@[i]@.take(clear_bits@[0]@.len() as int),
                        local_bit_macs@,
                        i * clear_bits@[0]@.len(),
                        clear_values@[i].val(),
                        local_value_macs@[i].val(),
                    )
                },
    {
        let num: usize = clear_bits.len();
        let bit_size: usize = if num == 0 {
            0
        } else {
            clear_bits[0].len()
        };
        let available: usize = local_bit_macs.len();
        let mut out: Vec<PrivateEdabit<FE>> = Vec::new();
        let mut i: usize = 0;
        let mut offset: usize = 0;
        while i < num
            invariant
                num == clear_bits@.len(),
                i <= num,
                clear_values@.len() == num,
                local_value_macs@.len() == num,
                local_bit_macs@.len() == rows(clear_bits@).flatten().len(),
                forall|j: int|
                    0 <= j < num ==> (#[trigger] clear_bits@[j])@.len() >= clear_bits@[0]@.len(),
                num > 0 ==> bit_size == clear_bits@[0]@.len(),
                available == local_bit_macs@.len(),
                offset == i * bit_size,
                out@.len() == i,
                forall|j: int|
                    0 <= j < i ==> {
                        &&& (#[trigger] out@[j]).clear_bits@ == clear_bits@[j]@
                        &&& out@[j].clear_value == clear_values@[j]
                        &&& out@[j].shared@ == owner_zero_local(
                            clear_bits@[j]@.take(clear_bits@[0]@.len() as int),
                            local_bit_macs@,
                            j * clear_bits@[0]@.len(),
                            clear_values@[j].val(),
                            local_value_macs@[j].val(),
                        )
                    },
            decreases num - i,
        {
            assert(clear_bits@[i as int]@.len() >= bit_size);
            proof {
                lemma_rows_fit(rows(clear_bits@), bit_size as int, i as int);
            }
            let mut bits: Vec<AuthenticatedShare<F40b>> = Vec::new();
            let mut j: usize = 0;
            while j < bit_size
                invariant
                    j <= bit_size,
                    i < num,
                    num == clear_bits@.len(),
                    clear_bits@[i as int]@.len() >= bit_size,
                    offset + bit_size <= available,
                    available == local_bit_macs@.len(),
                    bits@.len() == j,
                    forall|k: int|
                        0 <= k < j ==> (#[trigger] bits@[k])@ == (ShareView {
                            value: clear_bits@[i as int]@[k].val(),
                            mac: local_bit_macs@[offset + k].val(),
                            key: 0,
                        }),
                decreases bit_size - j,
            {
                bits.push(
                    AuthenticatedShare::new(
                        MacProver::new(clear_bits[i][j], local_bit_macs[offset + j]),
                        self.zero_bit_share().remote,
                    ),
                );
                j = j + 1;
            }
            let value = AuthenticatedShare::new(
                MacProver::new(clear_values[i], local_value_macs[i]),
                self.zero_field_share().remote,
            );
            let shared = SharedEdabit { bits, value };
            proof {
                let w = owner_zero_local(
                    clear_bits@[i as int]@.take(bit_size as int),
                    local_bit_macs@,
                    offset as int,
                    clear_values@[i as int].val(),
                    local_value_macs@[i as int].val(),
                );
                assert(seq_views(bits@) =~= w.bits);
                assert((i + 1) * bit_size == i * bit_size + bit_size) by (nonlinear_arith);
            }
            out.push(
                PrivateEdabit {
                    clear_bits: copy_vec(&clear_bits[i]),
                    clear_value: clear_values[i],
                    shared,
                },
            );
            offset = offset + bit_size;
            i = i + 1;
        }
        out
    }

    /// This peer's part of the edaBits that the other peer owns and keeps in
    /// clear: shares of zero, with the keys to the other peer's shares.
    pub fn receive_private_edabit_contributions_owner_zero(
        &self,
        bit_size: usize,
        num: usize,
        remote_bit_auth: &[MacVerifier<F40b>],
        remote_value_auth: &[MacVerifier<FE>],
    ) -> (r: Vec<SharedEdabit<FE>>)
        requires
            bit_size > 0,
            remote_bit_auth@.len() == num * bit_size,
            remote_value_auth@.len() == num,
        ensures
            r@.len() == num,
            forall|i: int|
                0 <= i < num ==> (#[trigger] r@[i])@ == owner_zero_remote(
                    remote_bit_auth@,
                    i * bit_size,
                    bit_size as nat,
                    remote_value_auth@[i].mac.val(),
                ),
    {
        let mut out: Vec<SharedEdabit<FE>> = Vec::new();
        let available: usize = remote_bit_auth.len();
        let mut i: usize = 0;
        let mut offset: usize = 0;
        while i < num
            invariant
                i <= num,
                available == num * bit_size,
                remote_bit_auth@.len() == available,
                remote_value_auth@.len() == num,
                offset == i * bit_size,
                out@.len() == i,
                forall|k: int|
                    0 <= k < i ==> (#[trigger] out@[k])@ == owner_zero_remote(
                        remote_bit_auth@,
                        k * bit_size,
                        bit_size as nat,
                        remote_value_auth@[k].mac.val(),
                    ),
            decreases num - i,
        {
            assert(offset + bit_size <= available && (i + 1) * bit_size == offset + bit_size)
                by (nonlinear_arith)
                requires
                    offset == i * bit_size,
                    available == num * bit_size,
                    i + 1 <= num,
            ;
            let mut bits: Vec<AuthenticatedShare<F40b>> = Vec::new();
            let mut j: usize = 0;
            while j < bit_size
                invariant
                    j <= bit_size,
                    offset + bit_size <= available,
                    remote_bit_auth@.len() == available,
                    bits@.len() == j,
                    forall|k: int|
                        0 <= k < j ==> (#[trigger] bits@[k])@ == (ShareView {
                            value: 0,
                            mac: 0,
                            key: remote_bit_auth@[offset + k].mac.val(),
                        }),
                decreases bit_size - j,
            {
                bits.push(
                    AuthenticatedShare::new(
                        self.zero_bit_share().local,
                        remote_bit_auth[offset + j],
                    ),
                );
                j = j + 1;
            }
            let value = AuthenticatedShare::new(
                self.zero_field_share().local,
                remote_value_auth[i],
            );
            proof {
                let w = owner_zero_remote(
                    remote_bit_auth@,
                    offset as int,
                    bit_size as nat,
                    remote_value_auth@[i as int].mac.val(),
                );
                assert(seq_views(bits@) =~= w.bits);
            }
            out.push(SharedEdabit { bits, value });
            offset = offset + bit_size;
            i = i + 1;
        }
        out
    }

    /// The shares to open in order to convert shared bits by daBits.
    pub fn conversion_masks(
        &self,
        bits: &[AuthenticatedShare<F40b>],
        dabits: &[SharedDabit<FE>],
    ) -> (r: Vec<AuthenticatedShare<F40b>>)
        ensures
            r@.len() == least(bits@.len() as int, dabits@.len() as int),
            forall|i: int|
                0 <= i < r@.len() ==> (#[trigger] r@[i])@ == share_sum::<F40b>(
                    bits@[i]@,
                    dabits@[i].bit@,
                ),
    {
        let mut out: Vec<AuthenticatedShare<F40b>> = Vec::new();
        let mut i: usize = 0;
        while i < bits.len() && i < dabits.len()
            invariant
                i <= bits.len(),
                i <= dabits.len(),
                out@.len() == i,
                forall|j: int|
                    0 <= j < i ==> (#[trigger] out@[j])@ == share_sum::<F40b>(
                        bits@[j]@,
                        dabits@[j].bit@,
                    ),
            decreases bits.len() - i,
        {
            out.push(self.add_bit_shares(bits[i], dabits[i].bit));
            i = i + 1;
        }
        out
    }

    /// The shares in `FE` of bits, from daBits and the opened masks.
    pub fn convert_shared_bits_to_field(
        &self,
        dabits: &[SharedDabit<FE>],
        opened_masks: &[F2],
    ) -> (r: Vec<AuthenticatedShare<FE>>)
        ensures
            r@.len() == least(dabits@.len() as int, opened_masks@.len() as int),
            forall|i: int|
                0 <= i < r@.len() ==> (#[trigger] r@[i])@ == unmasked_share::<FE>(
                    self.role,
                    self.fcom_fe.delta().val(),
                    dabits@[i].value@,
                    opened_masks@[i].val(),
                ),
            forall|i: int|
                0 <= i < r@.len() ==> (#[trigger] r@[i])@ == (if opened_masks@[i].val() == 0 {
                    dabits@[i].value@
                } else {
                    share_shifted::<FE>(
                        self.role,
                        self.fcom_fe.delta().val(),
                        share_opposite::<FE>(dabits@[i].value@),
                        1,
                    )
                }),
    {
        let mut out: Vec<AuthenticatedShare<FE>> = Vec::new();
        let mut i: usize = 0;
        while i < dabits.len() && i < opened_masks.len()
            invariant
                i <= dabits.len(),
                i <= opened_masks.len(),
                out@.len() == i,
                forall|j: int|
                    0 <= j < i ==> (#[trigger] out@[j])@ == unmasked_share::<FE>(
                        self.role,
                        self.fcom_fe.delta().val(),
                        dabits@[j].value@,
                        opened_masks@[j].val(),
                    ),
            decreases dabits.len() - i,
        {
            let share = if opened_masks[i].equals(F2::zero()) {
                dabits[i].value
            } else {
                let negated = self.negate_field_share(dabits[i].value);
                self.add_field_const(negated, FE::one())
            };
            out.push(share);
            i = i + 1;
        }
        out
    }

    /// The shares of the sums of the two peers' private values.
    pub fn sum_private_arithmetic_shares(
        &self,
        private_edabits: &[PrivateEdabit<FE>],
        peer_private_edabits: &[SharedEdabit<FE>],
    ) -> (r: Vec<AuthenticatedShare<FE>>)
        ensures
            r@.len() == least(private_edabits@.len() as int, peer_private_edabits@.len() as int),
            forall|i: int|
                0 <= i < r@.len() ==> (#[trigger] r@[i])@ == share_sum::<FE>(
                    private_edabits@[i].shared.value@,
                    peer_private_edabits@[i].value@,
                ),
    {
        let mut out: Vec<AuthenticatedShare<FE>> = Vec::new();
        let mut i: usize = 0;
        while i < private_edabits.len() && i < peer_private_edabits.len()
            invariant
                i <= private_edabits.len(),
                i <= peer_private_edabits.len(),
                out@.len() == i,
                forall|j: int|
                    0 <= j < i ==> (#[trigger] out@[j])@ == share_sum::<FE>(
                        private_edabits@[j].shared.value@,
                        peer_private_edabits@[j].value@,
                    ),
            decreases private_edabits.len() - i,
        {
            out.push(
                self.fcom_fe.add_shares(
                    private_edabits[i].shared.value,
                    peer_private_edabits[i].value,
                ),
            );
            i = i + 1;
        }
        out
    }

    /// The shares of the sums, less `2^bit_size` where a carry came out.
    pub fn apply_overflow_correction(
        &self,
        arithmetic_sums: &[AuthenticatedShare<FE>],
        carry_field_shares: &[AuthenticatedShare<FE>],
        bit_size: usize,
    ) -> (r: Vec<AuthenticatedShare<FE>>)
        ensures
            r@.len() == least(arithmetic_sums@.len() as int, carry_field_shares@.len() as int),
            forall|i: int|
                0 <= i < r@.len() ==> (#[trigger] r@[i])@ == corrected_share::<FE>(
                    arithmetic_sums@[i]@,
                    carry_field_shares@[i]@,
                    bit_size as nat,
                ),
            forall|i: int|
                0 <= i < r@.len() ==> (#[trigger] r@[i])@ == share_sum::<FE>(
                    arithmetic_sums@[i]@,
                    share_multiple::<FE>(
                        FE::opposite(pow2(bit_size as nat) as int % FE::order()),
                        carry_field_shares@[i]@,
                    ),
                ),
    {
        let correction_scale = power_two::<FE>(bit_size).neg();
        let mut out: Vec<AuthenticatedShare<FE>> = Vec::new();
        let mut i: usize = 0;
        while i < arithmetic_sums.len() && i < carry_field_shares.len()
            invariant
                i <= arithmetic_sums.len(),
                i <= carry_field_shares.len(),
                correction_scale.val() == FE::opposite(pow2(bit_size as nat) as int % FE::order()),
                out@.len() == i,
                forall|j: int|
                    0 <= j < i ==> (#[trigger] out@[j])@ == corrected_share::<FE>(
                        arithmetic_sums@[j]@,
                        carry_field_shares@[j]@,
                        bit_size as nat,
                    ),
            decreases arithmetic_sums.len() - i,
        {
            let correction = self.fcom_fe.scale_share(correction_scale, carry_field_shares[i]);
            out.push(self.fcom_fe.add_shares(arithmetic_sums[i], correction));
            i = i + 1;
        }
        out
    }

    /// The edaBits made of shared bits and shared values.
    pub fn assemble_global_edabits(
        &self,
        bit_shares: &[Vec<AuthenticatedShare<F40b>>],
        value_shares: &[AuthenticatedShare<FE>],
    ) -> (r: Vec<GlobalEdabit<FE>>)
        ensures
            r@.len() == least(bit_shares@.len() as int, value_shares@.len() as int),
            forall|i: int|
                0 <= i < r@.len() ==> {
                    &&& (#[trigger] r@[i]).bits@ == bit_shares@[i]@
                    &&& r@[i].value == value_shares@[i]
                },
    {
        let mut out: Vec<GlobalEdabit<FE>> = Vec::new();
        let mut i: usize = 0;
        while i < bit_shares.len() && i < value_shares.len()
            invariant
                i <= bit_shares.len(),
                i <= value_shares.len(),
                out@.len() == i,
                forall|j: int|
                    0 <= j < i ==> {
                        &&& (#[trigger] out@[j]).bits@ == bit_shares@[j]@
                        &&& out@[j].value == value_shares@[j]
                    },
            decreases bit_shares.len() - i,
        {
            out.push(SharedEdabit { bits: copy_vec(&bit_shares[i]), value: value_shares[i] });
            i = i + 1;
        }
        out
    }

    /// Starts combining this peer's private edaBits with those of the other
    /// peer. Both peers add the second peer's bits to the first peer's.
    pub fn combine_start(
        &self,
        private_edabits: &[PrivateEdabit<FE>],
        peer_private_edabits: &[SharedEdabit<FE>],
    ) -> (r: BitAdder<AuthenticatedShare<F40b>>)
        requires
            combinable(
                self.role,
                shared_views(private_edabits@),
                seq_views(peer_private_edabits@),
            ),
        ensures
            r@.well_formed(),
            r@ == combination_start(
                self.role,
                shared_views(private_edabits@),
                seq_views(peer_private_edabits@),
            ),
    {
        if private_edabits.len() == 0 {
            let none: Vec<Vec<AuthenticatedShare<F40b>>> = Vec::new();
            let nothing: Vec<Vec<AuthenticatedShare<F40b>>> = Vec::new();
            assert(row_seq_views(none@) =~= Seq::empty());
            assert(row_seq_views(nothing@) =~= Seq::empty());
            return BitAdder::start(none, nothing);
        }
        let mut own: Vec<Vec<AuthenticatedShare<F40b>>> = Vec::new();
        let mut i: usize = 0;
        while i < private_edabits.len()
            invariant
                i <= private_edabits.len(),
                own@.len() == i,
                forall|j: int|
                    0 <= j < i ==> (#[trigger] own@[j])@ == private_edabits@[j].shared.bits@,
            decreases private_edabits.len() - i,
        {
            own.push(copy_vec(&private_edabits[i].shared.bits));
            i = i + 1;
        }
        let peer = bits_of_edabits(peer_private_edabits);
        proof {
            assert(row_seq_views(own@) =~= edabit_rows(shared_views(private_edabits@)));
        }
        if self.role.is_first() {
            BitAdder::start(own, peer)
        } else {
            BitAdder::start(peer, own)
        }
    }

    /// The two batches of shares to open in the current round of an addition.
    pub fn adder_masks(
        &self,
        adder: &BitAdder<AuthenticatedShare<F40b>>,
        triples: &[SharedBitTriple],
    ) -> (r: (Vec<AuthenticatedShare<F40b>>, Vec<AuthenticatedShare<F40b>>))
        requires
            adder@.round < adder@.bit_size(),
            triples@.len() >= adder@.num() * adder@.bit_size(),
        ensures
            r.0@.len() == adder@.num(),
            r.1@.len() == adder@.num(),
            forall|row: int|
                0 <= row < adder@.num() ==> (#[trigger] r.0@[row])@ == left_mask(
                    adder@,
                    seq_views(triples@),
                    row,
                ),
            forall|row: int|
                0 <= row < adder@.num() ==> (#[trigger] r.1@[row])@ == right_mask(
                    adder@,
                    seq_views(triples@),
                    row,
                ),
            forall|row: int|
                0 <= row < adder@.num() ==> (#[trigger] r.0@[row])@ == share_sum::<F40b>(
                    left_factor::<AuthenticatedShare<F40b>>(adder@, row),
                    triples@[adder@.round * adder@.num() + row]@.a,
                ),
            forall|row: int|
                0 <= row < adder@.num() ==> (#[trigger] r.1@[row])@ == share_sum::<F40b>(
                    right_factor::<AuthenticatedShare<F40b>>(adder@, row),
                    triples@[adder@.round * adder@.num() + row]@.b,
                ),
    {
        let (left, right) = adder.factors();
        proof {
            lemma_round_fits(adder@.round, adder@.num(), adder@.bit_size(), adder@.num());
        }
        let current = round_items(triples, adder.round(), adder.num());
        proof {
            assert forall|row: int| 0 <= row < adder@.num() implies #[trigger] current@[row]
                == triples@[adder@.round * adder@.num() + row] by {}
        }
        multiplication_masks(&self.fcom_f2, left.as_slice(), right.as_slice(), current.as_slice())
    }

    /// Completes the current round of an addition with the opened values of its
    /// two batches.
    pub fn adder_absorb(
        &self,
        adder: BitAdder<AuthenticatedShare<F40b>>,
        triples: &[SharedBitTriple],
        d_values: &[F2],
        e_values: &[F2],
    ) -> (r: BitAdder<AuthenticatedShare<F40b>>)
        requires
            adder@.round < adder@.bit_size(),
            triples@.len() >= adder@.num() * adder@.bit_size(),
            d_values@.len() == adder@.num(),
            e_values@.len() == adder@.num(),
        ensures
            r@.well_formed(),
            r@ == adder_step::<AuthenticatedShare<F40b>>(
                adder@,
                round_products(
                    adder@,
                    seq_views(triples@),
                    self.role,
                    self.fcom_f2.delta().val(),
                    field_vals(d_values@),
                    field_vals(e_values@),
                ),
            ),
    {
        let round: usize = adder.round();
        proof {
            lemma_round_fits(adder@.round, adder@.num(), adder@.bit_size(), adder@.num());
        }
        let current = round_items(triples, round, adder.num());
        let products = multiply_shared_bits(
            &self.fcom_f2,
            self.role,
            current.as_slice(),
            d_values,
            e_values,
        );
        proof {
            let expected = round_products(
                adder@,
                seq_views(triples@),
                self.role,
                self.fcom_f2.delta().val(),
                field_vals(d_values@),
                field_vals(e_values@),
            );
            assert forall|row: int| 0 <= row < adder@.num() implies #[trigger] seq_views(
                products@,
            )[row] == expected[row] by {
                assert(products@[row]@ == seq_views(products@)[row]);
                assert(current@[row] == triples@[adder@.round * adder@.num() + row]);
            }
            assert(seq_views(products@) =~= expected);
        }
        adder.absorb(products.as_slice())
    }

    /// Completes the combination from the bits of the sums, the daBits, and the
    /// opened masks of the carries.
    pub fn combine_finish(
        &self,
        private_edabits: &[PrivateEdabit<FE>],
        peer_private_edabits: &[SharedEdabit<FE>],
        global_bits: &[Vec<AuthenticatedShare<F40b>>],
        dabits: &[SharedDabit<FE>],
        opened_masks: &[F2],
    ) -> (r: Vec<GlobalEdabit<FE>>)
        ensures
            r@.len() == least(
                global_bits@.len() as int,
                least(
                    least(private_edabits@.len() as int, peer_private_edabits@.len() as int),
                    least(dabits@.len() as int, opened_masks@.len() as int),
                ),
            ),
            forall|i: int|
                0 <= i < r@.len() ==> {
                    &&& (#[trigger] r@[i]).bits@ == global_bits@[i]@
                    &&& r@[i].value@ == combined_value::<FE>(
                        self.role,
                        self.fcom_fe.delta().val(),
                        private_edabits@[i].shared.value@,
                        peer_private_edabits@[i].value@,
                        dabits@[i].value@,
                        opened_masks@[i].val(),
                        private_edabits@[0].shared.bits@.len(),
                    )
                    &&& r@[i].value@ == corrected_share::<FE>(
                        share_sum::<FE>(
                            private_edabits@[i].shared.value@,
                            peer_private_edabits@[i].value@,
                        ),
                        unmasked_share::<FE>(
                            self.role,
                            self.fcom_fe.delta().val(),
                            dabits@[i].value@,
                            opened_masks@[i].val(),
                        ),
                        private_edabits@[0].shared.bits@.len(),
                    )
                },
            r@.len() == private_edabits@.len() ==> seq_views(r@) == combined::<FE>(
                self.role,
                self.fcom_fe.delta().val(),
                shared_views(private_edabits@),
                seq_views(peer_private_edabits@),
                row_seq_views(global_bits@),
                dabit_shares(dabits@),
                field_vals(opened_masks@),
            ),
    {
        if private_edabits.len() == 0 {
            let out: Vec<GlobalEdabit<FE>> = Vec::new();
            assert(seq_views(out@) =~= Seq::empty());
            return out;
        }
        let bit_size: usize = private_edabits[0].shared.bit_len();
        let carry_field_shares = self.convert_shared_bits_to_field(dabits, opened_masks);
        let arithmetic_sums = self.sum_private_arithmetic_shares(
            private_edabits,
            peer_private_edabits,
        );
        let corrected_values = self.apply_overflow_correction(
            arithmetic_sums.as_slice(),
            carry_field_shares.as_slice(),
            bit_size,
        );
        let out = self.assemble_global_edabits(global_bits, corrected_values.as_slice());
        proof {
            assert forall|i: int| 0 <= i < out@.len() implies (#[trigger] out@[i]).value@
                == combined_value::<FE>(
                self.role,
                self.fcom_fe.delta().val(),
                private_edabits@[i].shared.value@,
                peer_private_edabits@[i].value@,
                dabits@[i].value@,
                opened_masks@[i].val(),
                private_edabits@[0].shared.bits@.len(),
            ) by {
                assert(corrected_values@[i]@ == corrected_share::<FE>(
                    arithmetic_sums@[i]@,
                    carry_field_shares@[i]@,
                    bit_size as nat,
                ));
                assert(arithmetic_sums@[i]@ == share_sum::<FE>(
                    private_edabits@[i].shared.value@,
                    peer_private_edabits@[i].value@,
                ));
            }
            if out@.len() == private_edabits@.len() {
                let expected = combined::<FE>(
                    self.role,
                    self.fcom_fe.delta().val(),
                    shared_views(private_edabits@),
                    seq_views(peer_private_edabits@),
                    row_seq_views(global_bits@),
                    dabit_shares(dabits@),
                    field_vals(opened_masks@),
                );
                assert forall|i: int| 0 <= i < out@.len() implies #[trigger] seq_views(out@)[i]
                    == expected[i] by {
                    assert(out@[i]@.bits =~= expected[i].bits);
                }
                assert(seq_views(out@) =~= expected);
            }
        }
        out
    }

    /// The opened bits and values of edaBits, from the other peer's shares of
    /// them.
    pub fn open_global_edabits(
        &self,
        global_edabits: &[GlobalEdabit<FE>],
        remote_values: &[(Vec<F2>, FE)],
    ) -> (r: Vec<(Vec<F2>, FE)>)
        requires
            remote_values@.len() == global_edabits@.len(),
            forall|i: int|
                0 <= i < global_edabits@.len() ==> (#[trigger] remote_values@[i]).0@.len()
                    == global_edabits@[i].bits@.len(),
        ensures
            opened_from(r@, global_edabits@, remote_values@),
            r@.len() == global_edabits@.len(),
            forall|i: int|
                0 <= i < r@.len() ==> {
                    &&& (#[trigger] r@[i]).0@.len() == global_edabits@[i].bits@.len()
                    &&& r@[i].1.val() == FE::plus(
                        global_edabits@[i].value@.value,
                        remote_values@[i].1.val(),
                    )
                },
            forall|i: int, j: int|
                0 <= i < r@.len() && 0 <= j < r@[i].0@.len() ==> (#[trigger] r@[i].0@[j]).val()
                    == F2::plus(
                    global_edabits@[i].bits@[j]@.value,
                    remote_values@[i].0@[j].val(),
                ),
    {
        let mut out: Vec<(Vec<F2>, FE)> = Vec::new();
        let mut i: usize = 0;
        while i < global_edabits.len()
            invariant
                i <= global_edabits.len(),
                remote_values@.len() == global_edabits@.len(),
                forall|j: int|
                    0 <= j < global_edabits@.len() ==> (#[trigger] remote_values@[j]).0@.len()
                        == global_edabits@[j].bits@.len(),
                out@.len() == i,
                forall|k: int|
                    0 <= k < i ==> {
                        &&& (#[trigger] out@[k]).0@.len() == global_edabits@[k].bits@.len()
                        &&& forall|j: int|
                            0 <= j < out@[k].0@.len() ==> (#[trigger] out@[k].0@[j]).val()
                                == F2::plus(
                                global_edabits@[k]@.bits[j].value,
                                remote_values@[k].0@[j].val(),
                            )
                        &&& out@[k].1.val() == FE::plus(
                            global_edabits@[k]@.value.value,
                            remote_values@[k].1.val(),
                        )
                    },
            decreases global_edabits.len() - i,
        {
            let bits = open_shared_batch(
                global_edabits[i].bits.as_slice(),
                remote_values[i].0.as_slice(),
            );
            let value = open_authenticated_share(&global_edabits[i].value, remote_values[i].1);
            out.push((bits, value));
            i = i + 1;
        }
        out
    }
}

/// The owner's part of an edaBit that it keeps in clear.
pub open spec fn owner_zero_local(
    bits: Seq<F2>,
    macs: Seq<F40b>,
    offset: int,
    value: int,
    value_mac: int,
) -> EdabitView {
    EdabitView {
        bits: Seq::new(
            bits.len(),
            |j: int| ShareView { value: bits[j].val(), mac: macs[offset + j].val(), key: 0 },
        ),
        value: ShareView { value, mac: value_mac, key: 0 },
    }
}

/// The other peer's part of an edaBit that its owner keeps in clear.
pub open spec fn owner_zero_remote(
    keys: Seq<MacVerifier<F40b>>,
    offset: int,
    bit_size: nat,
    value_key: int,
) -> EdabitView {
    EdabitView {
        bits: Seq::new(
            bit_size,
            |j: int| ShareView { value: 0, mac: 0, key: keys[offset + j].mac.val() },
        ),
        value: ShareView { value: 0, mac: 0, key: value_key },
    }
}

/// The views of the shares of private edaBits.
pub open spec fn shared_views<FE: FiniteField>(edabits: Seq<PrivateEdabit<FE>>) -> Seq<EdabitView> {
    Seq::new(edabits.len(), |i: int| edabits[i].shared@)
}

/// The shares of private edaBits, and their bits, are there in the order of the
/// edaBits.
pub proof fn law_shared_views<FE: FiniteField>(edabits: Seq<PrivateEdabit<FE>>)
    ensures
        shared_views(edabits).len() == edabits.len(),
        edabit_rows(shared_views(edabits)).len() == edabits.len(),
        forall|i: int|
            0 <= i < edabits.len() ==> {
                &&& #[trigger] shared_views(edabits)[i] == edabits[i].shared@
                &&& edabit_rows(shared_views(edabits))[i] == edabits[i].shared@.bits
            },
{
}

/// The bits of edaBits, row by row.
pub open spec fn edabit_rows(edabits: Seq<EdabitView>) -> Seq<Seq<ShareView>> {
    Seq::new(edabits.len(), |i: int| edabits[i].bits)
}

/// The addition by which a peer combines its edaBits with those of the other
/// peer: the second peer's bits are added to the first peer's.
pub open spec fn combine_adder(
    role: PeerRole,
    own: Seq<EdabitView>,
    peer: Seq<EdabitView>,
) -> AdderView<ShareView> {
    if role is First {
        adder_start::<AuthenticatedShare<F40b>>(edabit_rows(own), edabit_rows(peer))
    } else {
        adder_start::<AuthenticatedShare<F40b>>(edabit_rows(peer), edabit_rows(own))
    }
}

/// The addition that a combination starts with: none where this peer has no
/// edaBits.
pub open spec fn combination_start(
    role: PeerRole,
    own: Seq<EdabitView>,
    peer: Seq<EdabitView>,
) -> AdderView<ShareView> {
    if own.len() == 0 {
        adder_start::<AuthenticatedShare<F40b>>(Seq::empty(), Seq::empty())
    } else {
        combine_adder(role, own, peer)
    }
}

/// Whether the peers' edaBits can be combined: there is one of the second peer
/// for each of the first, and none has too few bits.
pub open spec fn combinable(
    role: PeerRole,
    own: Seq<EdabitView>,
    peer: Seq<EdabitView>,
) -> bool {
    own.len() > 0 ==> combine_adder(role, own, peer).well_formed()
}

/// Whether `opened` is what global edaBits open to, where the other peer holds
/// the shares `remote`.
pub open spec fn opened_from<FE: PrimeFiniteField>(
    opened: Seq<(Vec<F2>, FE)>,
    edabits: Seq<GlobalEdabit<FE>>,
    remote: Seq<(Vec<F2>, FE)>,
) -> bool {
    &&& opened.len() == edabits.len()
    &&& forall|i: int|
        0 <= i < opened.len() ==> {
            &&& (#[trigger] opened[i]).0@.len() == edabits[i].bits@.len()
            &&& forall|j: int|
                0 <= j < opened[i].0@.len() ==> (#[trigger] opened[i].0@[j]).val() == F2::plus(
                    edabits[i]@.bits[j].value,
                    remote[i].0@[j].val(),
                )
            &&& opened[i].1.val() == FE::plus(edabits[i]@.value.value, remote[i].1.val())
        }
}

/// The bits of shared edaBits, row by row.
pub fn bits_of_edabits<FE: FiniteField>(edabits: &[SharedEdabit<FE>]) -> (r: Vec<
    Vec<AuthenticatedShare<F40b>>,
>)
    ensures
        row_seq_views(r@) == edabit_rows(seq_views(edabits@)),
{
    let mut out: Vec<Vec<AuthenticatedShare<F40b>>> = Vec::new();
    let mut i: usize = 0;
    while i < edabits.len()
        invariant
            i <= edabits.len(),
            out@.len() == i,
            forall|j: int| 0 <= j < i ==> (#[trigger] out@[j])@ == edabits@[j].bits@,
        decreases edabits.len() - i,
    {
        out.push(copy_vec(&edabits[i].bits));
        i = i + 1;
    }
    assert(row_seq_views(out@) =~= edabit_rows(seq_views(edabits@)));
    out
}

/// The value of a combined edaBit: the sum of the two private values, less the
/// overflow that the carry stands for.
pub open spec fn combined_value<FE: FiniteField>(
    role: PeerRole,
    delta: int,
    own: ShareView,
    peer: ShareView,
    dabit: ShareView,
    mask: int,
    bit_size: nat,
) -> ShareView {
    corrected_share::<FE>(
        share_sum::<FE>(own, peer),
        unmasked_share::<FE>(role, delta, dabit, mask),
        bit_size,
    )
}

/// What a peer ends up with when it combines edaBits: the sums of an addition that
/// has come to its end, and the values with the overflow removed.
pub open spec fn combined<FE: PrimeFiniteField>(
    role: PeerRole,
    delta: int,
    own: Seq<EdabitView>,
    peer: Seq<EdabitView>,
    sums: Seq<Seq<ShareView>>,
    dabit_values: Seq<ShareView>,
    masks: Seq<int>,
) -> Seq<EdabitView> {
    Seq::new(
        own.len(),
        |i: int|
            EdabitView {
                bits: sums[i],
                value: combined_value::<FE>(
                    role,
                    delta,
                    own[i].value,
                    peer[i].value,
                    dabit_values[i],
                    masks[i],
                    own[0].bits.len(),
                ),
            },
    )
}

/// The first `i + 1` rows of at least `size` elements have at least
/// `(i + 1) * size` elements.
pub proof fn lemma_rows_fit<T>(pieces: Seq<Seq<T>>, size: int, i: int)
    requires
        forall|j: int| 0 <= j < pieces.len() ==> (#[trigger] pieces[j]).len() >= size,
        -1 <= i < pieces.len(),
        size >= 0,
    ensures
        i * size + size <= pieces.flatten().len(),
    decreases pieces.len(),
{
    assert(i * size + size == (i + 1) * size) by (nonlinear_arith);
    if i >= 0 {
        let rest = pieces.drop_first();
        assert forall|j: int| 0 <= j < rest.len() implies (#[trigger] rest[j]).len() >= size by {
            assert(rest[j] == pieces[j + 1]);
        }
        lemma_rows_fit(rest, size, i - 1);
        assert(pieces[0].len() >= size);
        assert((i - 1) * size + size == i * size) by (nonlinear_arith);
    } else {
        assert((i + 1) * size == 0) by (nonlinear_arith)
            requires
                i == -1,
        ;
    }
}

} // verus!
