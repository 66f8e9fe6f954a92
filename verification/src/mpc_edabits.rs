//! Peer-oriented edaBits flow over explicit authenticated secret shares.
//!
//! A peer samples private edaBits, shares them with the other peer, has them
//! checked, and combines them with those of the other peer into global edaBits:
//! - the private bit contributions are added by a ripple-carry adder directly
//!   over authenticated secret-shared bits
//! - the overflow carry bits are converted to authenticated field shares by
//!   shared daBits
//! - the `2^m` overflow correction is subtracted from the summed arithmetic
//!   shares

use crate::bit_adder::{seq_views, shared_bits, BitAdder};
use crate::bits::rows;
use crate::combination_laws::{
    dabit_paired, edabit_consistent, edabit_paired, law_owner_zero, law_split_value, shared_number,
    Keys,
};
use crate::f40b::F40b;
use crate::field::{minus, nat_of_bits, FiniteField, FiniteRing, PrimeFiniteField, PrimeRing};
use crate::flow::{Flow, FlowView};
use crate::homcom::{MacProver, MacVerifier};
use crate::mpc_conv::{
    copy_slice, copy_vec, EdabitView, GlobalEdabit, LocalEdabit, PrivateEdabit, PrivateEdabitState,
    RemoteEdabit, SharedEdabit,
};
use crate::mpc_edabits_common::{
    bucket_count, combinable, combination_start, complementary_shares, lemma_rows_fit, opened_from,
    shared_views, MpcEdabitsCommon,
};
use crate::mpc_homcom::{PeerFieldMacs, PeerRole};
use crate::multiplication::{triple_paired, TripleView};
use crate::prime_fields::F2;
use crate::ring::embed;
use crate::share::{canonical, paired, secret, AuthenticatedShare, ShareView};
use vstd::prelude::*;

verus! {

/// How long the last consistency check took, in nanoseconds: what was prepared
/// for it, and the check itself.
#[derive(Clone, Copy, Debug, PartialEq, Eq, Structural)]
pub struct MpcEdabitsCheckBreakdown {
    pub aux: u128,
    pub core: u128,
}

impl Default for MpcEdabitsCheckBreakdown {
    fn default() -> (r: Self)
        ensures
            r.aux == 0,
            r.core == 0,
    {
        MpcEdabitsCheckBreakdown { aux: 0, core: 0 }
    }
}

/// How an owner shares its private edaBits.
#[derive(Clone, Copy, Debug, Eq, PartialEq, Structural)]
pub enum PrivateInputSharingPolicy {
    /// The owner keeps random shares, and the peer gets what is missing.
    RandomAdditive,
    /// The owner keeps the clear values, and the peer's shares are zero.
    OwnerZero,
}

/// The bucket size and the number of items to open for a batch of
/// `num_edabits`.
pub fn select_cut_and_choose_parameters(num_edabits: usize) -> (r: (usize, usize))
    requires
        num_edabits >= 1024,
    ensures
        r.0 == bucket_count(num_edabits as int),
        r.1 == bucket_count(num_edabits as int),
        num_edabits < 10322 ==> r == (5usize, 5usize),
        10322 <= num_edabits < 1048576 ==> r == (4usize, 4usize),
        1048576 <= num_edabits ==> r == (3usize, 3usize),
{
    crate::mpc_edabits_common::select_cut_and_choose_parameters(num_edabits)
}

/// A run: its steps, how private edaBits are shared, and how they are checked.
#[derive(Clone, Copy, Debug)]
pub struct GenerationPlan {
    pub flow: Flow,
    pub policy: PrivateInputSharingPolicy,
    pub num_bucket: usize,
    pub num_cut: usize,
}

/// Clear edaBits split into the shares of the two peers.
pub struct SplitEdabits<FE: PrimeFiniteField> {
    pub local_bits: Vec<Vec<F2>>,
    pub remote_bits: Vec<Vec<F2>>,
    pub local_values: Vec<FE>,
    pub remote_values: Vec<FE>,
}

/// Whether clear edaBits are split under a policy: at random, so that the two
/// parts add up to them, or with zeros for the other peer.
pub open spec fn edabits_split<FE: PrimeFiniteField>(
    split: SplitEdabits<FE>,
    clear_bits: Seq<Vec<F2>>,
    clear_values: Seq<FE>,
    policy: PrivateInputSharingPolicy,
) -> bool {
    &&& split.local_bits@.len() == clear_bits.len()
    &&& split.remote_bits@.len() == clear_bits.len()
    &&& split.local_values@.len() == clear_bits.len()
    &&& split.remote_values@.len() == clear_bits.len()
    &&& policy is RandomAdditive ==> forall|i: int|
        0 <= i < clear_bits.len() ==> {
            &&& (#[trigger] split.local_bits@[i])@.len() == clear_bits[i]@.len()
            &&& split.remote_bits@[i]@.len() == clear_bits[i]@.len()
            &&& forall|j: int|
                0 <= j < clear_bits[i]@.len() ==> (#[trigger] split.remote_bits@[i]@[j]).val()
                    == minus::<F2>(clear_bits[i]@[j].val(), split.local_bits@[i]@[j].val())
            &&& split.remote_values@[i].val() == minus::<FE>(
                clear_values[i].val(),
                split.local_values@[i].val(),
            )
        }
    &&& policy is OwnerZero ==> forall|i: int|
        0 <= i < clear_bits.len() ==> {
            &&& (#[trigger] split.local_bits@[i])@ == clear_bits[i]@
            &&& split.remote_bits@[i]@.len() == clear_bits[0]@.len()
            &&& forall|j: int|
                0 <= j < clear_bits[0]@.len() ==> (#[trigger] split.remote_bits@[i]@[j]).val() == 0
            &&& split.local_values@[i] == clear_values[i]
            &&& split.remote_values@[i].val() == 0
        }
}

/// The MACs on what a peer holds of edaBits, and the keys to what the other peer
/// holds.
pub struct MacsAndKeys<FE: PrimeFiniteField> {
    pub bit_macs: Seq<F40b>,
    pub value_macs: Seq<FE>,
    pub bit_keys: Seq<MacVerifier<F40b>>,
    pub value_keys: Seq<MacVerifier<FE>>,
}

/// Whether `r` are the owner's edaBits after it has split them and got the MACs
/// and keys. Where the other peer's parts are zero, so are the keys to them.
pub open spec fn edabits_shared<FE: PrimeFiniteField>(
    r: Seq<PrivateEdabit<FE>>,
    clear_bits: Seq<Vec<F2>>,
    clear_values: Seq<FE>,
    policy: PrivateInputSharingPolicy,
    split: SplitEdabits<FE>,
    a: MacsAndKeys<FE>,
) -> bool {
    &&& r.len() == clear_bits.len()
    &&& forall|i: int|
        0 <= i < r.len() ==> {
            let m = clear_bits[0]@.len() as int;
            &&& (#[trigger] r[i]).clear_bits@ == clear_bits[i]@
            &&& r[i].clear_value == clear_values[i]
            &&& r[i].shared.bits@.len() == m
            &&& forall|j: int|
                0 <= j < m ==> (#[trigger] r[i].shared.bits@[j])@ == (ShareView {
                    value: split.local_bits@[i]@[j].val(),
                    mac: a.bit_macs[i * m + j].val(),
                    key: if policy is RandomAdditive {
                        a.bit_keys[i * m + j].mac.val()
                    } else {
                        0
                    },
                })
            &&& r[i].shared.value@ == (ShareView {
                value: split.local_values@[i].val(),
                mac: a.value_macs[i].val(),
                key: if policy is RandomAdditive {
                    a.value_keys[i].mac.val()
                } else {
                    0
                },
            })
        }
}

/// Whether `r` is what the other peer holds of edaBits after it has received its
/// parts, and got the MACs and keys. Where its parts are zero, so are the MACs on
/// them.
pub open spec fn edabits_received<FE: PrimeFiniteField>(
    r: Seq<SharedEdabit<FE>>,
    bit_size: int,
    num: int,
    policy: PrivateInputSharingPolicy,
    bits: Seq<F2>,
    values: Seq<FE>,
    a: MacsAndKeys<FE>,
) -> bool {
    &&& r.len() == num
    &&& forall|i: int|
        0 <= i < num ==> {
            &&& (#[trigger] r[i]).bits@.len() == bit_size
            &&& forall|j: int|
                0 <= j < bit_size ==> (#[trigger] r[i].bits@[j])@ == (
                if policy is RandomAdditive {
                    ShareView {
                        value: bits[i * bit_size + j].val(),
                        mac: a.bit_macs[i * bit_size + j].val(),
                        key: a.bit_keys[i * bit_size + j].mac.val(),
                    }
                } else {
                    ShareView { value: 0, mac: 0, key: a.bit_keys[i * bit_size + j].mac.val() }
                })
            &&& r[i].value@ == (if policy is RandomAdditive {
                ShareView {
                    value: values[i].val(),
                    mac: a.value_macs[i].val(),
                    key: a.value_keys[i].mac.val(),
                }
            } else {
                ShareView { value: 0, mac: 0, key: a.value_keys[i].mac.val() }
            })
        }
}

/// Whether `bits` and `values` are the clear bits and values of sampled edaBits.
pub open spec fn edabits_cleared<FE: PrimeFiniteField>(
    bits: Seq<Vec<F2>>,
    values: Seq<FE>,
    proofs: Seq<LocalEdabit<FE>>,
) -> bool {
    &&& bits.len() == proofs.len()
    &&& values.len() == proofs.len()
    &&& forall|i: int|
        0 <= i < proofs.len() ==> {
            &&& (#[trigger] bits[i])@.len() == proofs[i].bits@.len()
            &&& forall|j: int|
                0 <= j < bits[i]@.len() ==> #[trigger] bits[i]@[j] == proofs[i].bits@[j].value
        }
    &&& forall|i: int| 0 <= i < proofs.len() ==> #[trigger] values[i] == proofs[i].value.value
}

/// `n` keys zero.
pub fn zero_keys<FE: FiniteField>(n: usize) -> (r: Vec<MacVerifier<FE>>)
    ensures
        r@.len() == n,
        forall|i: int| 0 <= i < n ==> (#[trigger] r@[i]).mac.val() == 0,
{
    let mut r: Vec<MacVerifier<FE>> = Vec::new();
    let mut i: usize = 0;
    while i < n
        invariant
            i <= n,
            r@.len() == i,
            forall|j: int| 0 <= j < i ==> (#[trigger] r@[j]).mac.val() == 0,
        decreases n - i,
    {
        r.push(MacVerifier::new(FE::zero()));
        i = i + 1;
    }
    r
}

/// `n` elements zero.
pub fn zero_elements<F: FiniteRing>(n: usize) -> (r: Vec<F>)
    ensures
        r@.len() == n,
        forall|i: int| 0 <= i < n ==> (#[trigger] r@[i]).val() == 0,
{
    let mut r: Vec<F> = Vec::new();
    let mut i: usize = 0;
    while i < n
        invariant
            i <= n,
            r@.len() == i,
            forall|j: int| 0 <= j < i ==> (#[trigger] r@[j]).val() == 0,
        decreases n - i,
    {
        r.push(F::zero());
        i = i + 1;
    }
    r
}

/// Shares of bits, from the values, MACs and keys that start at `offset`.
pub open spec fn share_row(
    values: Seq<F2>,
    macs: Seq<F40b>,
    keys: Seq<MacVerifier<F40b>>,
    offset: int,
) -> Seq<ShareView> {
    Seq::new(
        values.len(),
        |j: int|
            ShareView {
                value: values[j].val(),
                mac: macs[offset + j].val(),
                key: keys[offset + j].mac.val(),
            },
    )
}

/// The shares of the `bit_size` bits from `first` on, with the MACs and keys
/// from `offset` on.
fn build_row(
    values: &[F2],
    first: usize,
    macs: &[F40b],
    keys: &[MacVerifier<F40b>],
    offset: usize,
    bit_size: usize,
) -> (r: Vec<AuthenticatedShare<F40b>>)
    requires
        first + bit_size <= values@.len(),
        offset + bit_size <= macs@.len(),
        offset + bit_size <= keys@.len(),
    ensures
        seq_views(r@) == share_row(
            values@.subrange(first as int, first + bit_size),
            macs@,
            keys@,
            offset as int,
        ),
{
    let mut bits: Vec<AuthenticatedShare<F40b>> = Vec::new();
    let limit: usize = values.len();
    let mac_limit: usize = macs.len();
    let mut j: usize = 0;
    while j < bit_size
        invariant
            j <= bit_size,
            first + bit_size <= limit,
            limit == values@.len(),
            offset + bit_size <= mac_limit,
            mac_limit == macs@.len(),
            offset + bit_size <= keys@.len(),
            bits@.len() == j,
            forall|k: int|
                0 <= k < j ==> (#[trigger] bits@[k])@ == (ShareView {
                    value: values@[first + k].val(),
                    mac: macs@[offset + k].val(),
                    key: keys@[offset + k].mac.val(),
                }),
        decreases bit_size - j,
    {
        bits.push(
            AuthenticatedShare::new(
                MacProver::new(values[first + j], macs[offset + j]),
                keys[offset + j],
            ),
        );
        j = j + 1;
    }
    assert(seq_views(bits@) =~= share_row(
        values@.subrange(first as int, first + bit_size),
        macs@,
        keys@,
        offset as int,
    ));
    bits
}

/// MPC-facing peer that owns both directions of the flow.
pub struct MpcEdabitsPeer<FE: PrimeFiniteField> {
    pub common: MpcEdabitsCommon<FE>,
}

impl<FE: PrimeFiniteField> MpcEdabitsPeer<FE> {
    /// A peer whose two fields have been initialized.
    pub fn init(role: PeerRole, fcom_f2: PeerFieldMacs<F40b>, fcom_fe: PeerFieldMacs<FE>) -> (r:
        Self)
        ensures
            r.common.role == role,
            r.common.fcom_f2 == fcom_f2,
            r.common.fcom_fe == fcom_fe,
    {
        MpcEdabitsPeer { common: MpcEdabitsCommon { role, fcom_f2, fcom_fe } }
    }

    /// Splits clear edaBits into the owner's shares and the peer's.
    ///
    /// `random_bits` and `random_values` are what the owner has drawn as its
    /// shares; they are not looked at where the owner keeps the clear values.
    pub fn split_private_clear_edabits(
        clear_bits: &[Vec<F2>],
        clear_values: &[FE],
        policy: PrivateInputSharingPolicy,
        random_bits: &[Vec<F2>],
        random_values: &[FE],
    ) -> (r: SplitEdabits<FE>)
        requires
            clear_values@.len() == clear_bits@.len(),
            policy is RandomAdditive ==> random_bits@.len() == clear_bits@.len(),
            policy is RandomAdditive ==> random_values@.len() == clear_bits@.len(),
            policy is RandomAdditive ==> forall|i: int|
                0 <= i < clear_bits@.len() ==> (#[trigger] random_bits@[i])@.len()
                    == clear_bits@[i]@.len(),
        ensures
            edabits_split(r, clear_bits@, clear_values@, policy),
            policy is RandomAdditive ==> forall|i: int|
                0 <= i < clear_bits@.len() ==> {
                    &&& (#[trigger] r.local_bits@[i])@ == random_bits@[i]@
                    &&& r.local_values@[i] == random_values@[i]
                },
    {
        let num: usize = clear_bits.len();
        let bit_size: usize = if num == 0 {
            0
        } else {
            clear_bits[0].len()
        };
        let mut local_bits: Vec<Vec<F2>> = Vec::new();
        let mut remote_bits: Vec<Vec<F2>> = Vec::new();
        let mut local_values: Vec<FE> = Vec::new();
        let mut remote_values: Vec<FE> = Vec::new();
        let mut i: usize = 0;
        while i < num
            invariant
                num == clear_bits@.len(),
                i <= num,
                num > 0 ==> bit_size == clear_bits@[0]@.len(),
                clear_values@.len() == num,
                policy is RandomAdditive ==> random_bits@.len() == num,
                policy is RandomAdditive ==> random_values@.len() == num,
                policy is RandomAdditive ==> forall|k: int|
                    0 <= k < num ==> (#[trigger] random_bits@[k])@.len() == clear_bits@[k]@.len(),
                local_bits@.len() == i,
                remote_bits@.len() == i,
                local_values@.len() == i,
                remote_values@.len() == i,
                policy is RandomAdditive ==> forall|k: int|
                    0 <= k < i ==> {
                        &&& (#[trigger] local_bits@[k])@ == random_bits@[k]@
                        &&& remote_bits@[k]@.len() == clear_bits@[k]@.len()
                        &&& forall|j: int|
                            0 <= j < clear_bits@[k]@.len() ==> (
                            #[trigger] remote_bits@[k]@[j]).val() == minus::<F2>(
                                clear_bits@[k]@[j].val(),
                                random_bits@[k]@[j].val(),
                            )
                        &&& local_values@[k] == random_values@[k]
                        &&& remote_values@[k].val() == minus::<FE>(
                            clear_values@[k].val(),
                            random_values@[k].val(),
                        )
                    },
                policy is OwnerZero ==> forall|k: int|
                    0 <= k < i ==> {
                        &&& (#[trigger] local_bits@[k])@ == clear_bits@[k]@
                        &&& remote_bits@[k]@.len() == clear_bits@[0]@.len()
                        &&& forall|j: int|
                            0 <= j < clear_bits@[0]@.len() ==> (
                            #[trigger] remote_bits@[k]@[j]).val() == 0
                        &&& local_values@[k] == clear_values@[k]
                        &&& remote_values@[k].val() == 0
                    },
            decreases num - i,
        {
            match policy {
                PrivateInputSharingPolicy::RandomAdditive => {
                    assert(random_bits@[i as int]@.len() == clear_bits@[i as int]@.len());
                    local_bits.push(copy_vec(&random_bits[i]));
                    remote_bits.push(
                        complementary_shares(clear_bits[i].as_slice(), random_bits[i].as_slice()),
                    );
                    local_values.push(random_values[i]);
                    remote_values.push(clear_values[i].sub(random_values[i]));
                },
                PrivateInputSharingPolicy::OwnerZero => {
                    local_bits.push(copy_vec(&clear_bits[i]));
                    remote_bits.push(zero_elements::<F2>(bit_size));
                    local_values.push(clear_values[i]);
                    remote_values.push(FE::zero());
                },
            }
            i = i + 1;
        }
        SplitEdabits { local_bits, remote_bits, local_values, remote_values }
    }

    /// The owner's private edaBits, from its shares and the MACs on them.
    ///
    /// `received_bit_auth` and `received_value_auth` are the keys to the peer's
    /// shares; where those are zero, so are the keys, and nothing is received.
    pub fn share_private_clear_edabits_with_policy(
        clear_bits: &[Vec<F2>],
        clear_values: &[FE],
        policy: PrivateInputSharingPolicy,
        split: &SplitEdabits<FE>,
        local_bit_macs: &[F40b],
        local_value_macs: &[FE],
        received_bit_auth: &[MacVerifier<F40b>],
        received_value_auth: &[MacVerifier<FE>],
    ) -> (r: Vec<PrivateEdabit<FE>>)
        requires
            clear_values@.len() == clear_bits@.len(),
            split.local_bits@.len() == clear_bits@.len(),
            split.local_values@.len() == clear_bits@.len(),
            forall|i: int|
                0 <= i < clear_bits@.len() ==> (#[trigger] split.local_bits@[i])@.len()
                    >= clear_bits@[0]@.len(),
            local_bit_macs@.len() == rows(split.local_bits@).flatten().len(),
            local_value_macs@.len() == clear_bits@.len(),
            policy is RandomAdditive ==> received_bit_auth@.len() == local_bit_macs@.len(),
            policy is RandomAdditive ==> received_value_auth@.len() == clear_bits@.len(),
        ensures
            edabits_shared(
                r@,
                clear_bits@,
                clear_values@,
                policy,
                *split,
                MacsAndKeys {
                    bit_macs: local_bit_macs@,
                    value_macs: local_value_macs@,
                    bit_keys: received_bit_auth@,
                    value_keys: received_value_auth@,
                },
            ),
    {
        let num: usize = clear_bits.len();
        let bit_size: usize = if num == 0 {
            0
        } else {
            clear_bits[0].len()
        };
        let (bit_keys, value_keys) = match policy {
            PrivateInputSharingPolicy::RandomAdditive => (
                copy_slice(received_bit_auth),
                copy_slice(received_value_auth),
            ),
            PrivateInputSharingPolicy::OwnerZero => (
                zero_keys::<F40b>(local_bit_macs.len()),
                zero_keys::<FE>(num),
            ),
        };
        let mut out: Vec<PrivateEdabit<FE>> = Vec::new();
        let mut offset: usize = 0;
        let available: usize = local_bit_macs.len();
        let mut i: usize = 0;
        while i < num
            invariant
                num == clear_bits@.len(),
                i <= num,
                num > 0 ==> bit_size == clear_bits@[0]@.len(),
                clear_values@.len() == num,
                split.local_bits@.len() == num,
                split.local_values@.len() == num,
                forall|k: int|
                    0 <= k < num ==> (#[trigger] split.local_bits@[k])@.len()
                        >= clear_bits@[0]@.len(),
                available == local_bit_macs@.len(),
                local_bit_macs@.len() == rows(split.local_bits@).flatten().len(),
                local_value_macs@.len() == num,
                bit_keys@.len() == available,
                value_keys@.len() == num,
                policy is RandomAdditive ==> bit_keys@ == received_bit_auth@,
                policy is RandomAdditive ==> value_keys@ == received_value_auth@,
                policy is OwnerZero ==> forall|k: int|
                    0 <= k < available ==> (#[trigger] bit_keys@[k]).mac.val() == 0,
                policy is OwnerZero ==> forall|k: int|
                    0 <= k < num ==> (#[trigger] value_keys@[k]).mac.val() == 0,
                offset == i * bit_size,
                out@.len() == i,
                forall|k: int|
                    0 <= k < i ==> {
                        let m = clear_bits@[0]@.len() as int;
                        &&& (#[trigger] out@[k]).clear_bits@ == clear_bits@[k]@
                        &&& out@[k].clear_value == clear_values@[k]
                        &&& out@[k].shared.bits@.len() == m
                        &&& forall|j: int|
                            0 <= j < m ==> (#[trigger] out@[k].shared.bits@[j])@ == (ShareView {
                                value: split.local_bits@[k]@[j].val(),
                                mac: local_bit_macs@[k * m + j].val(),
                                key: if policy is RandomAdditive {
                                    received_bit_auth@[k * m + j].mac.val()
                                } else {
                                    0
                                },
                            })
                        &&& out@[k].shared.value@ == (ShareView {
                            value: split.local_values@[k].val(),
                            mac: local_value_macs@[k].val(),
                            key: if policy is RandomAdditive {
                                received_value_auth@[k].mac.val()
                            } else {
                                0
                            },
                        })
                    },
            decreases num - i,
        {
            proof {
                assert(split.local_bits@[i as int]@.len() >= bit_size);
                lemma_rows_fit(rows(split.local_bits@), bit_size as int, i as int);
                assert((i + 1) * bit_size == i * bit_size + bit_size) by (nonlinear_arith);
            }
            let bits = build_row(
                split.local_bits[i].as_slice(),
                0,
                local_bit_macs,
                bit_keys.as_slice(),
                offset,
                bit_size,
            );
            let value = AuthenticatedShare::new(
                MacProver::new(split.local_values[i], local_value_macs[i]),
                value_keys[i],
            );
            proof {
                let all = seq_views(bits@);
                assert(all.len() == bits@.len());
                assert forall|j: int| 0 <= j < bit_size implies (#[trigger] bits@[j])@ == (
                ShareView {
                    value: split.local_bits@[i as int]@[j].val(),
                    mac: local_bit_macs@[i * bit_size + j].val(),
                    key: if policy is RandomAdditive {
                        received_bit_auth@[i * bit_size + j].mac.val()
                    } else {
                        0
                    },
                }) by {
                    assert(bits@[j]@ == all[j]);
                    assert(bit_keys@[i * bit_size + j].mac.val() == bit_keys@[offset
                        + j].mac.val());
                }
            }
            out.push(
                PrivateEdabit {
                    clear_bits: copy_vec(&clear_bits[i]),
                    clear_value: clear_values[i],
                    shared: SharedEdabit { bits, value },
                },
            );
            offset = offset + bit_size;
            i = i + 1;
        }
        out
    }

    /// This peer's part of the edaBits that the other peer shares.
    ///
    /// `received_bits` and `received_values` are this peer's shares, and
    /// `local_bit_macs` and `local_value_macs` the MACs on them; where the
    /// shares are zero, so are the MACs, and nothing is received.
    pub fn receive_private_edabit_contributions_with_policy(
        bit_size: usize,
        num: usize,
        policy: PrivateInputSharingPolicy,
        remote_bit_auth: &[MacVerifier<F40b>],
        remote_value_auth: &[MacVerifier<FE>],
        received_bits: &[F2],
        received_values: &[FE],
        local_bit_macs: &[F40b],
        local_value_macs: &[FE],
    ) -> (r: Vec<SharedEdabit<FE>>)
        requires
            bit_size > 0,
            remote_bit_auth@.len() == num * bit_size,
            remote_value_auth@.len() == num,
            policy is RandomAdditive ==> received_bits@.len() == num * bit_size,
            policy is RandomAdditive ==> received_values@.len() == num,
            policy is RandomAdditive ==> local_bit_macs@.len() == num * bit_size,
            policy is RandomAdditive ==> local_value_macs@.len() == num,
        ensures
            edabits_received(
                r@,
                bit_size as int,
                num as int,
                policy,
                received_bits@,
                received_values@,
                MacsAndKeys {
                    bit_macs: local_bit_macs@,
                    value_macs: local_value_macs@,
                    bit_keys: remote_bit_auth@,
                    value_keys: remote_value_auth@,
                },
            ),
    {
        let total: usize = remote_bit_auth.len();
        let (bits, values, bit_macs, value_macs) = match policy {
            PrivateInputSharingPolicy::RandomAdditive => (
                copy_slice(received_bits),
                copy_slice(received_values),
                copy_slice(local_bit_macs),
                copy_slice(local_value_macs),
            ),
            PrivateInputSharingPolicy::OwnerZero => (
                zero_elements::<F2>(total),
                zero_elements::<FE>(num),
                zero_elements::<F40b>(total),
                zero_elements::<FE>(num),
            ),
        };
        let mut out: Vec<SharedEdabit<FE>> = Vec::new();
        let mut offset: usize = 0;
        let mut i: usize = 0;
        while i < num
            invariant
                i <= num,
                total == num * bit_size,
                offset == i * bit_size,
                remote_bit_auth@.len() == total,
                remote_value_auth@.len() == num,
                bits@.len() == total,
                values@.len() == num,
                bit_macs@.len() == total,
                value_macs@.len() == num,
                policy is RandomAdditive ==> {
                    &&& bits@ == received_bits@
                    &&& values@ == received_values@
                    &&& bit_macs@ == local_bit_macs@
                    &&& value_macs@ == local_value_macs@
                },
                policy is OwnerZero ==> {
                    &&& forall|k: int| 0 <= k < total ==> (#[trigger] bits@[k]).val() == 0
                    &&& forall|k: int| 0 <= k < num ==> (#[trigger] values@[k]).val() == 0
                    &&& forall|k: int| 0 <= k < total ==> (#[trigger] bit_macs@[k]).val() == 0
                    &&& forall|k: int| 0 <= k < num ==> (#[trigger] value_macs@[k]).val() == 0
                },
                out@.len() == i,
                forall|k: int|
                    0 <= k < i ==> {
                        &&& (#[trigger] out@[k]).bits@.len() == bit_size
                        &&& forall|j: int|
                            0 <= j < bit_size ==> (#[trigger] out@[k].bits@[j])@ == (
                            if policy is RandomAdditive {
                                ShareView {
                                    value: received_bits@[k * bit_size + j].val(),
                                    mac: local_bit_macs@[k * bit_size + j].val(),
                                    key: remote_bit_auth@[k * bit_size + j].mac.val(),
                                }
                            } else {
                                ShareView {
                                    value: 0,
                                    mac: 0,
                                    key: remote_bit_auth@[k * bit_size + j].mac.val(),
                                }
                            })
                        &&& out@[k].value@ == (if policy is RandomAdditive {
                            ShareView {
                                value: received_values@[k].val(),
                                mac: local_value_macs@[k].val(),
                                key: remote_value_auth@[k].mac.val(),
                            }
                        } else {
                            ShareView { value: 0, mac: 0, key: remote_value_auth@[k].mac.val() }
                        })
                    },
            decreases num - i,
        {
            assert((i + 1) * bit_size == i * bit_size + bit_size && (i + 1) * bit_size <= num
                * bit_size) by (nonlinear_arith)
                requires
                    i + 1 <= num,
            ;
            let row = build_row(
                bits.as_slice(),
                offset,
                bit_macs.as_slice(),
                remote_bit_auth,
                offset,
                bit_size,
            );
            let value = AuthenticatedShare::new(
                MacProver::new(values[i], value_macs[i]),
                remote_value_auth[i],
            );
            proof {
                let all = seq_views(row@);
                assert(all.len() == row@.len());
                assert forall|j: int| 0 <= j < bit_size implies (#[trigger] row@[j])@ == (
                if policy is RandomAdditive {
                    ShareView {
                        value: received_bits@[i * bit_size + j].val(),
                        mac: local_bit_macs@[i * bit_size + j].val(),
                        key: remote_bit_auth@[i * bit_size + j].mac.val(),
                    }
                } else {
                    ShareView {
                        value: 0,
                        mac: 0,
                        key: remote_bit_auth@[i * bit_size + j].mac.val(),
                    }
                }) by {
                    assert(row@[j]@ == all[j]);
                    assert(bits@[offset + j].val() == bits@[i * bit_size + j].val());
                    assert(bit_macs@[offset + j].val() == bit_macs@[i * bit_size + j].val());
                }
            }
            out.push(SharedEdabit { bits: row, value });
            offset = offset + bit_size;
            i = i + 1;
        }
        out
    }

    /// The clear bits and values of edaBits that this peer has sampled.
    pub fn clear_edabits(proof_edabits: &[LocalEdabit<FE>]) -> (r: (Vec<Vec<F2>>, Vec<FE>))
        ensures
            edabits_cleared(r.0@, r.1@, proof_edabits@),
    {
        let mut bits: Vec<Vec<F2>> = Vec::new();
        let mut values: Vec<FE> = Vec::new();
        let mut i: usize = 0;
        while i < proof_edabits.len()
            invariant
                i <= proof_edabits.len(),
                bits@.len() == i,
                values@.len() == i,
                forall|k: int|
                    0 <= k < i ==> {
                        &&& (#[trigger] bits@[k])@.len() == proof_edabits@[k].bits@.len()
                        &&& forall|j: int|
                            0 <= j < bits@[k]@.len() ==> #[trigger] bits@[k]@[j]
                                == proof_edabits@[k].bits@[j].value
                    },
                forall|k: int|
                    0 <= k < i ==> #[trigger] values@[k] == proof_edabits@[k].value.value,
            decreases proof_edabits.len() - i,
        {
            let proof_bits = &proof_edabits[i].bits;
            let mut row: Vec<F2> = Vec::new();
            let mut j: usize = 0;
            while j < proof_bits.len()
                invariant
                    j <= proof_bits.len(),
                    row@.len() == j,
                    forall|k: int| 0 <= k < j ==> #[trigger] row@[k] == proof_bits@[k].value,
                decreases proof_bits.len() - j,
            {
                row.push(proof_bits[j].value());
                j = j + 1;
            }
            bits.push(row);
            values.push(proof_edabits[i].value.value());
            i = i + 1;
        }
        (bits, values)
    }

    /// What a peer holds once both peers have sampled and shared.
    pub fn private_state(
        private_edabits: Vec<PrivateEdabit<FE>>,
        peer_private_edabits: Vec<SharedEdabit<FE>>,
        private_proof_edabits: Vec<LocalEdabit<FE>>,
        peer_private_proof_edabits: Vec<RemoteEdabit<FE>>,
    ) -> (r: PrivateEdabitState<FE>)
        ensures
            r.private_edabits == private_edabits,
            r.peer_private_edabits == peer_private_edabits,
            r.private_proof_edabits == private_proof_edabits,
            r.peer_private_proof_edabits == peer_private_proof_edabits,
    {
        PrivateEdabitState {
            private_edabits,
            peer_private_edabits,
            private_proof_edabits,
            peer_private_proof_edabits,
        }
    }

    /// The opened bits and values of global edaBits, from the other peer's shares
    /// of them.
    pub fn open_global_edabits(
        &self,
        global_edabits: &[GlobalEdabit<FE>],
        remote_values: &[(Vec<F2>, FE)],
    ) -> (r: Vec<(Vec<F2>, FE)>)
        requires
            remote_values@.len() == global_edabits@.len(),
            forall|i: int|
                0 <= i < global_edabits@.len() ==> (#[trigger] remote_values@[i]).0@.len()
                    == global_edabits@[i].bits@.len(),
        ensures
            opened_from(r@, global_edabits@, remote_values@),
    {
        self.common.open_global_edabits(global_edabits, remote_values)
    }

    /// Starts combining private edaBits with those of the other peer.
    pub fn combine_private_into_global_edabits(&self, state: &PrivateEdabitState<FE>) -> (r:
        BitAdder<AuthenticatedShare<F40b>>)
        requires
            combinable(
                self.common.role,
                shared_views(state.private_edabits@),
                seq_views(state.peer_private_edabits@),
            ),
        ensures
            r@.well_formed(),
            r@ == combination_start(
                self.common.role,
                shared_views(state.private_edabits@),
                seq_views(state.peer_private_edabits@),
            ),
    {
        self.common.combine_start(
            state.private_edabits.as_slice(),
            state.peer_private_edabits.as_slice(),
        )
    }

    /// The bucket size and the number of items to open for the check of private
    /// edaBits.
    pub fn verify_private_edabits(&self, state: &PrivateEdabitState<FE>) -> (r: (usize, usize))
        requires
            state.private_edabits@.len() >= 1024,
        ensures
            r.0 == bucket_count(state.private_edabits@.len() as int),
            r.1 == bucket_count(state.private_edabits@.len() as int),
    {
        select_cut_and_choose_parameters(state.len())
    }

    /// The full run for `num` edaBits: how they are shared and checked.
    ///
    /// 1. sample owner-known private contributions
    /// 2. distribute them as authenticated secret-shared private edaBits
    /// 3. check them for consistency
    /// 4. combine the private contributions into global edaBits
    fn generate_with_policy(&self, num: usize, policy: PrivateInputSharingPolicy) -> (r:
        GenerationPlan)
        requires
            num >= 1024,
        ensures
            r.flow@ == FlowView::start(self.common.role, 1),
            r.policy == policy,
            r.num_bucket == bucket_count(num as int),
            r.num_cut == bucket_count(num as int),
    {
        let (num_bucket, num_cut) = select_cut_and_choose_parameters(num);
        GenerationPlan { flow: Flow::start(self.common.role, 1), policy, num_bucket, num_cut }
    }

    /// The full run for `num` edaBits that are shared at random.
    pub fn generate_global_edabits(&self, num: usize) -> (r: GenerationPlan)
        requires
            num >= 1024,
        ensures
            r.flow@ == FlowView::start(self.common.role, 1),
            r.policy is RandomAdditive,
            r.num_bucket == bucket_count(num as int),
            r.num_cut == bucket_count(num as int),
    {
        self.generate_with_policy(num, PrivateInputSharingPolicy::RandomAdditive)
    }

    /// The full run for `num` edaBits that their owners keep in clear.
    pub fn generate_global_edabits_owner_zero(&self, num: usize) -> (r: GenerationPlan)
        requires
            num >= 1024,
        ensures
            r.flow@ == FlowView::start(self.common.role, 1),
            r.policy is OwnerZero,
            r.num_bucket == bucket_count(num as int),
            r.num_cut == bucket_count(num as int),
    {
        self.generate_with_policy(num, PrivateInputSharingPolicy::OwnerZero)
    }

    /// How long the last consistency check took in both directions together.
    pub fn last_check_breakdown(
        local: MpcEdabitsCheckBreakdown,
        remote: MpcEdabitsCheckBreakdown,
    ) -> (r: MpcEdabitsCheckBreakdown)
        requires
            local.aux + remote.aux <= u128::MAX,
            local.core + remote.core <= u128::MAX,
        ensures
            r.aux == local.aux + remote.aux,
            r.core == local.core + remote.core,
    {
        MpcEdabitsCheckBreakdown {
            aux: local.aux + remote.aux,
            core: local.core + remote.core,
        }
    }

    /// Aggregate VOLE estimate for the full peer-facing flow, next to what the
    /// two conversion proofs take.
    ///
    /// The additional VOLE cost covers:
    /// - distributing the secret-shared private edaBits
    /// - checked shared bit triples for the ripple-carry AND gates
    /// - checked shared daBits for overflow-bit conversion
    pub fn estimate_voles(
        num: usize,
        bit_size: u32,
        proof_local: (usize, usize),
        proof_remote: (usize, usize),
    ) -> (r: (usize, usize))
        requires
            proof_local.0 + proof_remote.0 + 10 * num * bit_size + 40 + 2 * num <= usize::MAX,
            proof_local.1 + proof_remote.1 + 6 * num + FE::dimension() <= usize::MAX,
        ensures
            r.0 == proof_local.0 + proof_remote.0 + 10 * num * bit_size + 40 + 2 * num,
            r.1 == proof_local.1 + proof_remote.1 + 6 * num + FE::dimension(),
    {
        crate::mpc_edabits_common::estimate_combine_voles::<FE>(
            num,
            bit_size,
            proof_local,
            proof_remote,
        )
    }
}

/// Whether the owner `s` has dealt the value `clear` to the peer `t` under a
/// policy, with the MACs on the shares that are not zero by agreement.
pub open spec fn dealt<FE: FiniteField>(
    policy: PrivateInputSharingPolicy,
    clear: int,
    s: ShareView,
    t: ShareView,
    ds: int,
    dt: int,
) -> bool {
    &&& 0 <= clear < FE::PrimeField::order()
    &&& canonical::<FE>(s)
    &&& canonical::<FE>(t)
    &&& s.mac == FE::plus(FE::times(dt, embed::<FE>(s.value)), t.key)
    &&& match policy {
        PrivateInputSharingPolicy::RandomAdditive => {
            &&& t.value == minus::<FE::PrimeField>(clear, s.value)
            &&& t.mac == FE::plus(FE::times(ds, embed::<FE>(t.value)), s.key)
        },
        PrivateInputSharingPolicy::OwnerZero => {
            &&& s.value == clear
            &&& s.key == 0
            &&& t.value == 0
            &&& t.mac == 0
        },
    }
}

/// Under either policy the two peers end up with valid shares of the value.
pub proof fn law_dealt<FE: FiniteField>(
    policy: PrivateInputSharingPolicy,
    clear: int,
    s: ShareView,
    t: ShareView,
    ds: int,
    dt: int,
)
    requires
        dealt::<FE>(policy, clear, s, t, ds, dt),
    ensures
        paired::<FE>(s, t, ds, dt),
        secret::<FE>(s, t) == clear,
{
    match policy {
        PrivateInputSharingPolicy::RandomAdditive => {
            law_split_value::<FE>(clear, s, t, ds, dt);
        },
        PrivateInputSharingPolicy::OwnerZero => {
            law_owner_zero::<FE>(clear, s.mac, t.key, ds, dt);
        },
    }
}

/// Under either policy the two peers end up with valid shares of the owner's
/// edaBit, so that what is combined later does not depend on the policy.
pub proof fn law_dealt_edabit<FE: PrimeFiniteField>(
    policy: PrivateInputSharingPolicy,
    clear: Seq<bool>,
    clear_value: int,
    s: EdabitView,
    t: EdabitView,
    keys: Keys,
)
    requires
        s.bits.len() == clear.len(),
        t.bits.len() == clear.len(),
        forall|j: int|
            0 <= j < clear.len() ==> dealt::<F40b>(
                policy,
                if clear[j] {
                    1
                } else {
                    0
                },
                #[trigger] s.bits[j],
                t.bits[j],
                keys.s_bit,
                keys.t_bit,
            ),
        dealt::<FE>(policy, clear_value, s.value, t.value, keys.s_value, keys.t_value),
        clear_value == nat_of_bits(clear) as int % FE::order(),
    ensures
        edabit_paired::<FE>(s, t, keys),
        edabit_consistent::<FE>(s, t),
        shared_bits::<AuthenticatedShare<F40b>>(s.bits, t.bits) == clear,
        shared_number(s, t) == nat_of_bits(clear),
{
    assert forall|j: int| 0 <= j < clear.len() implies paired::<F40b>(
        #[trigger] s.bits[j],
        t.bits[j],
        keys.s_bit,
        keys.t_bit,
    ) && (secret::<F40b>(s.bits[j], t.bits[j]) == 1) == clear[j] by {
        law_dealt::<F40b>(
            policy,
            if clear[j] {
                1
            } else {
                0
            },
            s.bits[j],
            t.bits[j],
            keys.s_bit,
            keys.t_bit,
        );
    }
    law_dealt::<FE>(policy, clear_value, s.value, t.value, keys.s_value, keys.t_value);
    assert(shared_bits::<AuthenticatedShare<F40b>>(s.bits, t.bits) =~= clear);
}

/// A triple whose owner deals three bits, the third of which is the product of
/// the others, is a valid triple.
pub proof fn law_dealt_triple(
    policy: PrivateInputSharingPolicy,
    a: int,
    b: int,
    s: TripleView,
    t: TripleView,
    ds: int,
    dt: int,
)
    requires
        dealt::<F40b>(policy, a, s.a, t.a, ds, dt),
        dealt::<F40b>(policy, b, s.b, t.b, ds, dt),
        dealt::<F40b>(policy, F2::times(a, b), s.c, t.c, ds, dt),
    ensures
        triple_paired(s, t, ds, dt),
{
    law_dealt::<F40b>(policy, a, s.a, t.a, ds, dt);
    law_dealt::<F40b>(policy, b, s.b, t.b, ds, dt);
    law_dealt::<F40b>(policy, F2::times(a, b), s.c, t.c, ds, dt);
}

/// A daBit whose owner deals one bit in both fields is a valid daBit.
pub proof fn law_dealt_dabit<FE: FiniteField>(
    policy: PrivateInputSharingPolicy,
    bit: int,
    bits: (ShareView, ShareView),
    values: (ShareView, ShareView),
    keys: Keys,
)
    requires
        dealt::<F40b>(policy, bit, bits.0, bits.1, keys.s_bit, keys.t_bit),
        dealt::<FE>(policy, bit, values.0, values.1, keys.s_value, keys.t_value),
    ensures
        dabit_paired::<FE>(bits, values, keys),
{
    law_dealt::<F40b>(policy, bit, bits.0, bits.1, keys.s_bit, keys.t_bit);
    law_dealt::<FE>(policy, bit, values.0, values.1, keys.s_value, keys.t_value);
}

} // verus!
