//! The edaBits that two peers hold, shared and private.

use crate::bit_adder::seq_views;
use crate::f40b::F40b;
use crate::field::{FiniteField, FiniteRing};
use crate::homcom::{MacProver, MacVerifier};
use crate::mpc_homcom::{LocalAuth, RemoteAuth};
use crate::prime_fields::F2;
use crate::share::{AuthenticatedShare, ShareView};
use vstd::prelude::*;

verus! {

/// An edaBit as its owner holds it: the bits of a value, and the value.
#[derive(Clone)]
pub struct EdabitsProver<FE: FiniteField> {
    pub bits: Vec<MacProver<F40b>>,
    pub value: MacProver<FE>,
}

/// The keys to an edaBit that the other peer owns.
#[derive(Clone)]
pub struct EdabitsVerifier<FE: FiniteField> {
    pub bits: Vec<MacVerifier<F40b>>,
    pub value: MacVerifier<FE>,
}

/// Locally owned daBit view.
pub type LocalDabit<FE> = (LocalAuth<F40b>, LocalAuth<FE>);

/// Authentication view of a daBit owned by the remote peer.
pub type RemoteDabit<FE> = (RemoteAuth<F40b>, RemoteAuth<FE>);

/// Locally owned edaBit view.
pub type LocalEdabit<FE> = EdabitsProver<FE>;

/// Authentication view of an edaBit owned by the remote peer.
pub type RemoteEdabit<FE> = EdabitsVerifier<FE>;

/// The per-peer output of the MPC-oriented edaBits flow.
///
/// `local` contains the final edaBits sampled and owned by the current peer.
/// `remote` contains the authenticated view of the final edaBits sampled and
/// owned by the peer on the other side of the channel.
#[derive(Clone)]
pub struct PeerEdabitBatch<FE: FiniteField> {
    pub local: Vec<LocalEdabit<FE>>,
    pub remote: Vec<RemoteEdabit<FE>>,
}

impl<FE: FiniteField> PeerEdabitBatch<FE> {
    /// A batch from the edaBits of both owners.
    pub fn new(local: Vec<LocalEdabit<FE>>, remote: Vec<RemoteEdabit<FE>>) -> (r: Self)
        ensures
            r.local == local,
            r.remote == remote,
    {
        PeerEdabitBatch { local, remote }
    }

    /// How many edaBits this peer owns.
    pub fn len_local(&self) -> (r: usize)
        ensures
            r == self.local@.len(),
    {
        self.local.len()
    }

    /// How many edaBits the other peer owns.
    pub fn len_remote(&self) -> (r: usize)
        ensures
            r == self.remote@.len(),
    {
        self.remote.len()
    }

    /// Whether neither peer owns an edaBit of the batch.
    pub fn is_empty(&self) -> (r: bool)
        ensures
            r == (self.local@.len() == 0 && self.remote@.len() == 0),
    {
        self.local.len() == 0 && self.remote.len() == 0
    }
}

/// What a peer holds of a shared edaBit.
pub struct EdabitView {
    pub bits: Seq<ShareView>,
    pub value: ShareView,
}

/// One peer's part of an edaBit: shared bits and the shared value they denote.
pub struct SharedEdabit<FE: FiniteField> {
    pub bits: Vec<AuthenticatedShare<F40b>>,
    pub value: AuthenticatedShare<FE>,
}

impl<FE: FiniteField> View for SharedEdabit<FE> {
    type V = EdabitView;

    open spec fn view(&self) -> EdabitView {
        EdabitView { bits: seq_views(self.bits@), value: self.value@ }
    }
}

/// An edaBit that neither peer knows.
pub type GlobalEdabit<FE> = SharedEdabit<FE>;

/// The same elements, in a vector of their own.
pub fn copy_slice<T: Copy>(source: &[T]) -> (r: Vec<T>)
    ensures
        r@ == source@,
{
    let mut r: Vec<T> = Vec::new();
    let mut i: usize = 0;
    while i < source.len()
        invariant
            i <= source.len(),
            r@ == source@.take(i as int),
        decreases source.len() - i,
    {
        assert(source@.take(i as int + 1) =~= source@.take(i as int).push(source@[i as int]));
        r.push(source[i]);
        i = i + 1;
    }
    assert(source@.take(i as int) =~= source@);
    r
}

/// The same elements, in a vector of their own.
pub fn copy_vec<T: Copy>(source: &Vec<T>) -> (r: Vec<T>)
    ensures
        r@ == source@,
{
    copy_slice(source.as_slice())
}

impl<FE: FiniteField> SharedEdabit<FE> {
    /// How many bits the edaBit has.
    pub fn bit_len(&self) -> (r: usize)
        ensures
            r == self.bits@.len(),
    {
        self.bits.len()
    }

    /// The same shares once more.
    pub fn duplicate(&self) -> (r: Self)
        ensures
            r.bits@ == self.bits@,
            r.value == self.value,
            r@ == self@,
    {
        SharedEdabit { bits: copy_vec(&self.bits), value: self.value }
    }
}

/// A shared edaBit with its secret, which its owner knows.
pub struct PrivateEdabit<FE: FiniteField> {
    pub clear_bits: Vec<F2>,
    pub clear_value: FE::PrimeField,
    pub shared: SharedEdabit<FE>,
}

impl<FE: FiniteField> PrivateEdabit<FE> {
    /// The same edaBit once more.
    pub fn duplicate(&self) -> (r: Self)
        ensures
            r.clear_bits@ == self.clear_bits@,
            r.clear_value == self.clear_value,
            r.shared.bits@ == self.shared.bits@,
            r.shared.value == self.shared.value,
            r.shared@ == self.shared@,
    {
        PrivateEdabit {
            clear_bits: copy_vec(&self.clear_bits),
            clear_value: self.clear_value,
            shared: self.shared.duplicate(),
        }
    }
}

/// What the owner of an edaBit holds.
pub struct PrivateEdabitView {
    pub clear_bits: Seq<F2>,
    pub clear_value: int,
    pub shared: EdabitView,
}

impl<FE: FiniteField> View for PrivateEdabit<FE> {
    type V = PrivateEdabitView;

    open spec fn view(&self) -> PrivateEdabitView {
        PrivateEdabitView {
            clear_bits: self.clear_bits@,
            clear_value: self.clear_value.val(),
            shared: self.shared@,
        }
    }
}

/// What is known of an edaBit when its view is: each clear bit, the clear value, and
/// each part of each share.
pub proof fn law_private_view<FE: FiniteField>(edabit: PrivateEdabit<FE>)
    ensures
        edabit@.clear_bits == edabit.clear_bits@,
        edabit@.clear_value == edabit.clear_value.val(),
        edabit@.shared == edabit.shared@,
        edabit.shared@.bits.len() == edabit.shared.bits@.len(),
        forall|j: int|
            0 <= j < edabit.shared.bits@.len() ==> {
                let share = edabit.shared.bits@[j];
                &&& (#[trigger] edabit.shared@.bits[j]).value == share.local.value.val()
                &&& edabit.shared@.bits[j].mac == share.local.mac.val()
                &&& edabit.shared@.bits[j].key == share.remote.mac.val()
            },
        edabit.shared@.value.value == edabit.shared.value.local.value.val(),
        edabit.shared@.value.mac == edabit.shared.value.local.mac.val(),
        edabit.shared@.value.key == edabit.shared.value.remote.mac.val(),
{
}

/// A value that can be had once more.
pub trait Replicate: Sized + View {
    /// The same value once more.
    fn replicate(&self) -> (r: Self)
        ensures
            r@ == self@,
    ;
}

impl<FE: FiniteField> Replicate for SharedEdabit<FE> {
    fn replicate(&self) -> (r: Self) {
        self.duplicate()
    }
}

impl<FE: FiniteField> Replicate for PrivateEdabit<FE> {
    fn replicate(&self) -> (r: Self) {
        self.duplicate()
    }
}

/// What a peer holds once both peers have sampled and shared their private
/// edaBits.
pub struct PrivateEdabitState<FE: FiniteField> {
    pub private_edabits: Vec<PrivateEdabit<FE>>,
    pub peer_private_edabits: Vec<SharedEdabit<FE>>,
    pub private_proof_edabits: Vec<LocalEdabit<FE>>,
    pub peer_private_proof_edabits: Vec<RemoteEdabit<FE>>,
}

impl<FE: FiniteField> PrivateEdabitState<FE> {
    /// How many private edaBits this peer owns.
    pub fn len(&self) -> (r: usize)
        ensures
            r == self.private_edabits@.len(),
    {
        self.private_edabits.len()
    }
}

} // verus!
