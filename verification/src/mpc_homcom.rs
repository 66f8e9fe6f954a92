//! Peer roles and the two directions of authentication between two peers.

use crate::field::FiniteField;
use crate::homcom::{FComProver, FComVerifier, MacProver, MacVerifier};
use vstd::prelude::*;

verus! {

/// A value that this peer authenticates to the other one.
pub type LocalAuth<FE> = MacProver<FE>;

/// The key to a value that the other peer authenticates to this one.
pub type RemoteAuth<FE> = MacVerifier<FE>;

/// Which of the two peers this one is.
#[derive(Clone, Copy, Debug, Eq, PartialEq, Structural)]
pub enum PeerRole {
    /// This peer initializes its outbound VOLE/auth direction first.
    First,
    /// This peer initializes its inbound VOLE/auth direction first.
    Second,
}

/// A direction of authentication, seen from this peer.
#[derive(Clone, Copy, Debug, Eq, PartialEq, Structural)]
pub enum Direction {
    /// This peer authenticates, opens or shares what it owns.
    Outbound,
    /// The other peer does so, and this one verifies or receives.
    Inbound,
}

impl PeerRole {
    /// Whether this is the first peer.
    pub fn is_first(self) -> (r: bool)
        ensures
            r == (self is First),
    {
        matches!(self, PeerRole::First)
    }

    /// The role of the other peer.
    pub open spec fn other(self) -> PeerRole {
        if self is First {
            PeerRole::Second
        } else {
            PeerRole::First
        }
    }

    /// The direction that this peer runs at step 0 or step 1 of an exchange in
    /// which both directions are run once.
    pub open spec fn direction_at(self, step: int) -> Direction {
        if (self is First) == (step == 0) {
            Direction::Outbound
        } else {
            Direction::Inbound
        }
    }

    /// The order in which this peer runs the two directions of an exchange.
    pub fn directions(self) -> (r: (Direction, Direction))
        ensures
            r.0 == self.direction_at(0),
            r.1 == self.direction_at(1),
            self is First ==> r.0 is Outbound && r.1 is Inbound,
            self is Second ==> r.0 is Inbound && r.1 is Outbound,
    {
        if self.is_first() {
            (Direction::Outbound, Direction::Inbound)
        } else {
            (Direction::Inbound, Direction::Outbound)
        }
    }
}

/// At each step of an exchange exactly one of the two peers runs its outbound
/// direction, and each peer runs both directions.
pub proof fn law_directions_match(role: PeerRole, step: int)
    requires
        step == 0 || step == 1,
    ensures
        (role.direction_at(step) is Outbound) == (role.other().direction_at(step) is Inbound),
        role.direction_at(0) != role.direction_at(1),
{
}

/// Bidirectional VOLE/auth state for a single field.
///
/// `local` is the direction used when this peer distributes a share it owns.
/// `remote` is the direction used when the peer on the other side distributes a
/// share it owns.
pub struct PeerFieldMacs<FE: FiniteField> {
    local: FComProver<FE>,
    remote: FComVerifier<FE>,
}

impl<FE: FiniteField> PeerFieldMacs<FE> {
    /// The global key by which this peer verifies the other one's shares.
    pub closed spec fn delta(&self) -> FE {
        self.remote.delta
    }

    /// The direction by which this peer authenticates its own shares.
    pub closed spec fn outbound(&self) -> FComProver<FE> {
        self.local
    }

    /// The state of a peer whose two directions have been initialized.
    pub fn init(local: FComProver<FE>, remote: FComVerifier<FE>) -> (r: Self)
        ensures
            r.outbound() == local,
            r.delta() == remote.delta,
    {
        PeerFieldMacs { local, remote }
    }

    /// Outbound direction used for this peer's locally owned shares.
    pub fn local(&self) -> (r: &FComProver<FE>)
        ensures
            *r == self.outbound(),
    {
        &self.local
    }

    /// Inbound direction used for shares owned by the remote peer.
    pub fn remote(&self) -> (r: &FComVerifier<FE>)
        ensures
            r.delta == self.delta(),
    {
        &self.remote
    }
}

} // verus!
