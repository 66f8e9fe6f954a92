//! The order in which a peer samples, checks and combines.
//!
//! Both peers go through the same steps: each samples its private edaBits and
//! receives those of the other one, each has its edaBits checked and checks
//! those of the other one, and both combine what passed.

use crate::mpc_homcom::{Direction, PeerRole};
use vstd::prelude::*;

verus! {

/// What a peer does next.
#[derive(Clone, Copy, Debug, PartialEq, Eq, Structural)]
pub enum FlowAction {
    /// It samples and shares private material, or receives the other peer's. There
    /// may be several rounds of that.
    Sample { round: u8, direction: Direction },
    /// It has its private edaBits checked, or checks the other peer's.
    Verify { direction: Direction },
    /// It combines the private edaBits of both peers.
    Combine,
    /// The global edaBits are there.
    Finished,
    /// Something went wrong, and the run is given up.
    Stopped,
}

/// How far a peer has got.
pub struct FlowView {
    pub role: PeerRole,
    /// How many rounds of sampling there are.
    pub rounds: u8,
    /// How many steps are done.
    pub step: int,
    pub stopped: bool,
}

impl FlowView {
    /// A run before its first step.
    pub open spec fn start(role: PeerRole, rounds: u8) -> FlowView {
        FlowView { role, rounds, step: 0, stopped: false }
    }

    /// How many steps are done when all has been sampled and checked.
    pub open spec fn checked(self) -> int {
        2 * self.rounds + 2
    }

    /// What the peer does next.
    pub open spec fn next_action(self) -> FlowAction {
        if self.stopped {
            FlowAction::Stopped
        } else if self.step < 2 * self.rounds {
            FlowAction::Sample {
                round: (self.step / 2) as u8,
                direction: self.role.direction_at(self.step % 2),
            }
        } else if self.step < self.checked() {
            FlowAction::Verify { direction: self.role.direction_at(self.step % 2) }
        } else if self.step == self.checked() {
            FlowAction::Combine
        } else {
            FlowAction::Finished
        }
    }

    /// How far it has got after that, where it `worked` or not.
    pub open spec fn after(self, worked: bool) -> FlowView {
        if self.stopped || self.step > self.checked() {
            self
        } else if worked {
            FlowView { step: self.step + 1, ..self }
        } else {
            FlowView { stopped: true, ..self }
        }
    }
}

/// How far a peer is after the outcomes of its first steps.
pub open spec fn flow_after(start: FlowView, outcomes: Seq<bool>) -> FlowView
    decreases outcomes.len(),
{
    if outcomes.len() == 0 {
        start
    } else {
        flow_after(start, outcomes.drop_last()).after(outcomes.last())
    }
}

/// A run of a peer.
#[derive(Clone, Copy, Debug)]
pub struct Flow {
    role: PeerRole,
    rounds: u8,
    step: u16,
    stopped: bool,
}

impl View for Flow {
    type V = FlowView;

    closed spec fn view(&self) -> FlowView {
        FlowView {
            role: self.role,
            rounds: self.rounds,
            step: self.step as int,
            stopped: self.stopped,
        }
    }
}

impl Flow {
    #[verifier::type_invariant]
    closed spec fn inv(&self) -> bool {
        self.step <= 2 * self.rounds + 3
    }

    /// A run before its first step.
    pub fn start(role: PeerRole, rounds: u8) -> (r: Self)
        ensures
            r@ == FlowView::start(role, rounds),
    {
        Flow { role, rounds, step: 0, stopped: false }
    }

    /// What the peer does next.
    pub fn next_action(&self) -> (r: FlowAction)
        ensures
            r == self@.next_action(),
    {
        proof {
            use_type_invariant(self);
        }
        let sampled: u16 = 2 * (self.rounds as u16);
        let (one, other) = self.role.directions();
        let direction = if self.step % 2 == 0 {
            one
        } else {
            other
        };
        if self.stopped {
            FlowAction::Stopped
        } else if self.step < sampled {
            FlowAction::Sample { round: (self.step / 2) as u8, direction }
        } else if self.step < sampled + 2 {
            FlowAction::Verify { direction }
        } else if self.step == sampled + 2 {
            FlowAction::Combine
        } else {
            FlowAction::Finished
        }
    }

    /// Records whether it worked.
    pub fn advance(&mut self, worked: bool)
        ensures
            final(self)@ == old(self)@.after(worked),
    {
        proof {
            use_type_invariant(&*self);
        }
        if self.stopped || self.step > 2 * (self.rounds as u16) + 2 {
            return ;
        }
        if worked {
            self.step = self.step + 1;
        } else {
            self.stopped = true;
        }
    }
}

proof fn lemma_flow(role: PeerRole, rounds: u8, outcomes: Seq<bool>)
    ensures
        ({
            let f = flow_after(FlowView::start(role, rounds), outcomes);
            let g = flow_after(FlowView::start(role.other(), rounds), outcomes);
            &&& f.role == role
            &&& g.role == role.other()
            &&& f.rounds == rounds
            &&& g.rounds == rounds
            &&& f.step == g.step
            &&& f.stopped == g.stopped
            &&& 0 <= f.step <= outcomes.len()
            &&& forall|i: int| 0 <= i < f.step ==> #[trigger] outcomes[i]
        }),
    decreases outcomes.len(),
{
    if outcomes.len() > 0 {
        let before = outcomes.drop_last();
        lemma_flow(role, rounds, before);
        let f = flow_after(FlowView::start(role, rounds), outcomes);
        let g = flow_after(FlowView::start(role, rounds), before);
        lemma_outcomes(role, rounds, before);
        assert forall|i: int| 0 <= i < f.step implies #[trigger] outcomes[i] by {
            if i < g.step {
                assert(before[i]);
            } else {
                assert(f.step == g.step + 1);
                assert(i == outcomes.len() - 1);
            }
        }
    }
}

/// A run that was not given up has done a step for every outcome, up to its end.
proof fn lemma_outcomes(role: PeerRole, rounds: u8, outcomes: Seq<bool>)
    ensures
        ({
            let f = flow_after(FlowView::start(role, rounds), outcomes);
            &&& f.rounds == rounds
            &&& 0 <= f.step
            &&& !f.stopped && f.step <= f.checked() ==> f.step == outcomes.len()
        }),
    decreases outcomes.len(),
{
    if outcomes.len() > 0 {
        lemma_outcomes(role, rounds, outcomes.drop_last());
    }
}

/// After the same outcomes the two peers do what fits together: one samples
/// where the other receives, one is checked where the other checks, and they
/// combine and finish together.
pub proof fn law_flows_fit(role: PeerRole, rounds: u8, outcomes: Seq<bool>)
    ensures
        ({
            let s = flow_after(FlowView::start(role, rounds), outcomes);
            let t = flow_after(FlowView::start(role.other(), rounds), outcomes);
            match (s.next_action(), t.next_action()) {
                (
                    FlowAction::Sample { round: a, direction: d },
                    FlowAction::Sample { round: b, direction: e },
                ) => a == b && d != e,
                (FlowAction::Verify { direction: d }, FlowAction::Verify { direction: e }) => d
                    != e,
                (a, b) => a == b,
            }
        }),
{
    lemma_flow(role, rounds, outcomes);
}

/// What a peer does after steps that all worked: it goes through the rounds of
/// sampling and then through the checks, each first in the direction that its role
/// begins with and then in the other, combines, and is done. After a step that
/// failed it does nothing more.
pub proof fn law_flow_order(role: PeerRole, rounds: u8, outcomes: Seq<bool>)
    ensures
        ({
            let action = flow_after(FlowView::start(role, rounds), outcomes).next_action();
            let n = outcomes.len();
            let direction = if (role is First) == (n % 2 == 0) {
                Direction::Outbound
            } else {
                Direction::Inbound
            };
            let all_worked = forall|i: int|
                0 <= i < n && i <= 2 * rounds + 2 ==> #[trigger] outcomes[i];
            &&& action is Stopped <==> !all_worked
            &&& all_worked ==> {
                &&& n < 2 * rounds ==> action == (FlowAction::Sample {
                    round: (n / 2) as u8,
                    direction,
                })
                &&& 2 * rounds <= n < 2 * rounds + 2 ==> action == (FlowAction::Verify {
                    direction,
                })
                &&& n == 2 * rounds + 2 ==> action is Combine
                &&& n > 2 * rounds + 2 ==> action is Finished
            }
        }),
    decreases outcomes.len(),
{
    let n = outcomes.len();
    if n > 0 {
        let before = outcomes.drop_last();
        law_flow_order(role, rounds, before);
        lemma_outcomes(role, rounds, before);
        lemma_outcomes(role, rounds, outcomes);
        lemma_flow(role, rounds, before);
        lemma_flow(role, rounds, outcomes);
        let ended = 2 * rounds + 2;
        if forall|i: int| 0 <= i < n && i <= ended ==> #[trigger] outcomes[i] {
            assert forall|i: int| 0 <= i < n - 1 && i <= ended implies #[trigger] before[i] by {
                assert(outcomes[i]);
            }
        } else {
            let i = choose|i: int| 0 <= i < n && i <= ended && !#[trigger] outcomes[i];
            if i < n - 1 {
                assert(!before[i]);
            } else {
                assert(i == n - 1);
            }
        }
    }
}

/// A peer combines only after everything was sampled and checked in both
/// directions, and all of that worked.
pub proof fn law_checked_before_combined(role: PeerRole, rounds: u8, outcomes: Seq<bool>)
    ensures
        ({
            let f = flow_after(FlowView::start(role, rounds), outcomes);
            f.next_action() is Combine || f.next_action() is Finished ==> {
                &&& outcomes.len() >= 2 * rounds + 2
                &&& forall|i: int| 0 <= i < 2 * rounds + 2 ==> #[trigger] outcomes[i]
            }
        }),
{
    lemma_flow(role, rounds, outcomes);
}

} // verus!
