//! Two peers in one process: what a peer would send is handed to the other one,
//! and the correlations that the peers would set up are dealt.

use diet_mac_and_cheese::bit_adder::BitAdder;
use diet_mac_and_cheese::bits::{convert_bits_to_field, flatten_bits, split_bits};
use diet_mac_and_cheese::cut_and_choose::{
    assemble_private_triples, draw_positions, joint_block, random_edabits_needed,
    random_triples_needed, shared_triples, Cut, CutParameters, PrivateBitTriple,
};
use diet_mac_and_cheese::errors::EdabitsError;
use diet_mac_and_cheese::f40b::F40b;
use diet_mac_and_cheese::field::{FiniteField, FiniteRing};
use diet_mac_and_cheese::flow::FlowAction;
use diet_mac_and_cheese::hd_quicksilver::{HDMacProver, HDMacVerifier};
use diet_mac_and_cheese::homcom::{FComProver, FComVerifier, MacProver, MacVerifier};
use diet_mac_and_cheese::mpc_chedda_edabits::{
    assemble_provers, edabit_corrections, extract_prover_edabits, extract_verifier_edabits,
    next_output, proofs_accepted, prover_dabits_to_clear_edabits_generic, prover_seed_checks,
    prover_verify_edabits, seed_values, verifier_seed_checks, verifier_verify_edabits, DabitSource,
    ExpandedProverDabit, ExpandedVerifierDabit, MpcCheddaEdabitsPeer, SourceStep,
    UncheckedPrivateEdabitState,
};
use diet_mac_and_cheese::mpc_conv::{GlobalEdabit, PrivateEdabit, PrivateEdabitState, SharedEdabit};
use diet_mac_and_cheese::mpc_edabits::{
    select_cut_and_choose_parameters, GenerationPlan, MpcEdabitsPeer, PrivateInputSharingPolicy,
};
use diet_mac_and_cheese::mpc_edabits_common::{
    assemble_dabits, assemble_shares, complementary_shares, local_batch, open_shared_batch,
    remote_batch, MpcEdabitsCommon, SharedDabit,
};
use diet_mac_and_cheese::mpc_homcom::{Direction, PeerFieldMacs, PeerRole};
use diet_mac_and_cheese::mpc_original_edabits as original;
use diet_mac_and_cheese::mpc_original_edabits::MpcOriginalEdabitsPeer;
use diet_mac_and_cheese::mpc_original_edabits_spdz as spdz;
use diet_mac_and_cheese::mpc_original_edabits_spdz::MpcOriginalEdabitsSpdzPeer;
use diet_mac_and_cheese::mpc_spdz_common::{
    joint_field, open_shared_bit_batch, open_shared_field_batch, opened_values, share_values,
    SpdzFieldBackend,
};
use diet_mac_and_cheese::mpc_spdz_conv::{
    SpdzAuthenticatedShare, SpdzBitShare, SpdzFieldShare, SpdzGlobalEdabit, SpdzPrivateEdabit,
    SpdzSharedEdabit,
};
use diet_mac_and_cheese::multiplication::{assemble_triples, SharedBitTriple};
use diet_mac_and_cheese::prime_fields::{F2, F61p};
use diet_mac_and_cheese::share::AuthenticatedShare;
use diet_mac_and_cheese::spdz_multiplication::{
    convert_shared_bits_to_field, cross_term_bits, cross_term_choices, cross_term_macs,
    cross_term_values, cross_terms_received, cross_terms_sent, local_field_bits, local_products,
    multiply_shared_bits_direct, SpdzSharedBitTriple,
};
use rand::rngs::StdRng;
use rand::{Rng, SeedableRng};

fn rng(seed: u64) -> StdRng {
    StdRng::seed_from_u64(seed)
}

fn bit(rng: &mut StdRng) -> F2 {
    F2::new(rng.gen())
}

fn bits(rng: &mut StdRng, n: usize) -> Vec<F2> {
    (0..n).map(|_| bit(rng)).collect()
}

fn f40b(rng: &mut StdRng) -> F40b {
    F40b::new(rng.gen())
}

fn f61p(rng: &mut StdRng) -> F61p {
    F61p::new(rng.gen())
}

/// A MAC under `delta` and the key to it.
fn authenticate<FE: FiniteField>(
    value: FE::PrimeField,
    delta: FE,
    key: FE,
) -> (FE, MacVerifier<FE>) {
    (delta.mul(FE::from_prime(value)).add(key), MacVerifier::new(key))
}

fn input_bits(rng: &mut StdRng, values: &[F2], delta: F40b) -> (Vec<F40b>, Vec<MacVerifier<F40b>>) {
    values
        .iter()
        .map(|v| authenticate(*v, delta, f40b(rng)))
        .unzip()
}

fn input_values(
    rng: &mut StdRng,
    values: &[F61p],
    delta: F61p,
) -> (Vec<F61p>, Vec<MacVerifier<F61p>>) {
    values
        .iter()
        .map(|v| authenticate(*v, delta, f61p(rng)))
        .unzip()
}

type Common = MpcEdabitsCommon<F61p>;
type BitShare = AuthenticatedShare<F40b>;
type ValueShare = AuthenticatedShare<F61p>;

fn delta_f2(common: &Common) -> F40b {
    common.fcom_f2.remote().delta()
}

fn delta_fe(common: &Common) -> F61p {
    common.fcom_fe.remote().delta()
}

fn keys(rng: &mut StdRng) -> (PeerFieldMacs<F40b>, PeerFieldMacs<F61p>) {
    (
        PeerFieldMacs::init(FComProver::new(), FComVerifier::new(f40b(rng))),
        PeerFieldMacs::init(FComProver::new(), FComVerifier::new(f61p(rng))),
    )
}

fn peers(rng: &mut StdRng) -> (MpcEdabitsPeer<F61p>, MpcEdabitsPeer<F61p>) {
    let (a, b) = keys(rng);
    let (c, d) = keys(rng);
    (
        MpcEdabitsPeer::init(PeerRole::First, a, b),
        MpcEdabitsPeer::init(PeerRole::Second, c, d),
    )
}

/// The owner shares bits with the peer.
fn share_bits(
    rng: &mut StdRng,
    owner: &Common,
    peer: &Common,
    values: &[F2],
) -> (Vec<BitShare>, Vec<BitShare>) {
    let own = bits(rng, values.len());
    let other = complementary_shares(values, &own);
    let (own_macs, peer_keys) = input_bits(rng, &own, delta_f2(peer));
    let (peer_macs, own_keys) = input_bits(rng, &other, delta_f2(owner));
    (
        assemble_shares(&own, &own_macs, &own_keys),
        assemble_shares(&other, &peer_macs, &peer_keys),
    )
}

/// The owner shares field values with the peer.
fn share_field_values(
    rng: &mut StdRng,
    owner: &Common,
    peer: &Common,
    values: &[F61p],
) -> (Vec<ValueShare>, Vec<ValueShare>) {
    let own: Vec<F61p> = values.iter().map(|_| f61p(rng)).collect();
    let other = complementary_shares(values, &own);
    let (own_macs, peer_keys) = input_values(rng, &own, delta_fe(peer));
    let (peer_macs, own_keys) = input_values(rng, &other, delta_fe(owner));
    (
        assemble_shares(&own, &own_macs, &own_keys),
        assemble_shares(&other, &peer_macs, &peer_keys),
    )
}

/// Opens a batch to both peers, each of which verifies the other one's MACs.
fn open<FE: FiniteField>(
    s: &[AuthenticatedShare<FE>],
    t: &[AuthenticatedShare<FE>],
    delta_s: FE,
    delta_t: FE,
) -> Vec<FE::PrimeField> {
    let (sent_s, sent_t) = (local_batch(s), local_batch(t));
    let (keys_s, keys_t) = (remote_batch(s), remote_batch(t));
    for (opened, key) in sent_s.iter().zip(keys_t.iter()) {
        let expected = delta_t.mul(FE::from_prime(opened.value())).add(key.mac());
        assert!(opened.mac().equals(expected));
    }
    for (opened, key) in sent_t.iter().zip(keys_s.iter()) {
        let expected = delta_s.mul(FE::from_prime(opened.value())).add(key.mac());
        assert!(opened.mac().equals(expected));
    }
    let values_t: Vec<FE::PrimeField> = sent_t.iter().map(|m| m.value()).collect();
    let values_s: Vec<FE::PrimeField> = sent_s.iter().map(|m| m.value()).collect();
    let opened = open_shared_batch(s, &values_t);
    let opened_by_t = open_shared_batch(t, &values_s);
    for (a, b) in opened.iter().zip(opened_by_t.iter()) {
        assert!(a.equals(*b));
    }
    opened
}

fn open_bits(first: &Common, second: &Common, s: &[BitShare], t: &[BitShare]) -> Vec<F2> {
    open(s, t, delta_f2(first), delta_f2(second))
}

fn open_values(first: &Common, second: &Common, s: &[ValueShare], t: &[ValueShare]) -> Vec<F61p> {
    open(s, t, delta_fe(first), delta_fe(second))
}

fn deal_triples(
    rng: &mut StdRng,
    first: &Common,
    second: &Common,
    num: usize,
) -> (Vec<SharedBitTriple>, Vec<SharedBitTriple>) {
    let (a, b) = (bits(rng, num), bits(rng, num));
    let c = original::product_bits(&a, &b);
    let (a_s, a_t) = share_bits(rng, first, second, &a);
    let (b_s, b_t) = share_bits(rng, first, second, &b);
    let (c_s, c_t) = share_bits(rng, first, second, &c);
    (
        assemble_triples(&a_s, &b_s, &c_s),
        assemble_triples(&a_t, &b_t, &c_t),
    )
}

fn deal_dabits(
    rng: &mut StdRng,
    first: &Common,
    second: &Common,
    num: usize,
) -> (Vec<SharedDabit<F61p>>, Vec<SharedDabit<F61p>>) {
    let clear = bits(rng, num);
    let values: Vec<F61p> = clear.iter().map(|b| convert_bits_to_field::<F61p>(&[*b])).collect();
    let (b_s, b_t) = share_bits(rng, first, second, &clear);
    let (v_s, v_t) = share_field_values(rng, first, second, &values);
    (assemble_dabits(&b_s, &v_s), assemble_dabits(&b_t, &v_t))
}

/// Runs two additions to their end.
fn run_adders(
    first: &Common,
    second: &Common,
    mut s: BitAdder<BitShare>,
    mut t: BitAdder<BitShare>,
    triples_s: &[SharedBitTriple],
    triples_t: &[SharedBitTriple],
) -> ((Vec<Vec<BitShare>>, Vec<BitShare>), (Vec<Vec<BitShare>>, Vec<BitShare>)) {
    while !s.is_done() {
        let (ds, es) = first.adder_masks(&s, triples_s);
        let (dt, et) = second.adder_masks(&t, triples_t);
        let d = open_bits(first, second, &ds, &dt);
        let e = open_bits(first, second, &es, &et);
        s = first.adder_absorb(s, triples_s, &d, &e);
        t = second.adder_absorb(t, triples_t, &d, &e);
    }
    assert!(t.is_done());
    (s.finish(), t.finish())
}

type State = PrivateEdabitState<F61p>;

fn combine(
    rng: &mut StdRng,
    first: &Common,
    second: &Common,
    s: &State,
    t: &State,
) -> (Vec<GlobalEdabit<F61p>>, Vec<GlobalEdabit<F61p>>) {
    let num = s.len();
    let bit_size = s.private_edabits[0].shared.bit_len();
    let (triples_s, triples_t) = deal_triples(rng, first, second, num * bit_size);
    let (dabits_s, dabits_t) = deal_dabits(rng, first, second, num);
    let ((sums_s, carry_s), (sums_t, carry_t)) = run_adders(
        first,
        second,
        first.combine_start(&s.private_edabits, &s.peer_private_edabits),
        second.combine_start(&t.private_edabits, &t.peer_private_edabits),
        &triples_s,
        &triples_t,
    );
    let masks = open_bits(
        first,
        second,
        &first.conversion_masks(&carry_s, &dabits_s),
        &second.conversion_masks(&carry_t, &dabits_t),
    );
    (
        first.combine_finish(
            &s.private_edabits,
            &s.peer_private_edabits,
            &sums_s,
            &dabits_s,
            &masks,
        ),
        second.combine_finish(
            &t.private_edabits,
            &t.peer_private_edabits,
            &sums_t,
            &dabits_t,
            &masks,
        ),
    )
}

fn remote_view(edabits: &[GlobalEdabit<F61p>]) -> Vec<(Vec<F2>, F61p)> {
    edabits
        .iter()
        .map(|e| {
            (
                e.bits.iter().map(|b| b.local.value()).collect(),
                e.value.local.value(),
            )
        })
        .collect()
}

fn open_global(
    first: &Common,
    second: &Common,
    s: &[GlobalEdabit<F61p>],
    t: &[GlobalEdabit<F61p>],
) -> Vec<(Vec<F2>, F61p)> {
    for (a, b) in s.iter().zip(t.iter()) {
        open_bits(first, second, &a.bits, &b.bits);
        open_values(first, second, &[a.value], &[b.value]);
    }
    let opened = first.open_global_edabits(s, &remote_view(t));
    assert_eq!(opened, second.open_global_edabits(t, &remote_view(s)));
    opened
}

/// The owner shares clear edaBits under a policy.
fn share_clear(
    rng: &mut StdRng,
    owner: &Common,
    peer: &Common,
    clear_bits: &[Vec<F2>],
    clear_values: &[F61p],
    policy: PrivateInputSharingPolicy,
) -> (Vec<PrivateEdabit<F61p>>, Vec<SharedEdabit<F61p>>) {
    let num = clear_bits.len();
    let bit_size = clear_bits[0].len();
    let random_bits: Vec<Vec<F2>> = clear_bits.iter().map(|row| bits(rng, row.len())).collect();
    let random_values: Vec<F61p> = clear_values.iter().map(|_| f61p(rng)).collect();
    let split = MpcEdabitsPeer::split_private_clear_edabits(
        clear_bits,
        clear_values,
        policy,
        &random_bits,
        &random_values,
    );
    let flat = flatten_bits(&split.local_bits);
    let (bit_macs, bit_keys) = input_bits(rng, &flat, delta_f2(peer));
    let (value_macs, value_keys) = input_values(rng, &split.local_values, delta_fe(peer));
    let random = policy == PrivateInputSharingPolicy::RandomAdditive;
    let sent_bits = if random { flatten_bits(&split.remote_bits) } else { Vec::new() };
    let sent_values = if random { split.remote_values.clone() } else { Vec::new() };
    let (peer_bit_macs, own_bit_keys) = input_bits(rng, &sent_bits, delta_f2(owner));
    let (peer_value_macs, own_value_keys) = input_values(rng, &sent_values, delta_fe(owner));
    (
        MpcEdabitsPeer::share_private_clear_edabits_with_policy(
            clear_bits,
            clear_values,
            policy,
            &split,
            &bit_macs,
            &value_macs,
            &own_bit_keys,
            &own_value_keys,
        ),
        MpcEdabitsPeer::receive_private_edabit_contributions_with_policy(
            bit_size,
            num,
            policy,
            &bit_keys,
            &value_keys,
            &sent_bits,
            &sent_values,
            &peer_bit_macs,
            &peer_value_macs,
        ),
    )
}

fn states(
    rng: &mut StdRng,
    first: &Common,
    second: &Common,
    clear_s: &(Vec<Vec<F2>>, Vec<F61p>),
    clear_t: &(Vec<Vec<F2>>, Vec<F61p>),
    policy: PrivateInputSharingPolicy,
) -> (State, State) {
    let (own_s, peer_t) = share_clear(rng, first, second, &clear_s.0, &clear_s.1, policy);
    let (own_t, peer_s) = share_clear(rng, second, first, &clear_t.0, &clear_t.1, policy);
    (
        MpcEdabitsPeer::private_state(own_s, peer_s, Vec::new(), Vec::new()),
        MpcEdabitsPeer::private_state(own_t, peer_t, Vec::new(), Vec::new()),
    )
}

fn sampled(rng: &mut StdRng, bit_size: usize, num: usize) -> (Vec<Vec<F2>>, Vec<F61p>) {
    let clear_bits: Vec<Vec<F2>> = (0..num).map(|_| bits(rng, bit_size)).collect();
    let clear_values = original::clear_values::<F61p>(&clear_bits);
    (clear_bits, clear_values)
}

/// Whether private edaBits hold what they denote.
fn consistent(edabits: &[PrivateEdabit<F61p>]) -> bool {
    edabits.iter().all(|e| convert_bits_to_field::<F61p>(&e.clear_bits) == e.clear_value)
}

/// Takes both peers through the steps of their plans.
fn run_plans(
    rng: &mut StdRng,
    first: &Common,
    second: &Common,
    plans: (GenerationPlan, GenerationPlan),
    bit_size: usize,
    num: usize,
) -> Vec<(Vec<F2>, F61p)> {
    let (plan_s, plan_t) = plans;
    assert_eq!(plan_s.policy, plan_t.policy);
    let (mut flow_s, mut flow_t) = (plan_s.flow, plan_t.flow);
    let (mut sampled_s, mut sampled_t) = (None, None);
    let mut state = None;
    let mut opened = None;
    let out = Direction::Outbound;
    let inward = Direction::Inbound;
    let sample = |direction| FlowAction::Sample { round: 0, direction };
    let verify = |direction| FlowAction::Verify { direction };
    let mut steps = Vec::new();
    loop {
        let actions = (flow_s.next_action(), flow_t.next_action());
        steps.push(actions.0);
        let worked = if actions == (sample(out), sample(inward)) {
            let (clear_bits, clear_values) = sampled(rng, bit_size, num);
            sampled_s =
                Some(share_clear(rng, first, second, &clear_bits, &clear_values, plan_s.policy));
            true
        } else if actions == (sample(inward), sample(out)) {
            let (clear_bits, clear_values) = sampled(rng, bit_size, num);
            sampled_t =
                Some(share_clear(rng, second, first, &clear_bits, &clear_values, plan_t.policy));
            true
        } else if actions == (verify(out), verify(inward)) {
            consistent(&sampled_s.as_ref().unwrap().0)
        } else if actions == (verify(inward), verify(out)) {
            consistent(&sampled_t.as_ref().unwrap().0)
        } else if actions == (FlowAction::Combine, FlowAction::Combine) {
            let (own_s, peer_t) = sampled_s.take().unwrap();
            let (own_t, peer_s) = sampled_t.take().unwrap();
            let s = MpcEdabitsPeer::private_state(own_s, peer_s, Vec::new(), Vec::new());
            let t = MpcEdabitsPeer::private_state(own_t, peer_t, Vec::new(), Vec::new());
            state = Some(combine(rng, first, second, &s, &t));
            true
        } else {
            assert_eq!(actions, (FlowAction::Finished, FlowAction::Finished));
            let (global_s, global_t) = state.take().unwrap();
            opened = Some(open_global(first, second, &global_s, &global_t));
            false
        };
        if let Some(opened) = opened {
            let order = [sample(out), sample(inward), verify(out), verify(inward)];
            assert_eq!(steps[..4], order);
            assert_eq!(steps[4..], [FlowAction::Combine, FlowAction::Finished]);
            return opened;
        }
        assert!(worked);
        flow_s.advance(worked);
        flow_t.advance(worked);
    }
}

fn fixed_clear_edabits(
    role_offset: usize,
    bit_size: usize,
    num: usize,
) -> (Vec<Vec<F2>>, Vec<F61p>) {
    let mut clear_bits = Vec::with_capacity(num);
    let mut clear_values = Vec::with_capacity(num);
    for i in 0..num {
        let bits: Vec<_> = (0..bit_size)
            .map(|j| F2::new(((i * 13 + j * 7 + role_offset) % 2) != 0))
            .collect();
        clear_values.push(convert_bits_to_field::<F61p>(&bits));
        clear_bits.push(bits);
    }
    (clear_bits, clear_values)
}

fn run_opened_combined_edabits_for_fixed_inputs(
    policy: PrivateInputSharingPolicy,
    bit_size: usize,
    num: usize,
) -> Vec<(Vec<F2>, F61p)> {
    let mut rng = rng(2);
    let (first, second) = peers(&mut rng);
    let (first, second) = (&first.common, &second.common);
    let clear_s = fixed_clear_edabits(0, bit_size, num);
    let clear_t = fixed_clear_edabits(1, bit_size, num);
    let (s, t) = states(&mut rng, first, second, &clear_s, &clear_t, policy);
    let (global_s, global_t) = combine(&mut rng, first, second, &s, &t);
    open_global(first, second, &global_s, &global_t)
}

fn assert_owner_zero_state(state: &State) {
    for private in &state.private_edabits {
        for (clear_bit, shared_bit) in private.clear_bits.iter().zip(private.shared.bits.iter()) {
            assert_eq!(shared_bit.local.value(), *clear_bit);
            assert_eq!(shared_bit.remote.mac(), F40b::zero());
        }
        assert_eq!(private.shared.value.local.value(), private.clear_value);
        assert_eq!(private.shared.value.remote.mac(), F61p::zero());
    }
    for peer_private in &state.peer_private_edabits {
        for shared_bit in &peer_private.bits {
            assert_eq!(shared_bit.local.value(), F2::zero());
            assert_eq!(shared_bit.local.mac(), F40b::zero());
        }
        assert_eq!(peer_private.value.local.value(), F61p::zero());
        assert_eq!(peer_private.value.local.mac(), F61p::zero());
    }
}

#[test]
fn test_mpc_global_edabits_roundtrip() {
    assert_eq!(select_cut_and_choose_parameters(1024), (5, 5));
    let mut rng = rng(1);
    let (first, second) = peers(&mut rng);
    let plans = (first.generate_global_edabits(1024), second.generate_global_edabits(1024));
    assert_eq!(plans.0.policy, PrivateInputSharingPolicy::RandomAdditive);
    assert_eq!((plans.0.num_bucket, plans.0.num_cut), (5, 5));
    let opened = run_plans(&mut rng, &first.common, &second.common, plans, 8, 1024);
    assert_eq!(opened.len(), 1024);
    for (bits, value) in opened {
        assert_eq!(bits.len(), 8);
        assert_eq!(convert_bits_to_field::<F61p>(&bits), value);
    }
}

#[test]
fn test_mpc_global_edabits_owner_zero_roundtrip() {
    let mut rng = rng(1);
    let (first, second) = peers(&mut rng);
    let plans = (
        first.generate_global_edabits_owner_zero(1024),
        second.generate_global_edabits_owner_zero(1024),
    );
    assert_eq!(plans.0.policy, PrivateInputSharingPolicy::OwnerZero);
    assert_eq!((plans.0.num_bucket, plans.0.num_cut), (5, 5));
    let opened = run_plans(&mut rng, &first.common, &second.common, plans, 8, 1024);
    assert_eq!(opened.len(), 1024);
    for (bits, value) in opened {
        assert_eq!(bits.len(), 8);
        assert_eq!(convert_bits_to_field::<F61p>(&bits), value);
    }
}

#[test]
fn test_mpc_owner_zero_matches_random_share_combine() {
    let random_opened = run_opened_combined_edabits_for_fixed_inputs(
        PrivateInputSharingPolicy::RandomAdditive,
        8,
        64,
    );
    let owner_zero_opened =
        run_opened_combined_edabits_for_fixed_inputs(PrivateInputSharingPolicy::OwnerZero, 8, 64);
    assert_eq!(random_opened, owner_zero_opened);
}

#[test]
fn test_mpc_owner_zero_private_state_uses_literal_zero_shares() {
    let mut rng = rng(3);
    let (first, second) = peers(&mut rng);
    let (first, second) = (&first.common, &second.common);
    let clear_s = sampled(&mut rng, 8, 128);
    let clear_t = sampled(&mut rng, 8, 128);
    let (s, t) = states(
        &mut rng,
        first,
        second,
        &clear_s,
        &clear_t,
        PrivateInputSharingPolicy::OwnerZero,
    );
    assert_owner_zero_state(&s);
    assert_owner_zero_state(&t);
    let (global_s, global_t) = combine(&mut rng, first, second, &s, &t);
    let opened = open_global(first, second, &global_s, &global_t);
    for (bits, value) in opened {
        assert_eq!(convert_bits_to_field::<F61p>(&bits), value);
    }
}

#[test]
fn both_peers_open_the_same_values() {
    let mut rng = rng(30);
    let (first, second) = peers(&mut rng);
    let (first, second) = (&first.common, &second.common);
    let values = [F61p::new(5), F61p::new((1 << 61) - 2), F61p::zero()];
    let (s, t) = share_field_values(&mut rng, first, second, &values);
    let sent_s: Vec<F61p> = local_batch(&s).iter().map(|l| l.value()).collect();
    let sent_t: Vec<F61p> = local_batch(&t).iter().map(|l| l.value()).collect();
    assert_eq!(open_shared_batch(&s, &sent_t), values);
    assert_eq!(open_shared_batch(&t, &sent_s), values);
    assert!(open_shared_batch::<F61p>(&[], &[]).is_empty());
}

#[test]
fn dealt_triples_are_products() {
    let mut rng = rng(31);
    let (first, second) = peers(&mut rng);
    let (first, second) = (&first.common, &second.common);
    let (s, t) = deal_triples(&mut rng, first, second, 64);
    for (s, t) in s.iter().zip(t.iter()) {
        let a = open_bits(first, second, &[s.a], &[t.a])[0];
        let b = open_bits(first, second, &[s.b], &[t.b])[0];
        let c = open_bits(first, second, &[s.c], &[t.c])[0];
        assert_eq!(c, a.mul(b));
    }
}

#[test]
fn received_parts_belong_to_the_owned_ones() {
    for policy in [PrivateInputSharingPolicy::RandomAdditive, PrivateInputSharingPolicy::OwnerZero] {
        let mut rng = rng(32);
        let (first, second) = peers(&mut rng);
        let (first, second) = (&first.common, &second.common);
        let clear_s = sampled(&mut rng, 5, 7);
        let clear_t = sampled(&mut rng, 5, 7);
        let (s, t) = states(&mut rng, first, second, &clear_s, &clear_t, policy);
        assert_eq!((s.len(), t.len()), (7, 7));
        for (own, peer) in s.private_edabits.iter().zip(t.peer_private_edabits.iter()) {
            let bits = open_bits(first, second, &own.shared.bits, &peer.bits);
            let value = open_values(first, second, &[own.shared.value], &[peer.value])[0];
            assert_eq!((bits, value), (own.clear_bits.clone(), own.clear_value));
        }
        for (own, peer) in t.private_edabits.iter().zip(s.peer_private_edabits.iter()) {
            let bits = open_bits(second, first, &own.shared.bits, &peer.bits);
            let value = open_values(second, first, &[own.shared.value], &[peer.value])[0];
            assert_eq!((bits, value), (own.clear_bits.clone(), own.clear_value));
        }
    }
}

#[test]
fn nothing_is_combined_to_nothing() {
    let mut rng = rng(33);
    let (first, _) = peers(&mut rng);
    let adder = first.common.combine_start(&[], &[]);
    assert!(adder.is_done());
    assert!(first.common.combine_finish(&[], &[], &[], &[], &[]).is_empty());
}

// EdaBits from expanded daBits.

const D2: usize = 2;
const DP: usize = 3;
const SEED_LENGTH: usize = 64;
const OUTPUT_LENGTH: usize = 1024;

type ProverDabit = ExpandedProverDabit<F61p, D2, DP>;
type VerifierDabit = ExpandedVerifierDabit<F61p>;

fn evaluate<FE: FiniteField>(poly: &[FE], x: FE) -> FE {
    let mut out = FE::zero();
    for c in poly.iter().rev() {
        out = out.mul(x).add(*c);
    }
    out
}

fn expanded_dabit(rng: &mut StdRng, delta_2: F40b, delta_p: F61p) -> (ProverDabit, VerifierDabit) {
    let b: bool = rng.gen();
    let mut poly_2: Vec<F40b> = (0..D2).map(|_| f40b(rng)).collect();
    poly_2.push(if b { F40b::one() } else { F40b::zero() });
    let mut poly_p: Vec<F61p> = (0..DP).map(|_| f61p(rng)).collect();
    poly_p.push(if b { F61p::one() } else { F61p::zero() });
    let key_2 = evaluate(&poly_2, delta_2);
    let key_p = evaluate(&poly_p, delta_p);
    (
        ExpandedProverDabit {
            bit: HDMacProver::new(poly_2),
            value: HDMacProver::new(poly_p),
        },
        ExpandedVerifierDabit {
            bit: HDMacVerifier { mac: key_2, qs_degree: D2 },
            value: HDMacVerifier { mac: key_p, qs_degree: DP },
        },
    )
}

/// Accepts a proof that values are zero: their leading coefficients are, and the
/// polynomials belong to the keys.
fn zero_proof<FE: FiniteField, const D: usize>(
    delta: FE,
    checks: &[HDMacProver<FE, D>],
    keys: &[HDMacVerifier<FE>],
) -> bool {
    assert_eq!(checks.len(), keys.len());
    checks.iter().zip(keys.iter()).all(|(check, key)| {
        let mut expected = key.mac;
        for _ in key.qs_degree..D {
            expected = expected.mul(delta);
        }
        assert!(evaluate(check.coefficients(), delta).equals(expected));
        check.value().equals(FE::zero())
    })
}

struct Seed {
    prover_2: Vec<MacProver<F40b>>,
    prover_p: Vec<MacProver<F61p>>,
    verifier_2: Vec<MacVerifier<F40b>>,
    verifier_p: Vec<MacVerifier<F61p>>,
}

fn seed_of(rng: &mut StdRng, outputs: &[ProverDabit], delta_2: F40b, delta_p: F61p) -> Seed {
    let (bits, values) = seed_values(outputs);
    let (macs_2, verifier_2) = input_bits(rng, &bits, delta_2);
    let (macs_p, verifier_p) = input_values(rng, &values, delta_p);
    Seed {
        prover_2: assemble_provers(&bits, &macs_2),
        prover_p: assemble_provers(&values, &macs_p),
        verifier_2,
        verifier_p,
    }
}

/// Generates daBits on both sides of one direction.
fn gen_dabits(
    rng: &mut StdRng,
    source: &mut DabitSource<MacProver<F40b>, MacProver<F61p>>,
    other: &mut DabitSource<MacVerifier<F40b>, MacVerifier<F61p>>,
    delta_2: F40b,
    delta_p: F61p,
    num: usize,
) -> (Vec<ProverDabit>, Vec<VerifierDabit>, usize) {
    let mut provers = Vec::new();
    let mut verifiers = Vec::new();
    let mut reseeds = 0;
    while provers.len() < num {
        let step = source.next_step();
        assert_eq!(step, other.next_step());
        match step {
            SourceStep::FreshSeed => {
                let outputs: Vec<ProverDabit> =
                    (0..SEED_LENGTH).map(|_| expanded_dabit(rng, delta_2, delta_p).0).collect();
                let seed = seed_of(rng, &outputs, delta_2, delta_p);
                assert_eq!(seed.prover_2.len(), SEED_LENGTH);
                source.gen_seed(seed.prover_2, seed.prover_p);
                other.gen_seed(seed.verifier_2, seed.verifier_p);
            }
            SourceStep::Reseed => {
                reseeds += 1;
                let (outputs, output_keys): (Vec<ProverDabit>, Vec<VerifierDabit>) =
                    (0..SEED_LENGTH).map(|_| expanded_dabit(rng, delta_2, delta_p)).unzip();
                let seed = seed_of(rng, &outputs, delta_2, delta_p);
                let (bits, values): (Vec<_>, Vec<_>) =
                    outputs.into_iter().map(|d| (d.bit, d.value)).unzip();
                let (bit_keys, value_keys): (Vec<_>, Vec<_>) =
                    output_keys.into_iter().map(|d| (d.bit, d.value)).unzip();
                let checks_2 = prover_seed_checks(&bits, &seed.prover_2);
                let checks_p = prover_seed_checks(&values, &seed.prover_p);
                let keys_2 = verifier_seed_checks(delta_2, &bit_keys, &seed.verifier_2);
                let keys_p = verifier_seed_checks(delta_p, &value_keys, &seed.verifier_p);
                let accepted = proofs_accepted(
                    zero_proof(delta_2, &checks_2, &keys_2),
                    zero_proof(delta_p, &checks_p, &keys_p),
                );
                assert_eq!(accepted, Ok(()));
                source.gen_seed(seed.prover_2, seed.prover_p);
                other.gen_seed(seed.verifier_2, seed.verifier_p);
            }
            SourceStep::Output => {
                assert_eq!(source.seed().0.len(), SEED_LENGTH);
                assert_eq!(source.seed().1.len(), SEED_LENGTH);
                let (prover, verifier) =
                    next_output(Some(expanded_dabit(rng, delta_2, delta_p))).unwrap();
                provers.push(prover);
                verifiers.push(verifier);
                source.gen_dabit();
                other.gen_dabit();
            }
        }
    }
    (provers, verifiers, reseeds)
}

fn chedda_peers(rng: &mut StdRng) -> (MpcCheddaEdabitsPeer<F61p>, MpcCheddaEdabitsPeer<F61p>) {
    let (a, b) = keys(rng);
    let (c, d) = keys(rng);
    (
        MpcCheddaEdabitsPeer::init(PeerRole::First, a, b, SEED_LENGTH, OUTPUT_LENGTH),
        MpcCheddaEdabitsPeer::init(PeerRole::Second, c, d, SEED_LENGTH, OUTPUT_LENGTH),
    )
}

#[test]
fn test_chedda_seed_dabit_generation() {
    let mut rng = rng(4);
    let (first, second) = chedda_peers(&mut rng);
    assert_eq!(first.local_chedda.next_step(), SourceStep::FreshSeed);
    assert_eq!(second.remote_chedda.next_step(), SourceStep::FreshSeed);
    let delta_2 = delta_f2(&second.common);
    let delta_p = delta_fe(&second.common);
    let outputs: Vec<ProverDabit> =
        (0..SEED_LENGTH).map(|_| expanded_dabit(&mut rng, delta_2, delta_p).0).collect();
    let seed = seed_of(&mut rng, &outputs, delta_2, delta_p);
    assert_eq!(seed.prover_2.len(), SEED_LENGTH);
    assert_eq!(seed.verifier_2.len(), SEED_LENGTH);
    for i in 0..SEED_LENGTH {
        let (bit, value) = (seed.prover_2[i].value(), seed.prover_p[i].value());
        assert_eq!(bit.bit as u64, value.value());
        assert_eq!(
            seed.prover_2[i].mac(),
            delta_2.mul(F40b::from_prime(bit)).add(seed.verifier_2[i].mac())
        );
        assert_eq!(
            seed.prover_p[i].mac(),
            delta_p.mul(value).add(seed.verifier_p[i].mac())
        );
    }
}

#[test]
fn test_chedda_prg_private_dabits_format() {
    let mut rng = rng(5);
    let (mut first, mut second) = chedda_peers(&mut rng);
    let delta_2 = delta_f2(&second.common);
    let delta_p = delta_fe(&second.common);
    let (prover_dabits, verifier_dabits, _) = gen_dabits(
        &mut rng,
        &mut first.local_chedda,
        &mut second.remote_chedda,
        delta_2,
        delta_p,
        32,
    );
    assert_eq!(prover_dabits.len(), verifier_dabits.len());
    for (i, dabit) in prover_dabits.into_iter().enumerate() {
        let bit = dabit.clear_bit();
        assert!(bit == F2::zero() || bit == F2::one());
        assert_eq!(
            dabit.value.value(),
            if bit == F2::one() { F61p::one() } else { F61p::zero() }
        );
        assert!(verifier_dabits[i].bit.qs_degree >= 1);
        assert!(verifier_dabits[i].value.qs_degree >= 1);
    }
}

#[test]
fn test_private_dabit_to_private_edabit_conversion() {
    let mut rng = rng(6);
    let (mut first, mut second) = chedda_peers(&mut rng);
    let delta_2 = delta_f2(&second.common);
    let delta_p = delta_fe(&second.common);
    let (dabits, _, _) = gen_dabits(
        &mut rng,
        &mut first.local_chedda,
        &mut second.remote_chedda,
        delta_2,
        delta_p,
        24,
    );
    let (clear_bits, clear_values) = prover_dabits_to_clear_edabits_generic(&dabits, 8);
    assert_eq!(clear_bits.len(), 3);
    assert_eq!(clear_values.len(), 3);
    for (bits, value) in clear_bits.iter().zip(clear_values.iter()) {
        assert_eq!(*value, convert_bits_to_field::<F61p>(bits));
    }
}

/// The owner keeps clear edaBits, and the peer gets shares of zero.
fn share_owner_zero(
    rng: &mut StdRng,
    owner: &Common,
    peer: &Common,
    clear_bits: &[Vec<F2>],
    clear_values: &[F61p],
) -> (Vec<PrivateEdabit<F61p>>, Vec<SharedEdabit<F61p>>) {
    let (bit_macs, bit_keys) = input_bits(rng, &flatten_bits(clear_bits), delta_f2(peer));
    let (value_macs, value_keys) = input_values(rng, clear_values, delta_fe(peer));
    (
        owner.share_private_clear_edabits_owner_zero(
            clear_bits,
            clear_values,
            &bit_macs,
            &value_macs,
        ),
        peer.receive_private_edabit_contributions_owner_zero(
            clear_bits[0].len(),
            clear_bits.len(),
            &bit_keys,
            &value_keys,
        ),
    )
}

fn chedda_fixed_clear_edabits(
    owner: usize,
    bit_size: usize,
    num: usize,
) -> (Vec<Vec<F2>>, Vec<F61p>) {
    let mut clear_bits = Vec::with_capacity(num);
    let mut clear_values = Vec::with_capacity(num);
    for row in 0..num {
        let mut bits = Vec::with_capacity(bit_size);
        for bit in 0..bit_size {
            let parity = ((owner + 1) * (row + 3) + bit) % 2;
            bits.push(F2::new(parity != 0));
        }
        clear_values.push(convert_bits_to_field::<F61p>(&bits));
        clear_bits.push(bits);
    }
    (clear_bits, clear_values)
}

fn owner_zero_states(
    rng: &mut StdRng,
    first: &Common,
    second: &Common,
    clear_s: &(Vec<Vec<F2>>, Vec<F61p>),
    clear_t: &(Vec<Vec<F2>>, Vec<F61p>),
) -> (State, State) {
    let (own_s, peer_t) = share_owner_zero(rng, first, second, &clear_s.0, &clear_s.1);
    let (own_t, peer_s) = share_owner_zero(rng, second, first, &clear_t.0, &clear_t.1);
    (
        MpcEdabitsPeer::private_state(own_s, peer_s, Vec::new(), Vec::new()),
        MpcEdabitsPeer::private_state(own_t, peer_t, Vec::new(), Vec::new()),
    )
}

#[test]
fn test_owner_zero_embedding_correctness() {
    let mut rng = rng(7);
    let (first, second) = chedda_peers(&mut rng);
    let (local_state, remote_state) = owner_zero_states(
        &mut rng,
        &first.common,
        &second.common,
        &chedda_fixed_clear_edabits(0, 8, 4),
        &chedda_fixed_clear_edabits(1, 8, 4),
    );
    assert_owner_zero_state(&local_state);
    assert_owner_zero_state(&remote_state);
}

#[test]
fn test_repeated_literal_zero_share_reuse() {
    let mut rng = rng(8);
    let (first, second) = chedda_peers(&mut rng);
    for _ in 0..3 {
        let (s, t) = owner_zero_states(
            &mut rng,
            &first.common,
            &second.common,
            &chedda_fixed_clear_edabits(0, 8, 8),
            &chedda_fixed_clear_edabits(1, 8, 8),
        );
        assert_owner_zero_state(&s);
        assert_owner_zero_state(&t);
    }
}

/// Samples edaBits of one owner from expanded daBits.
fn sample_chedda(
    rng: &mut StdRng,
    owner: &mut MpcCheddaEdabitsPeer<F61p>,
    peer: &mut MpcCheddaEdabitsPeer<F61p>,
    bit_size: usize,
    num: usize,
) -> (
    Vec<PrivateEdabit<F61p>>,
    Vec<ProverDabit>,
    Vec<SharedEdabit<F61p>>,
    Vec<VerifierDabit>,
    usize,
) {
    let delta_2 = delta_f2(&peer.common);
    let delta_p = delta_fe(&peer.common);
    let (dabits, keys, reseeds) = gen_dabits(
        rng,
        &mut owner.local_chedda,
        &mut peer.remote_chedda,
        delta_2,
        delta_p,
        bit_size * num,
    );
    let (clear_bits, clear_values) = prover_dabits_to_clear_edabits_generic(&dabits, bit_size);
    let (own, shared) =
        share_owner_zero(rng, &owner.common, &peer.common, &clear_bits, &clear_values);
    (own, dabits, shared, keys, reseeds)
}

/// Checks the edaBits of one owner: whether both proofs are accepted.
fn verify_chedda(
    owner: &UncheckedPrivateEdabitState<F61p, D2, DP>,
    peer: &UncheckedPrivateEdabitState<F61p, D2, DP>,
    peer_common: &Common,
) -> bool {
    let delta_2 = delta_f2(peer_common);
    let delta_p = delta_fe(peer_common);
    let tuples = &owner.state.private_proof_edabits;
    let corrections = edabit_corrections(tuples, &owner.local_dabits);
    let checks = prover_verify_edabits(tuples, &owner.local_dabits, &corrections);
    let keys = verifier_verify_edabits(
        delta_2,
        delta_p,
        &peer.state.peer_private_proof_edabits,
        &peer.remote_dabits,
        &corrections,
    );
    proofs_accepted(
        zero_proof(delta_2, &checks.bits, &keys.bits),
        zero_proof(delta_p, &checks.values, &keys.values),
    )
    .is_ok()
}

fn unchecked(
    own: Vec<PrivateEdabit<F61p>>,
    local_dabits: Vec<ProverDabit>,
    shared: Vec<SharedEdabit<F61p>>,
    remote_dabits: Vec<VerifierDabit>,
) -> UncheckedPrivateEdabitState<F61p, D2, DP> {
    let proofs = extract_prover_edabits(&own);
    let keys = extract_verifier_edabits(&shared);
    UncheckedPrivateEdabitState {
        state: MpcEdabitsPeer::private_state(own, shared, proofs, keys),
        local_dabits,
        remote_dabits,
    }
}

#[test]
fn test_mpc_chedda_global_edabits_roundtrip() {
    let (bit_size, num) = (8, 6000);
    let mut rng = rng(9);
    let (mut first, mut second) = chedda_peers(&mut rng);
    let (own_s, dabits_s, shared_t, keys_t, reseeds) =
        sample_chedda(&mut rng, &mut first, &mut second, bit_size, num);
    assert!(reseeds > 0);
    let (own_t, dabits_t, shared_s, keys_s, _) =
        sample_chedda(&mut rng, &mut second, &mut first, bit_size, num);
    let s = unchecked(own_s, dabits_s, shared_s, keys_s);
    let t = unchecked(own_t, dabits_t, shared_t, keys_t);
    assert!(verify_chedda(&s, &t, &second.common));
    assert!(verify_chedda(&t, &s, &first.common));
    let s = s.verify_private_edabits(true, true).ok().unwrap();
    let t = t.verify_private_edabits(true, true).ok().unwrap();
    let (global_s, global_t) = combine(&mut rng, &first.common, &second.common, &s, &t);
    let opened = open_global(&first.common, &second.common, &global_s, &global_t);
    assert_eq!(opened.len(), 6000);
    for (bits, value) in opened {
        assert_eq!(value, convert_bits_to_field::<F61p>(&bits));
    }
}

#[test]
fn runs_have_a_shorter_name() {
    let mut rng = rng(34);
    let (chedda, _) = chedda_peers(&mut rng);
    let (short, long) = (chedda.generate_edabits(), chedda.generate_global_edabits());
    assert_eq!(short.next_action(), long.next_action());
    let state = unchecked(Vec::new(), Vec::new(), Vec::new(), Vec::new());
    assert!(chedda.combine_sampled_private_edabits(&state).is_done());
    let (original, _) = original_peers(&mut rng);
    let (short, long) = (
        original.generate_edabits(8, 1024),
        original.generate_global_edabits(8, 1024),
    );
    assert_eq!(short.0.next_action(), long.0.next_action());
    assert_eq!(short.1.num, 1024);
    assert_eq!((short.1.num_bucket, short.1.num_cut), (long.1.num_bucket, long.1.num_cut));
}

#[test]
fn chedda_check_rejects_a_wrong_value() {
    let mut rng = rng(10);
    let (mut first, mut second) = chedda_peers(&mut rng);
    let delta_2 = delta_f2(&second.common);
    let delta_p = delta_fe(&second.common);
    let (dabits, keys, _) = gen_dabits(
        &mut rng,
        &mut first.local_chedda,
        &mut second.remote_chedda,
        delta_2,
        delta_p,
        16,
    );
    let (clear_bits, mut clear_values) = prover_dabits_to_clear_edabits_generic(&dabits, 8);
    clear_values[1] = clear_values[1].add(F61p::one());
    let (own, shared) =
        share_owner_zero(&mut rng, &first.common, &second.common, &clear_bits, &clear_values);
    let s = unchecked(own, dabits, Vec::new(), Vec::new());
    let t = unchecked(Vec::new(), Vec::new(), shared, keys);
    assert!(!verify_chedda(&s, &t, &second.common));
}

#[test]
fn test_mpc_chedda_matches_private_to_global_combine_semantics() {
    let mut rng = rng(11);
    let (first, second) = chedda_peers(&mut rng);
    let clear_s = chedda_fixed_clear_edabits(0, 8, 16);
    let clear_t = chedda_fixed_clear_edabits(1, 8, 16);
    let (s, t) = owner_zero_states(&mut rng, &first.common, &second.common, &clear_s, &clear_t);
    let (global_s, global_t) = combine(&mut rng, &first.common, &second.common, &s, &t);
    let opened = open_global(&first.common, &second.common, &global_s, &global_t);
    for (i, (bits, value)) in opened.into_iter().enumerate() {
        let lhs = clear_s.1[i].value();
        let rhs = clear_t.1[i].value();
        let expected = (lhs + rhs) & ((1u64 << 8) - 1);
        let expected_bits: Vec<_> = (0..8).map(|bit| F2::new(((expected >> bit) & 1) == 1)).collect();
        assert_eq!(bits, expected_bits);
        assert_eq!(value, F61p::new(expected));
    }
}

// Cut-and-choose over shares with a MAC in each direction.

struct OriginalMaterial {
    own_edabits: Vec<PrivateEdabit<F61p>>,
    own_triples: Vec<PrivateBitTriple<SharedBitTriple>>,
    shared_edabits: Vec<SharedEdabit<F61p>>,
    shared_triples: Vec<SharedBitTriple>,
}

/// One owner samples edaBits and triples and shares them.
fn sample_original(
    rng: &mut StdRng,
    owner: &Common,
    peer: &Common,
    clear_bits: &[Vec<F2>],
    clear_values: &[F61p],
    num_triples: usize,
) -> OriginalMaterial {
    let bit_size = clear_bits[0].len();
    let num = clear_bits.len();
    let (bits_own, bits_peer) = share_bits(rng, owner, peer, &flatten_bits(clear_bits));
    let (values_own, values_peer) = share_field_values(rng, owner, peer, clear_values);
    let (a, b) = (bits(rng, num_triples), bits(rng, num_triples));
    let c = original::product_bits(&a, &b);
    let (a_own, a_peer) = share_bits(rng, owner, peer, &a);
    let (b_own, b_peer) = share_bits(rng, owner, peer, &b);
    let (c_own, c_peer) = share_bits(rng, owner, peer, &c);
    let own_shared = assemble_triples(&a_own, &b_own, &c_own);
    OriginalMaterial {
        own_edabits: original::group_private_edabits(
            clear_bits,
            clear_values,
            &bits_own,
            &values_own,
            bit_size,
        ),
        own_triples: assemble_private_triples((&a, &b, &c), &own_shared),
        shared_edabits: original::group_shared_edabits(&bits_peer, &values_peer, bit_size, num),
        shared_triples: assemble_triples(&a_peer, &b_peer, &c_peer),
    }
}

/// Checks one owner's material and returns what is left of it on both sides.
fn cut_and_choose(
    rng: &mut StdRng,
    owner: &MpcOriginalEdabitsPeer<F61p>,
    peer: &MpcOriginalEdabitsPeer<F61p>,
    material: OriginalMaterial,
    params: CutParameters,
) -> Result<(Vec<PrivateEdabit<F61p>>, Vec<SharedEdabit<F61p>>), EdabitsError> {
    let bit_size = params.bit_size;
    let seed = joint_block(rng.gen(), rng.gen());
    let mut joint = StdRng::seed_from_u64(seed as u64);
    let edabit_draws = draw_positions(&mut joint, material.own_edabits.len());
    let triple_draws = draw_positions(&mut joint, material.own_triples.len());
    let own = Cut::shuffle(
        material.own_edabits,
        material.own_triples,
        &edabit_draws,
        &triple_draws,
        params,
    );
    let other = Cut::shuffle(
        material.shared_edabits,
        material.shared_triples,
        &edabit_draws,
        &triple_draws,
        params,
    );
    let edabits = original::shared_edabits(own.edabits());
    let triples = shared_triples(own.triples());

    let (x, y) = (&owner.common, &peer.common);
    let cut_s = original::cut_openings(&edabits, &triples, params);
    let cut_t = original::cut_openings(other.edabits(), other.triples(), params);
    let bits = open_bits(x, y, &cut_s.bits, &cut_t.bits);
    let values = open_values(x, y, &cut_s.values, &cut_t.values);
    let a = open_bits(x, y, &cut_s.a, &cut_t.a);
    let b = open_bits(x, y, &cut_s.b, &cut_t.b);
    let c = open_bits(x, y, &cut_s.c, &cut_t.c);
    let own = own.check_own::<F61p>(&bits, &values, (&a, &b, &c))?;
    let other = other.check::<F61p>(&bits, &values, (&a, &b, &c))?;

    let check_s = owner.start_bucket_check(&edabits, &triples, params).unwrap();
    let check_t =
        peer.start_bucket_check(other.cut().edabits(), other.cut().triples(), params).unwrap();
    let ((sums_s, carry_s), (sums_t, carry_t)) = run_adders(
        x,
        y,
        check_s.adder,
        check_t.adder,
        &check_s.triples,
        &check_t.triples,
    );
    let (dabits_s, dabits_t) = deal_dabits(rng, x, y, carry_s.len());
    let masks = open_bits(
        x,
        y,
        &x.conversion_masks(&carry_s, &dabits_s),
        &y.conversion_masks(&carry_t, &dabits_t),
    );
    let values_s = owner.bucket_values(&check_s.sums, &dabits_s, &masks, bit_size);
    let values_t = peer.bucket_values(&check_t.sums, &dabits_t, &masks, bit_size);
    let flat_s: Vec<BitShare> = sums_s.concat();
    let flat_t: Vec<BitShare> = sums_t.concat();
    let bits = open_bits(x, y, &flat_s, &flat_t);
    let values = open_values(x, y, &values_s, &values_t);
    Ok((own.finish::<F61p>(&bits, &values)?, other.finish::<F61p>(&bits, &values)?))
}

fn original_peers(
    rng: &mut StdRng,
) -> (MpcOriginalEdabitsPeer<F61p>, MpcOriginalEdabitsPeer<F61p>) {
    let (a, b) = keys(rng);
    let (c, d) = keys(rng);
    (
        MpcOriginalEdabitsPeer::init(PeerRole::First, a, b),
        MpcOriginalEdabitsPeer::init(PeerRole::Second, c, d),
    )
}

#[test]
fn test_mpc_original_global_edabits_roundtrip() {
    let params = CutParameters { bit_size: 8, num: 16, num_bucket: 4, num_cut: 4 };
    let mut rng = rng(12);
    let (first, second) = original_peers(&mut rng);
    let num_edabits = random_edabits_needed(16, 4, 4);
    let num_triples = random_triples_needed(16, 4, 4, 8);
    let (bits_s, values_s) = sampled(&mut rng, 8, num_edabits);
    let (bits_t, values_t) = sampled(&mut rng, 8, num_edabits);
    let material_s = sample_original(
        &mut rng,
        &first.common,
        &second.common,
        &bits_s,
        &values_s,
        num_triples,
    );
    let material_t = sample_original(
        &mut rng,
        &second.common,
        &first.common,
        &bits_t,
        &values_t,
        num_triples,
    );
    let (own_s, peer_t) =
        cut_and_choose(&mut rng, &first, &second, material_s, params).unwrap();
    let (own_t, peer_s) =
        cut_and_choose(&mut rng, &second, &first, material_t, params).unwrap();
    let s = MpcEdabitsPeer::private_state(own_s, peer_s, Vec::new(), Vec::new());
    let t = MpcEdabitsPeer::private_state(own_t, peer_t, Vec::new(), Vec::new());
    let (global_s, global_t) = combine(&mut rng, &first.common, &second.common, &s, &t);
    assert_eq!(global_s.len(), 16);
    assert_eq!(global_t.len(), 16);
    let opened = open_global(&first.common, &second.common, &global_s, &global_t);
    for (bits, value) in opened {
        assert_eq!(bits.len(), 8);
        assert_eq!(convert_bits_to_field::<F61p>(&bits), value);
    }
}

#[test]
fn no_buckets_need_no_opening() {
    let mut rng = rng(20);
    let (first, second) = original_peers(&mut rng);
    assert!(first.open_and_check_bucket_pairs(&[], &[]).is_none());
    assert!(second.open_and_check_bucket_pairs(&[], &[]).is_none());
    let (first, second) = spdz_peers(&mut rng);
    assert!(first.open_and_check_bucket_pairs(&[], &[]).is_none());
    assert!(second.open_and_check_bucket_pairs(&[], &[]).is_none());
}

#[test]
fn cut_and_choose_rejects_an_inconsistent_edabit() {
    let params = CutParameters { bit_size: 4, num: 3, num_bucket: 3, num_cut: 2 };
    let mut rng = rng(13);
    let (first, second) = original_peers(&mut rng);
    let num_edabits = random_edabits_needed(3, 3, 2);
    let num_triples = random_triples_needed(3, 3, 2, 4);
    let mut errors = Vec::new();
    for wrong in 0..num_edabits {
        let (clear_bits, mut clear_values) = sampled(&mut rng, 4, num_edabits);
        clear_values[wrong] = clear_values[wrong].add(F61p::one());
        let material = sample_original(
            &mut rng,
            &first.common,
            &second.common,
            &clear_bits,
            &clear_values,
            num_triples,
        );
        let result = cut_and_choose(&mut rng, &first, &second, material, params);
        errors.push(result.err().unwrap());
    }
    assert!(errors.iter().all(|e| {
        *e == EdabitsError::InconsistentEdabit || *e == EdabitsError::InconsistentBucket
    }));
}

#[test]
fn opposite_deviations_cancel_in_a_bucket() {
    let params = CutParameters { bit_size: 4, num: 1, num_bucket: 2, num_cut: 0 };
    let mut rng = rng(19);
    let (first, second) = original_peers(&mut rng);
    let (clear_bits, mut clear_values) = sampled(&mut rng, 4, 2);
    clear_values[0] = clear_values[0].add(F61p::one());
    clear_values[1] = clear_values[1].sub(F61p::one());
    let (x, y) = (&first.common, &second.common);
    let material = sample_original(&mut rng, x, y, &clear_bits, &clear_values, 4);
    let (kept, _) = cut_and_choose(&mut rng, &first, &second, material, params).ok().unwrap();
    assert_eq!(kept.len(), 1);
    clear_values[1] = clear_values[1].sub(F61p::one());
    let material = sample_original(&mut rng, x, y, &clear_bits, &clear_values, 4);
    let result = cut_and_choose(&mut rng, &first, &second, material, params);
    assert_eq!(result.err(), Some(EdabitsError::InconsistentBucket));
}

#[test]
fn cut_and_choose_rejects_own_wrong_triples() {
    let params = CutParameters { bit_size: 2, num: 1, num_bucket: 2, num_cut: 1 };
    let mut rng = rng(18);
    let (first, second) = original_peers(&mut rng);
    let (clear_bits, clear_values) = sampled(&mut rng, 2, 3);
    let material =
        sample_original(&mut rng, &first.common, &second.common, &clear_bits, &clear_values, 4);
    let mut triples = material.own_triples;
    for triple in triples.iter_mut() {
        triple.clear_c = triple.clear_c.add(F2::one());
    }
    let cut = Cut::shuffle(material.own_edabits, triples, &[0, 0], &[0, 0, 0], params);
    let zeros = vec![F2::zero(); 2];
    let result = cut.check_own::<F61p>(&zeros, &[F61p::zero()], (&zeros, &zeros, &zeros));
    assert_eq!(result.err(), Some(EdabitsError::IncorrectTriple));
}

// SPDZ-style shares.

type SpdzPeer = MpcOriginalEdabitsSpdzPeer<F61p>;

fn spdz_peers(rng: &mut StdRng) -> (SpdzPeer, SpdzPeer) {
    (
        MpcOriginalEdabitsSpdzPeer::init(PeerRole::First, f40b(rng), f61p(rng)),
        MpcOriginalEdabitsSpdzPeer::init(PeerRole::Second, f40b(rng), f61p(rng)),
    )
}

/// The owner shares values; the keyed functions are drawn.
fn spdz_share<MF: FiniteField>(
    rng: &mut StdRng,
    draw: fn(&mut StdRng) -> MF::PrimeField,
    owner: &mut SpdzFieldBackend<MF>,
    peer: &mut SpdzFieldBackend<MF>,
    values: &[MF::PrimeField],
) -> (Vec<SpdzAuthenticatedShare<MF>>, Vec<SpdzAuthenticatedShare<MF>>) {
    let mut kept = Vec::new();
    let mut received = Vec::new();
    for value in values {
        assert_eq!(owner.outbound.block(), peer.inbound.block());
        let choices = peer.inbound.choices().clone();
        let w0: Vec<MF::PrimeField> = choices.iter().map(|_| draw(rng)).collect();
        let w1: Vec<MF::PrimeField> = choices.iter().map(|_| draw(rng)).collect();
        let w: Vec<MF::PrimeField> =
            choices.iter().enumerate().map(|(k, c)| if *c { w1[k] } else { w0[k] }).collect();
        let (sent, term) = owner.outbound.send(&w0, &w1, *value);
        kept.push(term);
        received.push(peer.inbound.receive(&w, &sent));
    }
    let remote: Vec<MF::PrimeField> = values.iter().map(|_| draw(rng)).collect();
    (
        owner.input_owned_values(values, &remote, &kept),
        peer.receive_shared_values(&remote, &received),
    )
}

fn spdz_share_bits(
    rng: &mut StdRng,
    owner: &mut SpdzPeer,
    peer: &mut SpdzPeer,
    values: &[F2],
) -> (Vec<SpdzBitShare>, Vec<SpdzBitShare>) {
    spdz_share(rng, bit, &mut owner.common.spdz_f2, &mut peer.common.spdz_f2, values)
}

fn spdz_share_values(
    rng: &mut StdRng,
    owner: &mut SpdzPeer,
    peer: &mut SpdzPeer,
    values: &[F61p],
) -> (Vec<SpdzFieldShare<F61p>>, Vec<SpdzFieldShare<F61p>>) {
    spdz_share(rng, f61p, &mut owner.common.spdz_fe, &mut peer.common.spdz_fe, values)
}

fn spdz_open_bits(
    rng: &mut StdRng,
    first: &SpdzPeer,
    second: &SpdzPeer,
    s: &[SpdzBitShare],
    t: &[SpdzBitShare],
) -> Vec<F2> {
    let opened = opened_values(&share_values(s), &share_values(t));
    let chi = joint_field(f40b(rng), f40b(rng));
    let check_s = first.common.spdz_f2.mac_check(s, &opened, chi);
    let check_t = second.common.spdz_f2.mac_check(t, &opened, chi);
    open_shared_bit_batch(opened, check_s, check_t).unwrap()
}

fn spdz_open_values(
    rng: &mut StdRng,
    first: &SpdzPeer,
    second: &SpdzPeer,
    s: &[SpdzFieldShare<F61p>],
    t: &[SpdzFieldShare<F61p>],
) -> Vec<F61p> {
    let opened = opened_values(&share_values(s), &share_values(t));
    let chi = joint_field(f61p(rng), f61p(rng));
    let check_s = first.common.spdz_fe.mac_check(s, &opened, chi);
    let check_t = second.common.spdz_fe.mac_check(t, &opened, chi);
    open_shared_field_batch(opened, check_s, check_t).unwrap()
}

fn transfer<T: Copy>(messages: &[(T, T)], choices: &[bool]) -> Vec<T> {
    messages.iter().zip(choices).map(|(m, c)| if *c { m.1 } else { m.0 }).collect()
}

/// Shares of the products of the sender's bits with the receiver's.
fn cross_terms<MF: FiniteField>(
    rng: &mut StdRng,
    draw: fn(&mut StdRng) -> MF::PrimeField,
    draw_mac: fn(&mut StdRng) -> MF,
    alpha_sender: MF,
    alpha_receiver: MF,
    sender_bits: &[F2],
    receiver_bits: &[F2],
) -> (Vec<SpdzAuthenticatedShare<MF>>, Vec<SpdzAuthenticatedShare<MF>>) {
    let n = sender_bits.len();
    let value_masks: Vec<MF::PrimeField> = (0..n).map(|_| draw(rng)).collect();
    let mac_masks: Vec<MF> = (0..n).map(|_| draw_mac(rng)).collect();
    let reverse_masks: Vec<MF> = (0..n).map(|_| draw_mac(rng)).collect();
    let values = cross_term_values::<MF>(sender_bits, &value_masks);
    let macs = cross_term_macs(alpha_sender, sender_bits, &mac_masks);
    let reverse = cross_term_macs(alpha_receiver, receiver_bits, &reverse_masks);
    let choices = cross_term_choices(receiver_bits);
    let received_values = transfer(&values, &choices);
    let received_macs = transfer(&macs, &choices);
    let reverse_macs = transfer(&reverse, &cross_term_choices(sender_bits));
    (
        cross_terms_sent(&value_masks, &mac_masks, &reverse_macs),
        cross_terms_received(&received_values, &received_macs, &reverse_masks),
    )
}

/// Products of shared bits without triples.
fn spdz_multiply(
    rng: &mut StdRng,
    first: &mut SpdzPeer,
    second: &mut SpdzPeer,
    lhs: (&[SpdzBitShare], &[SpdzBitShare]),
    rhs: (&[SpdzBitShare], &[SpdzBitShare]),
) -> (Vec<SpdzBitShare>, Vec<SpdzBitShare>) {
    let local_s = local_products(lhs.0, rhs.0);
    let local_t = local_products(lhs.1, rhs.1);
    let (own_s, peer_t) = spdz_share_bits(rng, first, second, &local_s);
    let (own_t, peer_s) = spdz_share_bits(rng, second, first, &local_t);
    let (lhs_s, lhs_t) = (share_values(lhs.0), share_values(lhs.1));
    let (rhs_s, rhs_t) = (share_values(rhs.0), share_values(rhs.1));
    let (alpha_s, alpha_t) =
        (first.common.spdz_f2.alpha_share(), second.common.spdz_f2.alpha_share());
    let (one_s, other_s) = cross_term_bits(PeerRole::First, &lhs_s, &rhs_s);
    let (one_t, other_t) = cross_term_bits(PeerRole::Second, &lhs_t, &rhs_t);
    let (fs_s, fs_t) = cross_terms(rng, bit, f40b, alpha_s, alpha_t, &one_s, &one_t);
    let (sf_t, sf_s) = cross_terms(rng, bit, f40b, alpha_t, alpha_s, &other_t, &other_s);
    (
        multiply_shared_bits_direct(&own_s, &peer_s, &fs_s, &sf_s),
        multiply_shared_bits_direct(&own_t, &peer_t, &fs_t, &sf_t),
    )
}

fn spdz_convert(
    rng: &mut StdRng,
    first: &mut SpdzPeer,
    second: &mut SpdzPeer,
    s: &[SpdzBitShare],
    t: &[SpdzBitShare],
) -> (Vec<SpdzFieldShare<F61p>>, Vec<SpdzFieldShare<F61p>>) {
    let field_s = local_field_bits::<F61p>(s);
    let field_t = local_field_bits::<F61p>(t);
    let (own_s, peer_t) = spdz_share_values(rng, first, second, &field_s);
    let (own_t, peer_s) = spdz_share_values(rng, second, first, &field_t);
    let (alpha_s, alpha_t) =
        (first.common.spdz_fe.alpha_share(), second.common.spdz_fe.alpha_share());
    let (cross_s, cross_t) = cross_terms(
        rng,
        f61p,
        f61p,
        alpha_s,
        alpha_t,
        &share_values(s),
        &share_values(t),
    );
    (
        convert_shared_bits_to_field(&own_s, &peer_s, &cross_s),
        convert_shared_bits_to_field(&own_t, &peer_t, &cross_t),
    )
}

#[test]
fn test_mpc_spdz_field_share_roundtrip() {
    let mut rng = rng(14);
    let (mut first, mut second) = spdz_peers(&mut rng);
    let values = [F61p::one(), F61p::new(7)];
    let (s, t) = spdz_share_values(&mut rng, &mut first, &mut second, &values);
    let opened = spdz_open_values(&mut rng, &first, &second, &s, &t);
    assert_eq!(opened, values);
}

#[test]
fn test_mpc_spdz_bit_to_field_roundtrip() {
    let mut rng = rng(15);
    let (mut first, mut second) = spdz_peers(&mut rng);
    let bits = [F2::zero(), F2::one(), F2::one(), F2::zero()];
    let (s, t) = spdz_share_bits(&mut rng, &mut first, &mut second, &bits);
    let (field_s, field_t) = spdz_convert(&mut rng, &mut first, &mut second, &s, &t);
    let opened_bits = spdz_open_bits(&mut rng, &first, &second, &s, &t);
    let opened_fields = spdz_open_values(&mut rng, &first, &second, &field_s, &field_t);
    assert_eq!(opened_bits, bits);
    for (bit, field) in opened_bits.into_iter().zip(opened_fields) {
        assert_eq!(if bit == F2::one() { F61p::one() } else { F61p::zero() }, field);
    }
}

struct SpdzMaterial {
    own_edabits: Vec<SpdzPrivateEdabit<F61p>>,
    own_triples: Vec<PrivateBitTriple<SpdzSharedBitTriple>>,
    shared_edabits: Vec<SpdzSharedEdabit<F61p>>,
    shared_triples: Vec<SpdzSharedBitTriple>,
}

fn sample_spdz(
    rng: &mut StdRng,
    owner: &mut SpdzPeer,
    peer: &mut SpdzPeer,
    bit_size: usize,
    num: usize,
    num_triples: usize,
) -> SpdzMaterial {
    let (clear_bits, clear_values) = sampled(rng, bit_size, num);
    let (bits_own, bits_peer) = spdz_share_bits(rng, owner, peer, &flatten_bits(&clear_bits));
    let (values_own, values_peer) = spdz_share_values(rng, owner, peer, &clear_values);
    let (a, b) = (bits(rng, num_triples), bits(rng, num_triples));
    let c = original::product_bits(&a, &b);
    let (a_own, a_peer) = spdz_share_bits(rng, owner, peer, &a);
    let (b_own, b_peer) = spdz_share_bits(rng, owner, peer, &b);
    let (c_own, c_peer) = spdz_share_bits(rng, owner, peer, &c);
    let own_shared = spdz::assemble_triples(&a_own, &b_own, &c_own, num_triples);
    SpdzMaterial {
        own_edabits: spdz::group_private_edabits(
            &clear_bits,
            &clear_values,
            &bits_own,
            &values_own,
            bit_size,
        ),
        own_triples: assemble_private_triples((&a, &b, &c), &own_shared),
        shared_edabits: spdz::group_shared_edabits(&bits_peer, &values_peer, bit_size, num),
        shared_triples: spdz::assemble_triples(&a_peer, &b_peer, &c_peer, num_triples),
    }
}

/// Checks one owner's material; `x` and `y` are the owner and the other peer.
fn spdz_cut_and_choose(
    rng: &mut StdRng,
    x: &mut SpdzPeer,
    y: &mut SpdzPeer,
    material: SpdzMaterial,
    params: CutParameters,
) -> (Vec<SpdzPrivateEdabit<F61p>>, Vec<SpdzSharedEdabit<F61p>>) {
    let bit_size = params.bit_size;
    let edabit_draws = draw_positions(rng, material.own_edabits.len());
    let triple_draws = draw_positions(rng, material.own_triples.len());
    let own = Cut::shuffle(
        material.own_edabits,
        material.own_triples,
        &edabit_draws,
        &triple_draws,
        params,
    );
    let other = Cut::shuffle(
        material.shared_edabits,
        material.shared_triples,
        &edabit_draws,
        &triple_draws,
        params,
    );
    let edabits = spdz::shared_edabits(own.edabits());
    let triples = shared_triples(own.triples());

    let cut_s = spdz::cut_openings(&edabits, &triples, params);
    let cut_t = spdz::cut_openings(other.edabits(), other.triples(), params);
    let bits = spdz_open_bits(rng, x, y, &cut_s.bits, &cut_t.bits);
    let values = spdz_open_values(rng, x, y, &cut_s.values, &cut_t.values);
    let a = spdz_open_bits(rng, x, y, &cut_s.a, &cut_t.a);
    let b = spdz_open_bits(rng, x, y, &cut_s.b, &cut_t.b);
    let c = spdz_open_bits(rng, x, y, &cut_s.c, &cut_t.c);
    let own = own.check_own::<F61p>(&bits, &values, (&a, &b, &c)).ok().unwrap();
    let other = other.check::<F61p>(&bits, &values, (&a, &b, &c)).ok().unwrap();

    let check_s = x.start_bucket_check(&edabits, &triples, params).unwrap();
    let check_t =
        y.start_bucket_check(other.cut().edabits(), other.cut().triples(), params).unwrap();
    let (mut s, mut t) = (check_s.adder, check_t.adder);
    while !s.is_done() {
        let (ds, es) = x.common.adder_masks(&s, &check_s.triples);
        let (dt, et) = y.common.adder_masks(&t, &check_t.triples);
        let d = spdz_open_bits(rng, x, y, &ds, &dt);
        let e = spdz_open_bits(rng, x, y, &es, &et);
        s = x.common.adder_absorb(s, &check_s.triples, &d, &e);
        t = y.common.adder_absorb(t, &check_t.triples, &d, &e);
    }
    let ((sums_s, carry_s), (sums_t, carry_t)) = (s.finish(), t.finish());
    let (field_s, field_t) = spdz_convert(rng, x, y, &carry_s, &carry_t);
    let values_s = x.common.apply_overflow_correction(&check_s.sums, &field_s, bit_size);
    let values_t = y.common.apply_overflow_correction(&check_t.sums, &field_t, bit_size);
    let bits = spdz_open_bits(rng, x, y, &sums_s.concat(), &sums_t.concat());
    let values = spdz_open_values(rng, x, y, &values_s, &values_t);
    (
        own.finish::<F61p>(&bits, &values).ok().unwrap(),
        other.finish::<F61p>(&bits, &values).ok().unwrap(),
    )
}

fn spdz_combine(
    rng: &mut StdRng,
    first: &mut SpdzPeer,
    second: &mut SpdzPeer,
    own_s: &[SpdzPrivateEdabit<F61p>],
    peer_s: &[SpdzSharedEdabit<F61p>],
    own_t: &[SpdzPrivateEdabit<F61p>],
    peer_t: &[SpdzSharedEdabit<F61p>],
) -> (Vec<SpdzGlobalEdabit<F61p>>, Vec<SpdzGlobalEdabit<F61p>>) {
    let mut s = first.common.combine_start(own_s, peer_s);
    let mut t = second.common.combine_start(own_t, peer_t);
    while !s.is_done() {
        let (left_s, right_s) = s.factors();
        let (left_t, right_t) = t.factors();
        let (products_s, products_t) =
            spdz_multiply(rng, first, second, (&left_s, &left_t), (&right_s, &right_t));
        s = s.absorb(&products_s);
        t = t.absorb(&products_t);
    }
    let ((sums_s, carry_s), (sums_t, carry_t)) = (s.finish(), t.finish());
    let (field_s, field_t) = spdz_convert(rng, first, second, &carry_s, &carry_t);
    (
        first.common.combine_finish(own_s, peer_s, &sums_s, &field_s),
        second.common.combine_finish(own_t, peer_t, &sums_t, &field_t),
    )
}

#[test]
fn test_mpc_original_spdz_global_edabits_roundtrip() {
    let params = CutParameters { bit_size: 8, num: 64, num_bucket: 4, num_cut: 4 };
    let mut rng = rng(16);
    let (mut first, mut second) = spdz_peers(&mut rng);
    let num_edabits = random_edabits_needed(64, 4, 4);
    let num_triples = random_triples_needed(64, 4, 4, 8);
    let material_s = sample_spdz(&mut rng, &mut first, &mut second, 8, num_edabits, num_triples);
    let material_t = sample_spdz(&mut rng, &mut second, &mut first, 8, num_edabits, num_triples);
    let (own_s, peer_t) =
        spdz_cut_and_choose(&mut rng, &mut first, &mut second, material_s, params);
    let (own_t, peer_s) =
        spdz_cut_and_choose(&mut rng, &mut second, &mut first, material_t, params);
    let (global_s, global_t) =
        spdz_combine(&mut rng, &mut first, &mut second, &own_s, &peer_s, &own_t, &peer_t);
    assert_eq!(global_s.len(), 64);
    assert_eq!(global_t.len(), 64);
    for (s, t) in global_s.iter().zip(global_t.iter()) {
        let bits = spdz_open_bits(&mut rng, &first, &second, &s.bits, &t.bits);
        let value = spdz_open_values(&mut rng, &first, &second, &[s.value], &[t.value])[0];
        assert_eq!(bits.len(), 8);
        assert_eq!(convert_bits_to_field::<F61p>(&bits), value);
    }
}

#[test]
fn rows_are_recovered_from_flat_bits() {
    let mut rng = rng(17);
    let rows: Vec<Vec<F2>> = (0..5).map(|_| bits(&mut rng, 3)).collect();
    assert_eq!(split_bits(&flatten_bits(&rows), 3), rows);
}
