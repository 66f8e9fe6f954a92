use diet_mac_and_cheese::benchmark_tools::{
    get_cmdline, get_hostname, get_timestamp, get_username, hostname_from_system, next_attempt,
    run_command, setup_network, try_run_command, username_from_env, AttemptStep, BenchmarkMetaData,
    CommandOutput, FieldParameter, NetworkOptions, NetworkStep, Party,
};
use diet_mac_and_cheese::bits::{
    convert_bits_to_field, f2_to_fe, flatten_bits, power_two, split_bits,
};
use diet_mac_and_cheese::copee::{generate_powers, generate_twos, lift_prime_to_field};
use diet_mac_and_cheese::cut_and_choose::{
    bucket_heads, bucket_items, bucket_pairs, check_opened_buckets, check_opened_edabits,
    check_opened_triples, check_private_triples, draw_positions, generate_permutation, joint_block,
    permute_by_draws, random_edabits_needed, random_triples_needed, CutParameters,
    PrivateBitTriple,
};
use diet_mac_and_cheese::errors::EdabitsError;
use diet_mac_and_cheese::f40b::F40b;
use diet_mac_and_cheese::field::{FiniteField, FiniteRing, PrimeRing};
use diet_mac_and_cheese::flow::{Flow, FlowAction};
use diet_mac_and_cheese::hd_quicksilver::{HDMacProver, HDMacVerifier};
use diet_mac_and_cheese::homcom::{scale, FComProver, FComVerifier, MacProver, MacVerifier};
use diet_mac_and_cheese::mpc_chedda_edabits::{
    gen_powers_of_two, next_output, proofs_accepted, DabitSource, MpcCheddaEdabitsPeer, SourceStep,
};
use diet_mac_and_cheese::mpc_conv::{
    EdabitsProver, EdabitsVerifier, PeerEdabitBatch, SharedEdabit,
};
use diet_mac_and_cheese::mpc_edabits::{
    MpcEdabitsCheckBreakdown, MpcEdabitsPeer, PrivateInputSharingPolicy,
};
use diet_mac_and_cheese::mpc_edabits_common::{
    dabit_values, select_cut_and_choose_parameters, triple_values,
};
use diet_mac_and_cheese::mpc_homcom::{Direction, PeerFieldMacs, PeerRole};
use diet_mac_and_cheese::mpc_original_edabits::MpcOriginalEdabitsPeer;
use diet_mac_and_cheese::mpc_spdz_common::{
    block_to_field, field_to_block, joint_field, open_shared_bit_batch, open_shared_field_batch,
    SpdzFieldBackend,
};
use diet_mac_and_cheese::mpc_spdz_conv::{add_spdz_shares, SpdzAuthenticatedShare};
use diet_mac_and_cheese::multiplication::{
    multiplication_masks, multiply_shared_bits, SharedBitTriple,
};
use diet_mac_and_cheese::prime_fields::{F2, F61p};
use diet_mac_and_cheese::serialization::{from_bytes, to_bytes, FromBytesError};
use diet_mac_and_cheese::share::AuthenticatedShare;
use diet_mac_and_cheese::spdz_multiplication::{
    add_bit_const, cross_term_bits, scale_spdz_share,
};
use rand::rngs::StdRng;
use rand::SeedableRng;

const P: u64 = (1 << 61) - 1;

fn b(value: u8) -> F2 {
    F2::new(value == 1)
}

fn row(values: &[u8]) -> Vec<F2> {
    values.iter().map(|v| b(*v)).collect()
}

fn text(s: &str) -> Option<String> {
    Some(s.to_owned())
}

#[test]
fn bits_add_and_multiply_modulo_two() {
    assert_eq!(b(1).add(b(1)), b(0));
    assert_eq!(b(1).sub(b(0)), b(1));
    assert_eq!(b(1).neg(), b(1));
    assert_eq!(b(1).mul(b(0)), b(0));
    assert_eq!(b(1).mul(b(1)), b(1));
    assert_eq!(b(1).bit_decomposition(), vec![true]);
    assert!(b(0).equals(F2::zero()));
}

#[test]
fn residues_wrap_at_the_mersenne_prime() {
    assert_eq!(F61p::new(P).value(), 0);
    assert_eq!(F61p::new(P - 1).add(F61p::new(3)).value(), 2);
    assert_eq!(F61p::new(2).sub(F61p::new(3)).value(), P - 1);
    assert_eq!(F61p::zero().neg().value(), 0);
    assert_eq!(F61p::new(P - 1).mul(F61p::new(P - 1)).value(), 1);
    assert_eq!(F61p::new(1 << 40).mul(F61p::new(1 << 30)).value(), 1 << 9);
    let bits = F61p::new(5).bit_decomposition();
    assert_eq!(bits.len(), 61);
    assert_eq!(&bits[..4], &[true, false, true, false]);
}

#[test]
fn polynomials_are_reduced() {
    let x = F40b::generator();
    assert_eq!(F40b::new(3).mul(F40b::new(3)).value(), 5);
    assert_eq!(F40b::new(1 << 39).mul(x).value(), 0x39);
    assert_eq!(F40b::new(1 << 40).value(), 0);
    assert_eq!(F40b::new(6).add(F40b::new(3)).value(), 5);
    assert_eq!(F40b::new(6).neg().value(), 6);
    let (p, q, r) = (F40b::new(0x12_3456_789a), F40b::new(0xfe_dcba_9876), F40b::new(0x55));
    assert_eq!(p.mul(q), q.mul(p));
    assert_eq!(p.mul(q).mul(r), p.mul(q.mul(r)));
    assert_eq!(p.mul(q.add(r)), p.mul(q).add(p.mul(r)));
    let bits = p.coordinate_bits();
    let mut sum = F40b::zero();
    for (i, power) in generate_powers::<F40b>().iter().enumerate() {
        sum = sum.add(scale(F2::new(bits[i]), *power));
    }
    assert_eq!(sum, p);
    assert_eq!(generate_twos::<F61p>()[60].value(), 1 << 60);
    assert_eq!(generate_twos::<F40b>().len(), 1);
}

#[test]
fn selection_follows_the_choice() {
    let (p, q) = (F61p::new(11), F61p::new(22));
    assert_eq!(F61p::conditional_select(p, q, false), p);
    assert_eq!(F61p::conditional_select(p, q, true), q);
    assert_eq!(F2::conditional_select(b(0), b(1), true), b(1));
    assert_eq!(F2::conditional_select(b(0), b(1), false), b(0));
}

#[test]
fn prime_values_are_lifted() {
    assert_eq!(lift_prime_to_field::<F40b>(b(1)), F40b::one());
    assert_eq!(lift_prime_to_field::<F40b>(b(0)), F40b::zero());
    assert_eq!(lift_prime_to_field::<F61p>(F61p::new(1234)).value(), 1234);
    assert_eq!(f2_to_fe::<F61p>(b(1)), F61p::one());
}

#[test]
fn bits_denote_numbers_least_significant_first() {
    assert_eq!(convert_bits_to_field::<F61p>(&row(&[1, 0, 1, 1])).value(), 13);
    assert_eq!(convert_bits_to_field::<F61p>(&[]).value(), 0);
    let all_ones = vec![b(1); 61];
    assert_eq!(convert_bits_to_field::<F61p>(&all_ones).value(), 0);
    assert_eq!(power_two::<F61p>(0).value(), 1);
    assert_eq!(power_two::<F61p>(10).value(), 1024);
    assert_eq!(power_two::<F61p>(61).value(), 1);
    assert_eq!(power_two::<F2>(1), b(0));
}

#[test]
fn the_last_piece_may_be_shorter() {
    let flat = row(&[1, 0, 0, 1, 1]);
    assert_eq!(split_bits(&flat, 2), vec![row(&[1, 0]), row(&[0, 1]), row(&[1])]);
    assert_eq!(flatten_bits(&split_bits(&flat, 2)), flat);
    assert!(split_bits(&[], 3).is_empty());
    assert!(flatten_bits(&[]).is_empty());
}

#[test]
fn parameters_shrink_with_the_batch() {
    let cases: [(usize, usize); 5] =
        [(1024, 5), (10321, 5), (10322, 4), (1048575, 4), (1048576, 3)];
    for (num, expected) in cases {
        assert_eq!(select_cut_and_choose_parameters(num), (expected, expected));
        assert_eq!(
            diet_mac_and_cheese::mpc_edabits::select_cut_and_choose_parameters(num),
            (expected, expected)
        );
        assert_eq!(
            diet_mac_and_cheese::mpc_original_edabits::select_cut_and_choose_parameters(num),
            (expected, expected)
        );
    }
    assert_eq!(random_edabits_needed(16, 4, 4), 68);
    assert_eq!(random_triples_needed(16, 4, 4, 8), 416);
}

#[test]
fn estimates_add_up() {
    let expected = (3 + 5 + 10 * 100 * 8 + 40 + 200, 7 + 11 + 600 + 1);
    assert_eq!(MpcEdabitsPeer::<F61p>::estimate_voles(100, 8, (3, 7), (5, 11)), expected);
    assert_eq!(
        MpcCheddaEdabitsPeer::<F61p>::estimate_combine_voles(100, 8, (3, 7), (5, 11)),
        expected
    );
    let local = MpcEdabitsCheckBreakdown { aux: 1, core: 20 };
    let remote = MpcEdabitsCheckBreakdown { aux: 300, core: 4000 };
    assert_eq!(
        MpcEdabitsPeer::<F61p>::last_check_breakdown(local, remote),
        MpcEdabitsCheckBreakdown { aux: 301, core: 4020 }
    );
    assert_eq!(
        MpcEdabitsCheckBreakdown::default(),
        MpcEdabitsCheckBreakdown { aux: 0, core: 0 }
    );
}

#[test]
fn peers_take_opposite_directions() {
    assert!(PeerRole::First.is_first());
    assert!(!PeerRole::Second.is_first());
    assert_eq!(PeerRole::First.directions(), (Direction::Outbound, Direction::Inbound));
    assert_eq!(PeerRole::Second.directions(), (Direction::Inbound, Direction::Outbound));
}

#[test]
fn runs_check_before_they_combine() {
    let sample = |round, direction| FlowAction::Sample { round, direction };
    let verify = |direction| FlowAction::Verify { direction };
    let mut first = Flow::start(PeerRole::First, 2);
    let mut actions = Vec::new();
    for _ in 0..9 {
        actions.push(first.next_action());
        first.advance(true);
    }
    let expected = vec![
        sample(0, Direction::Outbound),
        sample(0, Direction::Inbound),
        sample(1, Direction::Outbound),
        sample(1, Direction::Inbound),
        verify(Direction::Outbound),
        verify(Direction::Inbound),
        FlowAction::Combine,
        FlowAction::Finished,
        FlowAction::Finished,
    ];
    assert_eq!(actions, expected);
    let mut second = Flow::start(PeerRole::Second, 1);
    assert_eq!(second.next_action(), sample(0, Direction::Inbound));
    second.advance(true);
    second.advance(true);
    assert_eq!(second.next_action(), verify(Direction::Inbound));
    second.advance(false);
    assert_eq!(second.next_action(), FlowAction::Stopped);
    second.advance(true);
    assert_eq!(second.next_action(), FlowAction::Stopped);
}

#[test]
fn runs_are_planned_by_batch_size() {
    let macs = || {
        (
            PeerFieldMacs::init(FComProver::new(), FComVerifier::new(F40b::one())),
            PeerFieldMacs::init(FComProver::new(), FComVerifier::new(F61p::one())),
        )
    };
    let (f2, fe) = macs();
    let peer = MpcEdabitsPeer::init(PeerRole::First, f2, fe);
    let plan = peer.generate_global_edabits(1024);
    assert_eq!(plan.policy, PrivateInputSharingPolicy::RandomAdditive);
    assert_eq!((plan.num_bucket, plan.num_cut), (5, 5));
    let plan = peer.generate_global_edabits_owner_zero(20000);
    assert_eq!(plan.policy, PrivateInputSharingPolicy::OwnerZero);
    assert_eq!((plan.num_bucket, plan.num_cut), (4, 4));
    let (f2, fe) = macs();
    let (_, params) =
        MpcOriginalEdabitsPeer::init(PeerRole::Second, f2, fe).generate_global_edabits(8, 1024);
    assert_eq!(params, CutParameters { bit_size: 8, num: 1024, num_bucket: 5, num_cut: 5 });
}

#[test]
fn batches_count_both_owners() {
    let prover = EdabitsProver::<F61p> {
        bits: vec![MacProver::new(b(1), F40b::one())],
        value: MacProver::new(F61p::one(), F61p::one()),
    };
    let empty = PeerEdabitBatch::<F61p>::new(Vec::new(), Vec::new());
    assert!(empty.is_empty());
    let batch = PeerEdabitBatch::new(vec![prover.clone(), prover.clone()], Vec::new());
    assert_eq!((batch.len_local(), batch.len_remote(), batch.is_empty()), (2, 0, false));
    let verifier = EdabitsVerifier::<F61p> {
        bits: Vec::new(),
        value: MacVerifier::new(F61p::zero()),
    };
    let remote = PeerEdabitBatch::new(Vec::new(), vec![verifier]);
    assert_eq!((remote.len_local(), remote.len_remote(), remote.is_empty()), (0, 1, false));
    let (clear_bits, clear_values) = MpcEdabitsPeer::clear_edabits(&[prover]);
    assert_eq!(clear_bits, vec![row(&[1])]);
    assert_eq!(clear_values, vec![F61p::one()]);
}

#[test]
fn linear_operations_keep_macs_valid() {
    let delta = F61p::new(987_654_321);
    let (prover, verifier) = (FComProver::<F61p>::new(), FComVerifier::new(delta));
    let valid = |p: MacProver<F61p>, v: MacVerifier<F61p>| {
        p.mac() == delta.mul(p.value()).add(v.mac())
    };
    let key = F61p::new(55);
    let value = F61p::new(10);
    let p = MacProver::new(value, delta.mul(value).add(key));
    let v = MacVerifier::new(key);
    let c = F61p::new(4);
    let sum = prover.add(p, p);
    assert_eq!(sum.value().value(), 20);
    assert!(valid(sum, verifier.add(v, v)));
    let neg = prover.neg(p);
    assert_eq!(neg.value().value(), P - 10);
    assert!(valid(neg, verifier.neg(v)));
    let shifted = prover.affine_add_cst(c, p);
    assert_eq!(shifted.value().value(), 14);
    assert!(valid(shifted, verifier.affine_add_cst(c, v)));
    let scaled = prover.affine_mult_cst(c, p);
    assert_eq!(scaled.value().value(), 40);
    assert!(valid(scaled, verifier.affine_mult_cst(c, v)));
}

fn bit_share(value: u8, delta_other: F40b, own_key: F40b, other_key: F40b) -> AuthenticatedShare<F40b> {
    let value = b(value);
    AuthenticatedShare::new(
        MacProver::new(value, delta_other.mul(F40b::from_prime(value)).add(other_key)),
        MacVerifier::new(own_key),
    )
}

#[test]
fn triples_multiply_shared_bits() {
    let (ds, dt) = (F40b::new(0xabcdef), F40b::new(0x123457));
    let macs_s = PeerFieldMacs::init(FComProver::new(), FComVerifier::new(ds));
    let macs_t = PeerFieldMacs::init(FComProver::new(), FComVerifier::new(dt));
    let mut counter: u64 = 1;
    let mut pair = |s: u8, t: u8| {
        counter += 2;
        let (ks, kt) = (F40b::new(counter * 7919), F40b::new(counter * 104729));
        (bit_share(s, dt, ks, kt), bit_share(t, ds, kt, ks))
    };
    for case in 0..16u8 {
        let (x, y, a, c) = (case & 1, (case >> 1) & 1, (case >> 2) & 1, (case >> 3) & 1);
        let (x_s, x_t) = pair(1, 1 ^ x);
        let (y_s, y_t) = pair(0, y);
        let (a_s, a_t) = pair(1, 1 ^ a);
        let (b_s, b_t) = pair(1, 1 ^ c);
        let (c_s, c_t) = pair(0, a & c);
        let s = [SharedBitTriple { a: a_s, b: b_s, c: c_s }];
        let t = [SharedBitTriple { a: a_t, b: b_t, c: c_t }];
        let (d_s, e_s) = multiplication_masks(&macs_s, &[x_s], &[y_s], &s);
        let (d_t, e_t) = multiplication_masks(&macs_t, &[x_t], &[y_t], &t);
        let d = [d_s[0].local.value().add(d_t[0].local.value())];
        let e = [e_s[0].local.value().add(e_t[0].local.value())];
        let p_s = multiply_shared_bits(&macs_s, PeerRole::First, &s, &d, &e)[0];
        let p_t = multiply_shared_bits(&macs_t, PeerRole::Second, &t, &d, &e)[0];
        assert_eq!(p_s.local.value().add(p_t.local.value()), b(x & y));
        let lifted = F40b::from_prime(p_s.local.value());
        assert_eq!(p_s.local.mac(), dt.mul(lifted).add(p_t.remote.mac()));
    }
    let zero = macs_s.zero_share();
    assert_eq!(zero.local.value(), b(0));
    assert_eq!(zero.remote.mac(), F40b::zero());
}

#[test]
fn values_of_triples_and_dabits_are_read_off() {
    let m = |v: u8| MacProver::new(b(v), F40b::new(9));
    let (x, y, z) = triple_values(&[(m(1), m(0), m(0)), (m(1), m(1), m(1))]);
    assert_eq!((x, y, z), (row(&[1, 1]), row(&[0, 1]), row(&[0, 1])));
    let (bits, values) = dabit_values::<F61p>(&[(m(1), MacProver::new(F61p::one(), F61p::new(3)))]);
    assert_eq!((bits, values), (row(&[1]), vec![F61p::one()]));
}

#[test]
fn positions_fit_and_shuffling_keeps_elements() {
    let mut rng = StdRng::seed_from_u64(99);
    let draws = draw_positions(&mut rng, 50);
    assert_eq!(draws.len(), 49);
    for (k, draw) in draws.iter().enumerate() {
        assert!(*draw < 49 - k);
    }
    assert!(draw_positions(&mut rng, 0).is_empty());
    assert!(draw_positions(&mut rng, 1).is_empty());

    let mut v = vec!['a', 'b', 'c', 'd'];
    permute_by_draws(&[0, 1, 0], &mut v);
    assert_eq!(v, vec!['c', 'd', 'b', 'a']);

    let mut w: Vec<u32> = (0..200).collect();
    generate_permutation(&mut rng, &mut w);
    assert_ne!(w, (0..200).collect::<Vec<u32>>());
    let mut sorted = w.clone();
    sorted.sort_unstable();
    assert_eq!(sorted, (0..200).collect::<Vec<u32>>());
    let mut empty: Vec<u32> = Vec::new();
    generate_permutation(&mut rng, &mut empty);
    assert!(empty.is_empty());
}

#[test]
fn corresponding_lists_are_shuffled_alike() {
    let draws = draw_positions(&mut StdRng::seed_from_u64(5), 20);
    let mut numbers: Vec<u32> = (0..20).collect();
    let mut squares: Vec<u32> = (0..20).map(|n| n * n).collect();
    permute_by_draws(&draws, &mut numbers);
    permute_by_draws(&draws, &mut squares);
    assert_eq!(squares, numbers.iter().map(|n| n * n).collect::<Vec<u32>>());
}

#[test]
fn joint_values_are_the_same_for_both() {
    assert_eq!(joint_block(0b1100, 0b1010), 0b0110);
    assert_eq!(joint_block(7, 1 << 100), joint_block(1 << 100, 7));
    assert_eq!(joint_field(F61p::new(P - 1), F61p::new(5)).value(), 4);
}

fn edabit(value: u64) -> SharedEdabit<F61p> {
    SharedEdabit {
        bits: Vec::new(),
        value: AuthenticatedShare::new(
            MacProver::new(F61p::new(value), F61p::zero()),
            MacVerifier::new(F61p::zero()),
        ),
    }
}

fn values(edabits: &[SharedEdabit<F61p>]) -> Vec<u64> {
    edabits.iter().map(|e| e.value.local.value().value()).collect()
}

#[test]
fn buckets_follow_the_cut() {
    let items: Vec<SharedEdabit<F61p>> = (0..8).map(edabit).collect();
    let buckets = bucket_items(&items, 2, 3);
    assert_eq!(buckets.len(), 2);
    assert_eq!(values(&buckets[0]), vec![2, 3, 4]);
    assert_eq!(values(&buckets[1]), vec![5, 6, 7]);
    assert_eq!(values(&bucket_heads(&items, 2, 3)), vec![2, 5]);
    assert_eq!(values(&bucket_heads(&items, 3, 3)), vec![3, 6]);
    let (lhs, rhs) = bucket_pairs(&buckets);
    assert_eq!(values(&lhs), vec![2, 2, 5, 5]);
    assert_eq!(values(&rhs), vec![3, 4, 6, 7]);
    assert!(bucket_pairs::<SharedEdabit<F61p>>(&[]).0.is_empty());
}

#[test]
fn checks_name_what_failed() {
    let bits = row(&[1, 1, 0, 1]);
    let good = [F61p::new(3), F61p::new(2)];
    let bad = [F61p::new(3), F61p::new(3)];
    assert_eq!(check_opened_edabits::<F61p>(&bits, &good, 2), Ok(()));
    assert_eq!(
        check_opened_edabits::<F61p>(&bits, &bad, 2),
        Err(EdabitsError::InconsistentEdabit)
    );
    assert_eq!(check_opened_buckets::<F61p>(&bits, &good, 2), Ok(()));
    assert_eq!(
        check_opened_buckets::<F61p>(&bits, &bad, 2),
        Err(EdabitsError::InconsistentBucket)
    );
    assert_eq!(check_opened_triples(&row(&[1, 1]), &row(&[1, 0]), &row(&[1, 0])), Ok(()));
    assert_eq!(
        check_opened_triples(&row(&[1, 1]), &row(&[1, 0]), &row(&[1, 1])),
        Err(EdabitsError::InconsistentTriple)
    );
    let share = PeerFieldMacs::init(FComProver::new(), FComVerifier::new(F40b::one())).zero_share();
    let shared = SharedBitTriple { a: share, b: share, c: share };
    let right = PrivateBitTriple { clear_a: b(1), clear_b: b(1), clear_c: b(1), shared };
    let wrong = PrivateBitTriple { clear_c: b(0), ..right };
    assert_eq!(check_private_triples(&[right, wrong], 1), Ok(()));
    assert_eq!(check_private_triples(&[right, wrong], 2), Err(EdabitsError::IncorrectTriple));
    let one = F40b::one();
    assert_eq!(open_shared_bit_batch(row(&[1]), one, one), Ok(row(&[1])));
    assert_eq!(
        open_shared_bit_batch(row(&[1]), one, F40b::zero()),
        Err(EdabitsError::BitMacCheck)
    );
    let (u, v) = (F61p::new(5), F61p::new(P - 5));
    assert_eq!(open_shared_field_batch(vec![u], u, v), Ok(vec![u]));
    assert_eq!(open_shared_field_batch(vec![u], u, u), Err(EdabitsError::FieldMacCheck));
    assert_eq!(next_output(Some(3)), Ok(3));
    assert_eq!(next_output::<u8>(None), Err(EdabitsError::DabitGeneration));
    assert_eq!(proofs_accepted(true, true), Ok(()));
    assert_eq!(proofs_accepted(false, false), Err(EdabitsError::BitProof));
    assert_eq!(proofs_accepted(true, false), Err(EdabitsError::FieldProof));
}

#[test]
fn errors_have_messages() {
    let cases = [
        (EdabitsError::InconsistentEdabit, "opened private edabit is inconsistent"),
        (EdabitsError::InconsistentTriple, "opened private triple is inconsistent"),
        (EdabitsError::IncorrectTriple, "opened private triple is not correct"),
        (EdabitsError::InconsistentBucket, "bucket consistency check failed"),
        (EdabitsError::BitMacCheck, "SPDZ bit MAC check failed"),
        (EdabitsError::FieldMacCheck, "SPDZ field MAC check failed"),
        (EdabitsError::DabitGeneration, "dabit generation failed"),
        (EdabitsError::BitProof, "QS over F2 verification failed"),
        (EdabitsError::FieldProof, "QS over Fp verification failed"),
    ];
    for (error, message) in cases {
        assert_eq!(error.message(), message);
    }
}

#[test]
fn blocks_hold_the_bytes_of_elements() {
    let element = F40b::new(0x05_0403_0201);
    let block = field_to_block(element);
    assert_eq!(block, [1, 2, 3, 4, 5, 0, 0, 0, 0, 0, 0, 0, 0, 0, 0, 0]);
    assert_eq!(block_to_field::<F40b>(&block), Ok(element));
    assert_eq!(block_to_field::<F61p>(&block), Ok(F61p::new(0x05_0403_0201)));
    assert_eq!(block_to_field::<F2>(&block), Ok(F2::one()));
    assert_eq!(block_to_field::<F2>(&field_to_block(F61p::new(2))), Err(FromBytesError));
    assert_eq!(block_to_field::<F61p>(&[0xff; 16]), Err(FromBytesError));
    assert_eq!(field_to_block(F2::zero()), [0u8; 16]);
}

#[test]
fn elements_are_sent_as_bytes() {
    assert_eq!(to_bytes(F2::one()), vec![1]);
    assert_eq!(to_bytes(F40b::new(0xab)), vec![0xab, 0, 0, 0, 0]);
    let largest = F61p::new((1 << 61) - 2);
    let bytes = [0xfe, 0xff, 0xff, 0xff, 0xff, 0xff, 0xff, 0x1f];
    assert_eq!(to_bytes(largest), bytes.to_vec());
    assert_eq!(from_bytes::<F61p>(&bytes), Ok(largest));
    let order = [0xff, 0xff, 0xff, 0xff, 0xff, 0xff, 0xff, 0x1f];
    assert_eq!(from_bytes::<F61p>(&order), Err(FromBytesError));
    assert_eq!(from_bytes::<F2>(&[2]), Err(FromBytesError));
    assert_eq!(from_bytes::<F2>(&[0]), Ok(F2::zero()));
    assert_eq!(from_bytes::<F40b>(&[0xff; 5]), Ok(F40b::new(0xff_ffff_ffff)));
}

#[test]
fn a_role_decides_which_factor_comes_first() {
    let (lhs, rhs) = ([F2::one(), F2::zero()], [F2::zero(), F2::zero()]);
    let first = cross_term_bits(PeerRole::First, &lhs, &rhs);
    assert_eq!(first, (lhs.to_vec(), rhs.to_vec()));
    let second = cross_term_bits(PeerRole::Second, &lhs, &rhs);
    assert_eq!(second, (rhs.to_vec(), lhs.to_vec()));
}

#[test]
fn a_shuffle_is_one_cycle() {
    let mut rng = StdRng::seed_from_u64(77);
    for len in 2..40usize {
        let mut v: Vec<usize> = (0..len).collect();
        generate_permutation(&mut rng, &mut v);
        assert!(v.iter().enumerate().all(|(i, x)| i != *x));
        let (mut at, mut steps) = (v[0], 1);
        while at != 0 {
            at = v[at];
            steps += 1;
        }
        assert_eq!(steps, len);
    }
}


#[test]
fn correlated_products_differ_by_delta_times_the_input() {
    let delta = F61p::new(0x1234_5678_9abc_def);
    let mut sender = diet_mac_and_cheese::copee::SpdzCopeeSender::<F61p>::init();
    let mut receiver = diet_mac_and_cheese::copee::SpdzCopeeReceiver::init_with_delta(delta);
    for n in 1..5u64 {
        assert_eq!(sender.block(), (n - 1) as u128);
        assert_eq!(receiver.block(), (n - 1) as u128);
        let w0: Vec<F61p> = (0..61).map(|k| F61p::new(k * 1_000_003 + n)).collect();
        let w1: Vec<F61p> = (0..61).map(|k| F61p::new(k * 7_654_321 + 5 * n)).collect();
        let chosen: Vec<F61p> = receiver
            .choices()
            .iter()
            .enumerate()
            .map(|(k, c)| if *c { w1[k] } else { w0[k] })
            .collect();
        let input = F61p::new(n * 17);
        let (sent, kept) = sender.send(&w0, &w1, input);
        let received = receiver.receive(&chosen, &sent);
        assert_eq!(received, kept.sub(delta.mul(input)));
    }
}

#[test]
fn wrong_openings_fail_the_mac_check() {
    let first = SpdzFieldBackend::init(F61p::new(111));
    let second = SpdzFieldBackend::init(F61p::new(222));
    let value = F61p::new(9);
    let term = F61p::new(1000);
    let received = term.sub(F61p::new(222).mul(value));
    let remote = F61p::new(4);
    let s = first.input_owned_values(&[value], &[remote], &[term]);
    let t = second.receive_shared_values(&[remote], &[received]);
    assert_eq!(s[0].share.add(t[0].share), value);
    let chi = F61p::new(31);
    let sum = first.mac_check(&s, &[value], chi).add(second.mac_check(&t, &[value], chi));
    assert_eq!(sum, F61p::zero());
    let wrong = F61p::new(10);
    let off = first.mac_check(&s, &[wrong], chi).add(second.mac_check(&t, &[wrong], chi));
    assert_eq!(off, F61p::new(333).neg());
}

#[test]
fn spdz_operations_are_linear() {
    let s = SpdzAuthenticatedShare::<F61p>::new(F61p::new(3), F61p::new(30));
    let sum = add_spdz_shares(s, s);
    assert_eq!((sum.share.value(), sum.mac.value()), (6, 60));
    let scaled = scale_spdz_share(s, F61p::new(5));
    assert_eq!((scaled.share.value(), scaled.mac.value()), (15, 150));
    let alpha = F40b::new(0x77);
    let bit = SpdzAuthenticatedShare::<F40b>::new(b(0), F40b::new(8));
    let first = add_bit_const(PeerRole::First, alpha, bit, b(1));
    assert_eq!((first.share, first.mac), (b(1), F40b::new(0x7f)));
    let second = add_bit_const(PeerRole::Second, alpha, bit, b(1));
    assert_eq!((second.share, second.mac), (b(0), F40b::new(0x7f)));
}

#[test]
fn powers_of_two_start_with_one() {
    assert_eq!(gen_powers_of_two::<F61p>(0), vec![F61p::one()]);
    let powers: Vec<u64> = gen_powers_of_two::<F61p>(4).iter().map(|p| p.value()).collect();
    assert_eq!(powers, vec![1, 2, 4, 8]);
}

#[test]
fn nothing_is_drawn_for_fewer_than_two_elements() {
    let mut rng = StdRng::seed_from_u64(5);
    let untouched = rng.clone();
    let (mut one, mut none) = (vec![7], Vec::<u8>::new());
    generate_permutation(&mut rng, &mut one);
    generate_permutation(&mut rng, &mut none);
    assert_eq!(one, vec![7]);
    assert!(none.is_empty());
    assert!(rng == untouched);
    let mut two = vec![10, 20];
    generate_permutation(&mut rng, &mut two);
    assert_eq!(two, vec![20, 10]);
    assert!(rng != untouched);
}

#[test]
fn kept_items_stand_outside_the_cut() {
    let mut rng = StdRng::seed_from_u64(6);
    let (num, num_bucket, num_cut) = (4usize, 3usize, 2usize);
    let mut items: Vec<usize> = (0..num * num_bucket + num_cut).collect();
    generate_permutation(&mut rng, &mut items);
    let kept: Vec<usize> = (0..num).map(|i| items[num_cut + i * num_bucket]).collect();
    for (i, k) in kept.iter().enumerate() {
        assert!(!items[..num_cut].contains(k));
        assert!(!kept[..i].contains(k));
    }
}

#[test]
fn sources_seed_themselves_anew() {
    let mut source: DabitSource<u8, u16> = DabitSource::new(2, 5);
    let mut steps = Vec::new();
    assert_eq!(source.seed_length(), 2);
    assert_eq!(source.seed(), (&vec![], &vec![]));
    for i in 0..9u8 {
        let step = source.next_step();
        steps.push(step);
        match step {
            SourceStep::Output => source.gen_dabit(),
            _ => {
                source.gen_seed(vec![i, i + 1], vec![7, i as u16]);
                assert_eq!(source.seed(), (&vec![i, i + 1], &vec![7, i as u16]));
            }
        }
        assert_eq!((source.seed().0.len(), source.seed().1.len()), (2, 2));
    }
    let expected = vec![
        SourceStep::FreshSeed,
        SourceStep::Output,
        SourceStep::Output,
        SourceStep::Output,
        SourceStep::Reseed,
        SourceStep::Output,
        SourceStep::Output,
        SourceStep::Output,
        SourceStep::Reseed,
    ];
    assert_eq!(steps, expected);
}

#[test]
fn higher_degree_values_belong_to_their_keys() {
    let delta = F61p::new(1_000_000_007);
    let (value, key) = (F61p::new(6), F61p::new(77));
    let low = MacProver::new(value, delta.mul(value).add(key));
    let raised = HDMacProver::<F61p, 3>::from(low);
    let raised_key = HDMacVerifier::from(MacVerifier::new(key));
    let holds = |p: &HDMacProver<F61p, 3>, k: &HDMacVerifier<F61p>| {
        let mut value = F61p::zero();
        for c in p.coefficients().iter().rev() {
            value = value.mul(delta).add(*c);
        }
        let mut expected = k.mac;
        for _ in k.qs_degree..3 {
            expected = expected.mul(delta);
        }
        value == expected
    };
    assert_eq!(raised.value(), value);
    assert!(holds(&raised, &raised_key));
    let cubic = HDMacProver::<F61p, 3>::new((1..5).map(F61p::new).collect());
    let d = delta;
    let at_delta = F61p::new(1)
        .add(F61p::new(2).mul(d))
        .add(F61p::new(3).mul(d).mul(d))
        .add(F61p::new(4).mul(d).mul(d).mul(d));
    let cubic_key = HDMacVerifier { mac: at_delta, qs_degree: 3 };
    assert!(holds(&cubic, &cubic_key));
    let (sum, sum_key) = (raised.add(&cubic), raised_key.add(delta, &cubic_key));
    assert_eq!(sum.value().value(), 10);
    assert!(holds(&sum, &sum_key));
    let (difference, difference_key) = (raised.sub(&cubic), raised_key.sub(delta, &cubic_key));
    assert_eq!(difference.value().value(), 2);
    assert!(holds(&difference, &difference_key));
    let c = F61p::new(100);
    let shifted = raised.add_constant(c);
    assert_eq!(shifted.value().value(), 106);
    assert!(holds(&shifted, &raised_key.add_constant(delta, c)));
    let scaled = raised.mul_constant(c);
    assert_eq!(scaled.value().value(), 600);
    assert!(holds(&scaled, &raised_key.mul_constant(c)));
}

#[test]
fn commands_yield_their_trimmed_text() {
    let run = |success: bool, stdout: &[u8]| {
        try_run_command(Some(CommandOutput { success, stdout: stdout.to_vec() }))
    };
    assert_eq!(run(true, b"  host one\n"), text("host one"));
    assert_eq!(run(false, b"host"), None);
    assert_eq!(run(true, b" \t\n"), None);
    assert_eq!(run(true, b""), None);
    assert_eq!(run(true, &[0xff, 0xfe]), None);
    assert_eq!(try_run_command(None), None);
    assert_eq!(run_command(b"\xc3\xa9t\xc3\xa9 \n".to_vec()), "\u{e9}t\u{e9}");
    assert_eq!(run_command(b"\n".to_vec()), "");
}

#[test]
fn names_fall_back() {
    assert_eq!(username_from_env(text("ada"), text("bob")), text("ada"));
    assert_eq!(username_from_env(text(""), text("bob")), text("bob"));
    assert_eq!(username_from_env(None, text("")), None);
    assert_eq!(get_username(text("ada"), text("who")), "ada");
    assert_eq!(get_username(None, text("who")), "who");
    assert_eq!(get_username(None, None), "unknown");
    assert_eq!(hostname_from_system(text("box\n"), text("var")), text("box"));
    assert_eq!(hostname_from_system(text(" \n"), text("var")), text("var"));
    assert_eq!(hostname_from_system(None, text("")), None);
    assert_eq!(get_hostname(None, text("cmd")), "cmd");
    assert_eq!(get_hostname(text("box"), None), "box");
    assert_eq!(get_hostname(None, None), "unknown");
}

#[test]
fn every_kind_of_whitespace_is_trimmed() {
    let listed = |n: u32| {
        matches!(
            n,
            0x9..=0xd | 0x20 | 0x85 | 0xa0 | 0x1680 | 0x2000..=0x200a | 0x2028 | 0x2029 | 0x202f
                | 0x205f | 0x3000
        )
    };
    for n in 0..=0x10_ffffu32 {
        if let Some(c) = char::from_u32(n) {
            let line = format!("{c}x{c}");
            let expected = if listed(n) { "x".to_owned() } else { line.clone() };
            assert_eq!(run_command(line.into_bytes()), expected);
        }
    }
}

#[test]
fn timestamps_fall_back_to_seconds() {
    assert_eq!(get_timestamp(text("a"), text("b"), Some(1)), "a");
    assert_eq!(get_timestamp(None, text("b"), Some(1)), "b");
    assert_eq!(get_timestamp(None, None, Some(1_700_000_000)), "1700000000");
    assert_eq!(get_timestamp(None, None, Some(0)), "0");
    assert_eq!(get_timestamp(None, None, None), "0");
}

#[test]
fn command_lines_are_cut_at_zero_bytes() {
    let args = vec!["x".to_owned()];
    let read = |bytes: &[u8]| get_cmdline(Some(bytes.to_vec()), args.clone());
    assert_eq!(read(b"bench\0--flag\0\0"), vec!["bench", "--flag", ""]);
    assert_eq!(read(b"ab\0cd"), vec!["ab", "c"]);
    assert_eq!(read(b""), args);
    assert_eq!(get_cmdline(None, args.clone()), args);
}

#[test]
fn records_hold_their_parts() {
    let record = BenchmarkMetaData::collect(
        "host".to_owned(),
        "user".to_owned(),
        "now".to_owned(),
        vec!["a".to_owned()],
        7,
        "abc".to_owned(),
    );
    assert_eq!(record.hostname, "host");
    assert_eq!(record.username, "user");
    assert_eq!(record.timestamp, "now");
    assert_eq!(record.cmdline, vec!["a"]);
    assert_eq!(record.pid, 7);
    assert_eq!(record.git_version, "abc");
}

#[test]
fn parties_and_fields_have_names() {
    assert_eq!(Party::Prover.to_string(), "Prover");
    assert_eq!(Party::Verifier.to_string(), "Verifier");
    assert_eq!(Party::Both.to_string(), "Both");
    assert_eq!(FieldParameter::F40b.to_string(), "F40b");
    assert_eq!(FieldParameter::F61p.to_string(), "F61p");
}

#[test]
fn connections_are_planned() {
    let options = NetworkOptions::default();
    assert_eq!(options.host, "localhost");
    assert_eq!(options.port, 1337);
    let mut connecting = setup_network(&options);
    assert_eq!(connecting.host(), "localhost");
    assert_eq!(connecting.port(), 1337);
    for _ in 0..1000 {
        assert_eq!(connecting.next_step(), NetworkStep::Connect);
        connecting.advance(false);
    }
    assert_eq!(connecting.next_step(), NetworkStep::LastConnect);
    connecting.advance(false);
    assert_eq!(connecting.next_step(), NetworkStep::Failed);
    connecting.advance(true);
    assert_eq!(connecting.next_step(), NetworkStep::Failed);
}

#[test]
fn connecting_stops_at_the_first_success() {
    for failures in 0..11 {
        let options = NetworkOptions { connect_timeout_seconds: 1, ..NetworkOptions::default() };
        let mut setup = setup_network(&options);
        for _ in 0..failures {
            setup.advance(false);
        }
        let last = failures == 10;
        let step = if last { NetworkStep::LastConnect } else { NetworkStep::Connect };
        assert_eq!(setup.next_step(), step);
        setup.advance(true);
        assert_eq!(setup.next_step(), NetworkStep::Connected);
        setup.advance(false);
        assert_eq!(setup.next_step(), NetworkStep::Connected);
    }
    let options = NetworkOptions { connect_timeout_seconds: 0, ..NetworkOptions::default() };
    assert_eq!(setup_network(&options).next_step(), NetworkStep::LastConnect);
}

#[test]
fn listening_binds_and_accepts() {
    for (bound, accepted) in [(true, true), (true, false), (false, true)] {
        let options = NetworkOptions {
            listen: true,
            connect_timeout_seconds: usize::MAX,
            ..NetworkOptions::default()
        };
        let mut setup = setup_network(&options);
        assert_eq!(setup.next_step(), NetworkStep::Bind);
        setup.advance(bound);
        if bound {
            assert_eq!(setup.next_step(), NetworkStep::Accept);
            setup.advance(accepted);
        }
        let end =
            if bound && accepted { NetworkStep::Connected } else { NetworkStep::Failed };
        assert_eq!(setup.next_step(), end);
    }
}

#[test]
fn attempts_are_counted() {
    assert_eq!(next_attempt(0, 10), AttemptStep::WaitAndRetry);
    assert_eq!(next_attempt(9, 10), AttemptStep::WaitAndRetry);
    assert_eq!(next_attempt(10, 10), AttemptStep::LastTry);
    assert_eq!(next_attempt(11, 10), AttemptStep::GiveUp);
    assert_eq!(next_attempt(0, 0), AttemptStep::LastTry);
}
