use monad_runtime::chain::types::RegistrationCall;
use monad_runtime::dkg::error::DkgError;
use monad_runtime::dkg::ids::{Address, Epoch, NodeId, PartyId, SeqNum};
use monad_runtime::dkg::keys::{derive_valid_key, valid_secret_key, DkgLocalKeyMaterial};
use monad_runtime::dkg::local_registration::{
    LocalRegistration, LocalRegistrationAction, RegistrationConflict, RegistrationStart,
};
use monad_runtime::dkg::recovery::{RecoveredRecord, RecoveryState, RegistrationPlan};
use monad_runtime::dkg::registration::{
    assemble_registered_session, assemble_registered_snapshot, check_local_registration,
    check_registered_material, verify_registration, CheckedRegistration, DkgValidator,
    EngineBuildError, LocalPublicKeys, ProofCheck, RegisteredKeyMaterial, RegistrationError,
};
use monad_runtime::dkg::start::{
    dkg_failpoint_names, plan_runner, plan_session, require_fault_tolerance, DkgOutputCount,
    DKG_OUTPUT_COUNT,
};
use monad_runtime::dkg::weights::{decode_voting_weights, Stake, WEI_PER_MON};

const EPOCH: Epoch = Epoch(17);

fn node(index: u8) -> NodeId {
    NodeId {
        key: [index + 1; 33],
    }
}

fn address(byte: u8) -> Address {
    Address { bytes: [byte; 20] }
}

fn mon(count: u64) -> Stake {
    Stake {
        high: 0,
        low: u128::from(count) * u128::from(WEI_PER_MON),
    }
}

fn validator(index: u8, account: u8) -> DkgValidator {
    DkgValidator {
        node_id: node(index),
        address: address(account),
        stake: mon(1),
    }
}

fn keys(index: u8) -> LocalPublicKeys {
    LocalPublicKeys {
        receiver_public_key: [index + 0x20; 33],
        qc_verifier: address(index + 0x40),
    }
}

fn registration(account: u8, index: u8) -> CheckedRegistration {
    let keys = keys(index);
    CheckedRegistration {
        call: RegistrationCall {
            address: address(account),
            qc_verifier: keys.qc_verifier,
            receiver_public_key: keys.receiver_public_key,
            receiver_proof_nonce: EPOCH.0,
            receiver_proof: [9; 64],
        },
        check: ProofCheck::Valid,
    }
}

fn local_call(account: Address) -> RegistrationCall {
    RegistrationCall {
        address: account,
        qc_verifier: address(1),
        receiver_public_key: [2; 33],
        receiver_proof_nonce: 0,
        receiver_proof: [3; 64],
    }
}

#[test]
fn assembles_registered_parties_in_canonical_address_order() {
    let addresses = [4, 1, 3, 2];
    let validators = (0..4)
        .map(|index| validator(index, addresses[index as usize]))
        .collect::<Vec<_>>();
    let registrations = (0..4)
        .rev()
        .map(|index| registration(addresses[index as usize], index))
        .collect::<Vec<_>>();

    let session =
        assemble_registered_session(EPOCH, &node(0), &validators, Ok(keys(0)), &registrations)
            .unwrap();

    assert_eq!(
        session
            .iter()
            .map(|party| party.registration.address.bytes)
            .collect::<Vec<_>>(),
        vec![[1; 20], [2; 20], [3; 20], [4; 20]]
    );
    assert_eq!(
        session
            .iter()
            .map(|party| party.node_id.key)
            .collect::<Vec<_>>(),
        vec![node(1).key, node(3).key, node(2).key, node(0).key]
    );
}

#[test]
fn intersects_registrations_with_finalized_validators() {
    let validators = (0..4)
        .map(|index| validator(index, index + 1))
        .collect::<Vec<_>>();
    let registrations = [0u8, 1, 2, 4]
        .into_iter()
        .map(|index| registration(index + 1, index))
        .collect::<Vec<_>>();

    let session =
        assemble_registered_session(EPOCH, &node(0), &validators, Ok(keys(0)), &registrations)
            .unwrap();

    assert_eq!(
        session
            .iter()
            .map(|party| party.node_id.key)
            .collect::<Vec<_>>(),
        vec![node(0).key, node(1).key, node(2).key]
    );
    assert_eq!(
        session
            .iter()
            .map(|party| party.registration.address.bytes)
            .collect::<Vec<_>>(),
        vec![[1; 20], [2; 20], [3; 20]]
    );
}

#[test]
fn assembly_refuses_bad_validators_and_keys() {
    let twice = vec![validator(0, 1), validator(1, 1)];
    assert!(matches!(
        assemble_registered_session(
            EPOCH,
            &node(0),
            &twice,
            Ok(keys(0)),
            &vec![registration(1, 0)]
        ),
        Err(RegistrationError::DuplicateValidatorAddress { .. })
    ));
    let validators = vec![validator(0, 1), validator(1, 2)];
    assert!(matches!(
        assemble_registered_session(EPOCH, &node(0), &validators, Ok(keys(0)), &Vec::new()),
        Err(RegistrationError::NoEligibleValidator)
    ));
    assert!(matches!(
        assemble_registered_session(
            EPOCH,
            &node(0),
            &validators,
            Ok(keys(1)),
            &vec![registration(1, 0)]
        ),
        Err(RegistrationError::ReceiverKeyMismatch)
    ));
    let mut verifier = keys(0);
    verifier.qc_verifier = address(0x77);
    assert!(matches!(
        assemble_registered_session(
            EPOCH,
            &node(0),
            &validators,
            Ok(verifier),
            &vec![registration(1, 0)]
        ),
        Err(RegistrationError::QcVerifierMismatch)
    ));
    assert!(matches!(
        assemble_registered_session(
            EPOCH,
            &node(0),
            &validators,
            Err(DkgError::Unsupported("keys")),
            &vec![registration(1, 0)]
        ),
        Err(RegistrationError::LocalKeys(DkgError::Unsupported("keys")))
    ));
    assert!(matches!(
        assemble_registered_snapshot(EPOCH, &node(0), &validators, Ok(keys(0)), &vec![None]),
        Err(RegistrationError::RegistrationCountMismatch {
            expected: 2,
            actual: 1
        })
    ));
}

#[test]
fn unverified_registrations_are_refused() {
    let mut checked = registration(1, 0);
    assert!(verify_registration(address(1), EPOCH, &checked).is_ok());
    assert!(matches!(
        verify_registration(address(2), EPOCH, &checked),
        Err(RegistrationError::AddressMismatch { .. })
    ));
    checked.check = ProofCheck::Undecodable;
    assert!(matches!(
        verify_registration(address(1), EPOCH, &checked),
        Err(RegistrationError::Decode { .. })
    ));
    checked.check = ProofCheck::Unverifiable;
    assert!(matches!(
        verify_registration(address(1), EPOCH, &checked),
        Err(RegistrationError::Verification { .. })
    ));
    checked.check = ProofCheck::Invalid;
    assert!(matches!(
        verify_registration(address(1), EPOCH, &checked),
        Err(RegistrationError::InvalidReceiverProof {
            epoch: EPOCH,
            ..
        })
    ));
    assert!(
        check_local_registration(address(1), EPOCH, &registration(1, 0), Ok(keys(0))).is_ok()
    );
    assert!(
        check_local_registration(address(1), EPOCH, &registration(1, 0), Ok(keys(2))).is_err()
    );
}

#[test]
fn engine_material_has_one_key_per_party() {
    let material = || RegisteredKeyMaterial {
        receiver_public_keys: vec![keys(0).receiver_public_key, keys(1).receiver_public_key],
        qc_verifiers: vec![keys(0).qc_verifier, keys(1).qc_verifier],
        addresses: vec![address(1), address(2)],
    };
    assert!(check_registered_material(&material(), PartyId(1), 2, &keys(1)).is_ok());
    assert!(matches!(
        check_registered_material(&material(), PartyId(0), 2, &keys(1)),
        Err(EngineBuildError::ReceiverKeyMismatch)
    ));
    assert!(matches!(
        check_registered_material(&material(), PartyId(2), 2, &keys(1)),
        Err(EngineBuildError::PartyOutOfRange {
            party: 2,
            party_count: 2
        })
    ));
    let mut short = material();
    short.qc_verifiers.pop();
    assert!(matches!(
        check_registered_material(&short, PartyId(1), 2, &keys(1)),
        Err(EngineBuildError::MaterialLength {
            actual: 1,
            expected: 2,
            ..
        })
    ));
    let mut other = keys(1);
    other.qc_verifier = address(0x77);
    assert!(matches!(
        check_registered_material(&material(), PartyId(1), 2, &other),
        Err(EngineBuildError::QcKeyMismatch)
    ));
}

#[test]
fn local_key_derivation_is_stable_and_domain_separated() {
    let first = DkgLocalKeyMaterial::derive([7; 32]).unwrap();
    let second = DkgLocalKeyMaterial::derive([7; 32]).unwrap();
    assert!(first.same(&second));
    assert_ne!(first.receiver_secret_key, first.qc_signing_key);
    assert!(!first.same(&DkgLocalKeyMaterial::derive([8; 32]).unwrap()));
}

#[test]
fn local_key_material_zeroizes() {
    let mut keys = DkgLocalKeyMaterial::derive([7; 32]).unwrap();
    keys.zeroize();
    assert_eq!(keys.receiver_secret_key, [0; 32]);
    assert_eq!(keys.qc_signing_key, [0; 32]);
}

#[test]
fn secret_keys_lie_within_the_group_order() {
    assert!(!valid_secret_key(&[0; 32]));
    assert!(!valid_secret_key(&[0xFF; 32]));
    let mut one = [0; 32];
    one[31] = 1;
    assert!(valid_secret_key(&one));
    let order = [
        0xFF, 0xFF, 0xFF, 0xFF, 0xFF, 0xFF, 0xFF, 0xFF, 0xFF, 0xFF, 0xFF, 0xFF, 0xFF, 0xFF, 0xFF,
        0xFE, 0xBA, 0xAE, 0xDC, 0xE6, 0xAF, 0x48, 0xA0, 0x3B, 0xBF, 0xD2, 0x5E, 0x8C, 0xD0, 0x36,
        0x41, 0x41,
    ];
    assert!(!valid_secret_key(&order));
    let mut below = order;
    below[31] = 0x40;
    assert!(valid_secret_key(&below));
}

#[test]
fn derived_keys_hash_the_seed_and_a_counter() {
    let key = derive_valid_key(&[7; 32], "monad/dkg/receiver-key").unwrap();
    let mut material = [7u8; 32].to_vec();
    material.extend_from_slice(&0u32.to_le_bytes());
    assert_eq!(
        key,
        blake3::derive_key("monad/dkg/receiver-key", &material)
    );
}

#[test]
fn encoded_registration_is_reused_from_recovery_wal() {
    let created = vec![0x11, 0x22];
    let mut state = RecoveryState::new();
    let Ok(RegistrationPlan::Append(first)) = state.plan_registration(created.clone()) else {
        panic!("a new registration is appended")
    };
    assert!(state
        .apply(RecoveredRecord::Registration(first.clone()))
        .is_ok());
    let Ok(RegistrationPlan::Reuse(second)) = state.plan_registration(vec![0x33]) else {
        panic!("the log holds a registration")
    };

    assert_eq!(first, second);
}

#[test]
fn registration_transitions_depend_only_on_observations() {
    let address = address(0x11);
    let local = local_call(address);
    let mut state = LocalRegistration::new(address);

    assert!(matches!(
        state.start_epoch(Epoch(7)),
        RegistrationStart::Started { previous: None }
    ));
    let first = state.next_read(SeqNum(10)).unwrap();
    assert!(matches!(
        state.observe(first, None, local).unwrap(),
        LocalRegistrationAction::Submit { .. }
    ));

    let retry = state.next_read(SeqNum(11)).unwrap();
    assert!(matches!(
        state.observe(retry, None, local).unwrap(),
        LocalRegistrationAction::Retry { .. }
    ));

    let confirmed = state.next_read(SeqNum(12)).unwrap();
    assert!(matches!(
        state.observe(confirmed, Some(local), local).unwrap(),
        LocalRegistrationAction::Confirm { .. }
    ));
    assert!(state.next_read(SeqNum(13)).is_none());
}

#[test]
fn unavailable_read_is_retried_at_the_same_block() {
    let mut state = LocalRegistration::new(address(0x11));
    state.start_epoch(Epoch(7));
    let read = state.next_read(SeqNum(10)).unwrap();

    state.read_failed(read);

    let again = state.next_read(SeqNum(12)).unwrap();
    assert_eq!(again.block, read.block);
    assert_eq!(again.epoch, read.epoch);
    assert_eq!(again.address.bytes, read.address.bytes);
}

#[test]
fn conflicting_registrations_stop_the_submission() {
    let account = address(0x11);
    let mut state = LocalRegistration::new(account);
    state.start_epoch(Epoch(7));
    assert!(matches!(
        state.start_epoch(Epoch(7)),
        RegistrationStart::Ignored
    ));
    let read = state.next_read(SeqNum(10)).unwrap();
    let mut other = local_call(account);
    other.receiver_proof_nonce = 9;
    assert_eq!(
        state.observe(read, Some(other), local_call(account)).err(),
        Some(RegistrationConflict)
    );
    assert!(matches!(
        state.start_epoch(Epoch(8)),
        RegistrationStart::Started {
            previous: Some(Epoch(7))
        }
    ));
    assert_eq!(state.epoch(), Some(Epoch(8)));
    assert!(!state.close(Epoch(7)));
    assert!(state.close(Epoch(8)));
}

#[test]
fn voting_weights_round_wei_to_nearest_mon() {
    let unit = u128::from(WEI_PER_MON);
    let stake = |low: u128| Stake { high: 0, low };
    assert_eq!(
        decode_voting_weights(&vec![
            stake(unit * 4 + unit * 49 / 100),
            stake(unit * 3 + unit / 2),
            stake(unit * 2 - 1),
        ])
        .unwrap(),
        vec![4, 4, 2]
    );

    assert!(decode_voting_weights(&vec![stake(unit / 3)]).is_err());
    assert!(decode_voting_weights(&vec![Stake { high: 1, low: 0 }]).is_err());
}

fn parties(count: u8) -> Vec<monad_runtime::dkg::registration::RegisteredParty> {
    let validators = (0..count)
        .map(|index| validator(index, index + 1))
        .collect::<Vec<_>>();
    let registrations = (0..count)
        .map(|index| registration(index + 1, index))
        .collect::<Vec<_>>();
    assemble_registered_session(EPOCH, &node(0), &validators, Ok(keys(0)), &registrations).unwrap()
}

#[test]
fn session_accepts_one_and_two_validator_sets_without_fault_tolerance() {
    for count in [1, 2] {
        let plan = plan_session(&node(0), &parties(count)).unwrap();

        let plan = plan.expect("the node is a party");
        assert_eq!(plan.self_party, PartyId(0));
        assert_eq!(plan.peers.len(), usize::from(count));
        assert_eq!(plan.voting_weights, vec![1; usize::from(count)]);
    }
}

#[test]
fn nodes_that_are_no_party_have_no_session() {
    assert!(plan_session(&node(5), &parties(2)).unwrap().is_none());
    let mut twice = parties(2);
    twice[1].node_id = twice[0].node_id;
    assert!(matches!(
        plan_session(&node(0), &twice),
        Err(DkgError::DuplicateValidator)
    ));
    let mut poor = parties(2);
    poor[1].stake = Stake { high: 0, low: 1 };
    assert!(matches!(
        plan_session(&node(0), &poor),
        Err(DkgError::Operation { .. })
    ));
}

#[test]
fn runner_refuses_one_and_two_validator_sets() {
    for count in [1usize, 2] {
        let validators = (0..count as u8).map(node).collect();
        let result = plan_runner(&node(0), validators);

        assert!(matches!(
            result,
            Err(DkgError::InsufficientValidators {
                actual,
                minimum: 4
            }) if actual == count
        ));
    }
    assert!(require_fault_tolerance(4).is_ok());
}

#[test]
fn registers_all_dkg_failpoints() {
    assert_eq!(
        dkg_failpoint_names(),
        [
            "dkg.chain.call_buffered",
            "dkg.chain.event_buffered",
            "dkg.network.outgoing_persisted",
            "dkg.peer.engine_applied",
            "dkg.peer.input_persisted",
            "dkg.registration.loaded",
            "dkg.session.seed_persisted",
        ]
    );
}

#[test]
fn output_counts_are_powers_of_two() {
    let count = DkgOutputCount::new(DKG_OUTPUT_COUNT);
    assert_eq!(count.get(), 256);
    assert_eq!(count.max_ladder_level(), 8);
}

#[test]
fn runners_need_enough_validators() {
    let nodes = |count: u8| (0..count).map(node).collect::<Vec<_>>();
    let plan = plan_runner(&node(2), nodes(4)).unwrap().unwrap();
    assert_eq!(plan.self_party, PartyId(2));
    assert!(matches!(
        plan_runner(&node(2), nodes(3)),
        Err(DkgError::InsufficientValidators {
            actual: 3,
            minimum: 4
        })
    ));
    // A node that is no validator has no session, however few there are.
    assert!(plan_runner(&node(9), nodes(3)).unwrap().is_none());
    let mut twice = nodes(4);
    twice.push(node(1));
    assert!(matches!(
        plan_runner(&node(9), twice),
        Err(DkgError::DuplicateValidator)
    ));
}
