use avs_contributor::contributor::{
    Action, AggregationInput, Contributor, PartialOutcome, StartAggregation, StartOutcome,
};
use avs_contributor::session::Session;
use avs_contributor::wire::{decode, encode, Message, Payload};

/// 32-byte big-endian scalar for a small test seed.
fn sk_bytes(seed: u64) -> Vec<u8> {
    let mut b = vec![0u8; 32];
    b[24..32].copy_from_slice(&seed.to_be_bytes());
    b
}

/// Deterministic test keypair: private-key bytes and compressed public key.
fn test_keypair(seed: u64) -> (Vec<u8>, Vec<u8>) {
    let sk = sk_bytes(seed);
    let key = bn254::PrivateKey::try_from(&sk[..]).expect("private key");
    let pk = bn254::PublicKey::from_private_key(&key);
    (sk, pk.to_compressed().expect("compressed key"))
}

fn g1_of(sk: &[u8]) -> Vec<u8> {
    let key = bn254::PrivateKey::try_from(sk).expect("private key");
    bn254::PublicKeyG1::from_private_key(&key)
        .to_compressed()
        .expect("compressed g1 key")
}

/// The test validator: the canonical bytes of a round are the encoding of
/// its `Start` message, whatever payload the inbound message carried.
fn canonical_hash(msg: &Message) -> Vec<u8> {
    encode(&Message {
        round: msg.round,
        metadata: msg.metadata.clone(),
        payload: Some(Payload::Start),
    })
}

fn sign_canon(sk: &[u8], canon: &[u8]) -> Vec<u8> {
    let key = bn254::PrivateKey::try_from(sk).expect("private key");
    bn254::ECDSA::sign(canon, &key)
        .expect("sign")
        .to_compressed()
        .expect("compressed signature")
}

fn bls_verify_raw(pk: &[u8], msg: &[u8], sig: &[u8]) -> bool {
    let k = bn254::PublicKey::from_compressed(pk).expect("public key");
    let s = bn254::Signature::from_compressed(sig).expect("signature");
    bn254::ECDSA::verify(msg, &s, &k).is_ok()
}

/// A committee of four members sorted by key bytes (self is the smallest),
/// a disjoint orchestrator, and the members' private keys in sorted order.
struct Committee {
    orchestrator_pk: Vec<u8>,
    member_sks: Vec<Vec<u8>>,
    member_pks: Vec<Vec<u8>>,
}

fn committee() -> Committee {
    let mut pairs: Vec<(Vec<u8>, Vec<u8>)> = (101u64..105).map(test_keypair).collect();
    pairs.sort_by(|a, b| a.1.cmp(&b.1));
    let (_, orchestrator_pk) = test_keypair(200);
    Committee {
        orchestrator_pk,
        member_sks: pairs.iter().map(|p| p.0.clone()).collect(),
        member_pks: pairs.iter().map(|p| p.1.clone()).collect(),
    }
}

fn aggregator(com: &Committee, threshold: usize) -> Contributor {
    let g1_map = com
        .member_sks
        .iter()
        .zip(com.member_pks.iter())
        .map(|(sk, pk)| (pk.clone(), g1_of(sk)))
        .collect();
    Contributor::new(
        com.orchestrator_pk.clone(),
        com.member_sks[0].clone(),
        com.member_pks.clone(),
        Some(AggregationInput::new(threshold, g1_map)),
    )
    .expect("contributor")
}

fn start_message(round: u64) -> Message {
    Message {
        round,
        metadata: vec![77, 1, 2],
        payload: Some(Payload::Start),
    }
}

fn partial_message(round: u64, sig: Vec<u8>) -> Message {
    Message {
        round,
        metadata: vec![77, 1, 2],
        payload: Some(Payload::Signature(sig)),
    }
}

/// Runs the orchestrator `Start` through dispatch and the signing handler,
/// returning the broadcast bytes.
fn run_start(node: &Contributor, session: &mut Session, round: u64) -> Vec<u8> {
    let raw = encode(&start_message(round));
    let msg = decode(&raw).expect("decode");
    let orch = node.orchestrator.clone();
    assert!(matches!(
        node.dispatch(session, &orch, &msg),
        Action::HashForStart
    ));
    let hash = canonical_hash(&msg);
    match node.handle_start(session, &orch, &msg, &hash) {
        StartOutcome::Broadcast(b, _) => b,
        _ => panic!("expected broadcast"),
    }
}

/// Runs a peer partial through dispatch and the accumulation handler.
fn run_partial(
    node: &Contributor,
    session: &mut Session,
    sender: &Vec<u8>,
    msg: &Message,
) -> PartialOutcome {
    match node.dispatch(session, sender, msg) {
        Action::HashForPartial => {
            let hash = canonical_hash(msg);
            node.handle_partial(session, sender, msg, &hash)
        }
        Action::Ignore => PartialOutcome::Ignored,
        Action::HashForStart => panic!("unexpected start"),
    }
}

#[test]
fn happy_path_reaches_threshold_and_aggregates() {
    let com = committee();
    let node = aggregator(&com, 3);
    let mut session = Session::new();

    // orchestrator opens round 7; the node broadcasts its own partial
    let broadcast = run_start(&node, &mut session, 7);
    let reply = decode(&broadcast).expect("decode reply");
    assert_eq!(reply.round, 7);
    let own_sig = match reply.payload {
        Some(Payload::Signature(s)) => s,
        _ => panic!("expected signature payload"),
    };
    // the emitted partial verifies against the canonical hash of the Start
    let canon = canonical_hash(&start_message(7));
    assert!(bls_verify_raw(&com.member_pks[0], &canon, &own_sig));

    // two peers contribute their partials
    let m1 = partial_message(7, sign_canon(&com.member_sks[1], &canon));
    match run_partial(&node, &mut session, &com.member_pks[1], &m1) {
        PartialOutcome::Accepted(count) => assert_eq!(count, 2),
        _ => panic!("expected accepted"),
    }
    let m2 = partial_message(7, sign_canon(&com.member_sks[2], &canon));
    let ev = match run_partial(&node, &mut session, &com.member_pks[2], &m2) {
        PartialOutcome::Aggregated(ev) => ev,
        _ => panic!("expected aggregation"),
    };
    assert_eq!(ev.round, 7);
    assert_eq!(ev.payload, canon);
    assert_eq!(
        ev.participating,
        vec![
            com.member_pks[0].clone(),
            com.member_pks[1].clone(),
            com.member_pks[2].clone()
        ]
    );
    assert_eq!(ev.participating_g1.len(), 3);
    // the aggregate verifies against the sum of the participating keys
    let sum = bn254::PublicKey::from_compressed(&ev.participating[0]).unwrap()
        + bn254::PublicKey::from_compressed(&ev.participating[1]).unwrap();
    let sum = sum + bn254::PublicKey::from_compressed(&ev.participating[2]).unwrap();
    let agg = bn254::Signature::from_compressed(&ev.signature).unwrap();
    assert!(bn254::ECDSA::verify(&canon, &agg, &sum).is_ok());
}

#[test]
fn duplicate_partial_is_dropped() {
    let com = committee();
    let node = aggregator(&com, 3);
    let mut session = Session::new();
    run_start(&node, &mut session, 7);
    let canon = canonical_hash(&start_message(7));
    let m1 = partial_message(7, sign_canon(&com.member_sks[1], &canon));
    assert!(matches!(
        run_partial(&node, &mut session, &com.member_pks[1], &m1),
        PartialOutcome::Accepted(2)
    ));
    // the replay is dropped
    assert!(matches!(
        run_partial(&node, &mut session, &com.member_pks[1], &m1),
        PartialOutcome::Ignored
    ));
    // behaviour then continues as without the replay
    let m2 = partial_message(7, sign_canon(&com.member_sks[2], &canon));
    assert!(matches!(
        run_partial(&node, &mut session, &com.member_pks[2], &m2),
        PartialOutcome::Aggregated(_)
    ));
}

#[test]
fn unknown_sender_is_dropped() {
    let com = committee();
    let node = aggregator(&com, 3);
    let mut session = Session::new();
    run_start(&node, &mut session, 7);
    let canon = canonical_hash(&start_message(7));
    let (stranger_sk, stranger_pk) = test_keypair(999);
    let mx = partial_message(7, sign_canon(&stranger_sk, &canon));
    assert!(matches!(
        run_partial(&node, &mut session, &stranger_pk, &mx),
        PartialOutcome::Ignored
    ));
    // nothing was stored for the stranger
    assert_eq!(session.rounds.len(), 1);
    let filled = session.rounds[0].parts.iter().filter(|p| p.is_some()).count();
    assert_eq!(filled, 1);
}

#[test]
fn start_replay_signs_only_once() {
    let com = committee();
    let node = aggregator(&com, 3);
    let mut session = Session::new();
    run_start(&node, &mut session, 7);
    // the second Start for the same round is dropped
    let raw = encode(&start_message(7));
    let msg = decode(&raw).expect("decode");
    let orch = node.orchestrator.clone();
    assert!(matches!(node.dispatch(&session, &orch, &msg), Action::Ignore));
    let hash = canonical_hash(&msg);
    assert!(matches!(
        node.handle_start(&mut session, &orch, &msg, &hash),
        StartOutcome::Ignored
    ));
    assert_eq!(session.signed.len(), 1);
}

#[test]
fn spoofed_start_changes_nothing() {
    let com = committee();
    let node = aggregator(&com, 3);
    let mut session = Session::new();
    let raw = encode(&start_message(7));
    let msg = decode(&raw).expect("decode");
    // a member, not the orchestrator, sends a Start
    assert!(matches!(
        node.dispatch(&session, &com.member_pks[1], &msg),
        Action::Ignore
    ));
    let hash = canonical_hash(&msg);
    assert!(matches!(
        node.handle_start(&mut session, &com.member_pks[1], &msg, &hash),
        StartOutcome::Ignored
    ));
    assert!(session.signed.is_empty());
    assert!(session.rounds.is_empty());
}

#[test]
fn below_threshold_awaits_more_partials() {
    let com = committee();
    let node = aggregator(&com, 3);
    let mut session = Session::new();
    run_start(&node, &mut session, 7);
    let canon = canonical_hash(&start_message(7));
    let m1 = partial_message(7, sign_canon(&com.member_sks[1], &canon));
    assert!(matches!(
        run_partial(&node, &mut session, &com.member_pks[1], &m1),
        PartialOutcome::Accepted(2)
    ));
    // no aggregation yet; two partials are stored
    assert!(!session.rounds[0].done);
    let filled = session.rounds[0].parts.iter().filter(|p| p.is_some()).count();
    assert_eq!(filled, 2);
}

#[test]
fn threshold_one_aggregates_at_the_self_insertion() {
    let com = committee();
    let node = aggregator(&com, 1);
    let mut session = Session::new();
    // the node's own partial alone meets the threshold: the event fires
    // with the Start, listing this node as the only participant
    let raw = encode(&start_message(9));
    let msg = decode(&raw).expect("decode");
    let orch = node.orchestrator.clone();
    let hash = canonical_hash(&msg);
    let (broadcast, ev) = match node.handle_start(&mut session, &orch, &msg, &hash) {
        StartOutcome::Broadcast(b, StartAggregation::Aggregated(ev)) => (b, ev),
        _ => panic!("expected broadcast with aggregation"),
    };
    assert_eq!(ev.round, 9);
    assert_eq!(ev.payload, hash);
    assert_eq!(ev.participating, vec![com.member_pks[0].clone()]);
    // the one-partial aggregate verifies against this node's key alone
    assert!(bls_verify_raw(&com.member_pks[0], &hash, &ev.signature));
    let reply = decode(&broadcast).expect("decode reply");
    assert_eq!(reply.round, 9);
    // the round is complete: a later peer partial is stored without a
    // second event
    let canon = canonical_hash(&start_message(9));
    let m1 = partial_message(9, sign_canon(&com.member_sks[1], &canon));
    assert!(matches!(
        run_partial(&node, &mut session, &com.member_pks[1], &m1),
        PartialOutcome::Accepted(2)
    ));
}

#[test]
fn threshold_one_without_g1_entry_drops_the_self_attempt() {
    let com = committee();
    let node = Contributor::new(
        com.orchestrator_pk.clone(),
        com.member_sks[0].clone(),
        com.member_pks.clone(),
        Some(AggregationInput::new(1, Vec::new())),
    )
    .expect("contributor");
    let mut session = Session::new();
    let raw = encode(&start_message(9));
    let msg = decode(&raw).expect("decode");
    let orch = node.orchestrator.clone();
    let hash = canonical_hash(&msg);
    assert!(matches!(
        node.handle_start(&mut session, &orch, &msg, &hash),
        StartOutcome::Broadcast(_, StartAggregation::AggregationFailed)
    ));
    assert!(!session.rounds[0].done);
}

#[test]
fn duplicate_committee_keys_are_collapsed() {
    let com = committee();
    let mut keys = com.member_pks.clone();
    keys.push(com.member_pks[2].clone());
    keys.push(com.member_pks[0].clone());
    let node = Contributor::new(com.orchestrator_pk.clone(), com.member_sks[0].clone(), keys, None)
        .expect("contributor");
    // the committee lists each distinct key once, sorted
    assert_eq!(node.contributors, com.member_pks);
}

#[test]
fn threshold_n_requires_every_member() {
    let com = committee();
    let node = aggregator(&com, 4);
    let mut session = Session::new();
    run_start(&node, &mut session, 3);
    let canon = canonical_hash(&start_message(3));
    for peer in 1..3usize {
        let m = partial_message(3, sign_canon(&com.member_sks[peer], &canon));
        assert!(matches!(
            run_partial(&node, &mut session, &com.member_pks[peer], &m),
            PartialOutcome::Accepted(_)
        ));
    }
    let m3 = partial_message(3, sign_canon(&com.member_sks[3], &canon));
    match run_partial(&node, &mut session, &com.member_pks[3], &m3) {
        PartialOutcome::Aggregated(ev) => {
            assert_eq!(ev.participating, com.member_pks);
        }
        _ => panic!("expected aggregation"),
    }
}

#[test]
fn late_partial_after_completion_is_stored_without_event() {
    let com = committee();
    let node = aggregator(&com, 2);
    let mut session = Session::new();
    run_start(&node, &mut session, 7);
    let canon = canonical_hash(&start_message(7));
    let m1 = partial_message(7, sign_canon(&com.member_sks[1], &canon));
    assert!(matches!(
        run_partial(&node, &mut session, &com.member_pks[1], &m1),
        PartialOutcome::Aggregated(_)
    ));
    // a later partial is stored but no second event fires
    let m2 = partial_message(7, sign_canon(&com.member_sks[2], &canon));
    assert!(matches!(
        run_partial(&node, &mut session, &com.member_pks[2], &m2),
        PartialOutcome::Accepted(3)
    ));
}

#[test]
fn unverifiable_partial_is_rejected() {
    let com = committee();
    let node = aggregator(&com, 3);
    let mut session = Session::new();
    run_start(&node, &mut session, 7);
    let canon = canonical_hash(&start_message(7));
    // a signature over the wrong payload does not verify
    let wrong = sign_canon(&com.member_sks[1], b"something else");
    let m1 = partial_message(7, wrong);
    assert!(matches!(
        run_partial(&node, &mut session, &com.member_pks[1], &m1),
        PartialOutcome::Rejected
    ));
    // garbage signature bytes do not verify either
    let m2 = partial_message(7, vec![1, 2, 3]);
    assert!(matches!(
        run_partial(&node, &mut session, &com.member_pks[1], &m2),
        PartialOutcome::Rejected
    ));
    let filled = session.rounds[0].parts.iter().filter(|p| p.is_some()).count();
    assert_eq!(filled, 1);
}

#[test]
fn missing_g1_entry_drops_the_aggregation_attempt() {
    let com = committee();
    // aggregator whose association list is empty
    let node = Contributor::new(
        com.orchestrator_pk.clone(),
        com.member_sks[0].clone(),
        com.member_pks.clone(),
        Some(AggregationInput::new(2, Vec::new())),
    )
    .expect("contributor");
    let mut session = Session::new();
    run_start(&node, &mut session, 7);
    let canon = canonical_hash(&start_message(7));
    let m1 = partial_message(7, sign_canon(&com.member_sks[1], &canon));
    assert!(matches!(
        run_partial(&node, &mut session, &com.member_pks[1], &m1),
        PartialOutcome::AggregationFailed
    ));
    // the partial stays stored and the round stays incomplete
    assert!(!session.rounds[0].done);
    let filled = session.rounds[0].parts.iter().filter(|p| p.is_some()).count();
    assert_eq!(filled, 2);
}

#[test]
fn construction_rejects_bad_inputs() {
    let com = committee();
    // a private key that is not a scalar
    assert!(Contributor::new(
        com.orchestrator_pk.clone(),
        vec![1, 2, 3],
        com.member_pks.clone(),
        None
    )
    .is_none());
    // a signer outside the committee
    let (outside_sk, _) = test_keypair(999);
    assert!(Contributor::new(
        com.orchestrator_pk.clone(),
        outside_sk,
        com.member_pks.clone(),
        None
    )
    .is_none());
    // thresholds outside 1..=n
    assert!(Contributor::new(
        com.orchestrator_pk.clone(),
        com.member_sks[0].clone(),
        com.member_pks.clone(),
        Some(AggregationInput::new(0, Vec::new()))
    )
    .is_none());
    assert!(Contributor::new(
        com.orchestrator_pk.clone(),
        com.member_sks[0].clone(),
        com.member_pks.clone(),
        Some(AggregationInput::new(5, Vec::new()))
    )
    .is_none());
}

#[test]
fn signing_failure_surfaces_without_state_change() {
    let com = committee();
    // a node whose signing key is unusable, built around the derivation
    let node = Contributor::with_self_key(
        com.orchestrator_pk.clone(),
        vec![9, 9, 9],
        com.member_pks[0].clone(),
        com.member_pks.clone(),
        None,
    )
    .expect("contributor");
    let mut session = Session::new();
    let raw = encode(&start_message(7));
    let msg = decode(&raw).expect("decode");
    let orch = node.orchestrator.clone();
    let hash = canonical_hash(&msg);
    assert!(matches!(
        node.handle_start(&mut session, &orch, &msg, &hash),
        StartOutcome::SignFailed
    ));
    assert!(session.signed.is_empty());
    assert!(session.rounds.is_empty());
}

#[test]
fn partials_before_start_are_dropped() {
    let com = committee();
    let node = aggregator(&com, 2);
    let mut session = Session::new();
    // no Start was seen for round 5: the round is not committed
    let canon = canonical_hash(&start_message(5));
    let m1 = partial_message(5, sign_canon(&com.member_sks[1], &canon));
    assert!(matches!(
        run_partial(&node, &mut session, &com.member_pks[1], &m1),
        PartialOutcome::Ignored
    ));
    assert!(session.rounds.is_empty());
}

#[test]
fn non_aggregator_ignores_peer_partials() {
    let com = committee();
    let node = Contributor::new(
        com.orchestrator_pk.clone(),
        com.member_sks[0].clone(),
        com.member_pks.clone(),
        None,
    )
    .expect("contributor");
    let mut session = Session::new();
    run_start(&node, &mut session, 7);
    let canon = canonical_hash(&start_message(7));
    let m1 = partial_message(7, sign_canon(&com.member_sks[1], &canon));
    assert!(matches!(
        node.dispatch(&session, &com.member_pks[1], &m1),
        Action::Ignore
    ));
    assert!(matches!(
        node.handle_partial(&mut session, &com.member_pks[1], &m1, &canon),
        PartialOutcome::Ignored
    ));
}
