use avs_contributor::contributor::{AggregationInput, Contributor};

/// 32-byte big-endian scalar for a small test seed.
fn sk_bytes(seed: u64) -> Vec<u8> {
    let mut b = vec![0u8; 32];
    b[24..32].copy_from_slice(&seed.to_be_bytes());
    b
}

/// Deterministic test keypair: private-key bytes and compressed public key.
fn test_keypair(seed: u64) -> (Vec<u8>, Vec<u8>) {
    let sk = sk_bytes(seed);
    let key = bn254::PrivateKey::try_from(&sk[..]).expect("private key");
    let pk = bn254::PublicKey::from_private_key(&key);
    (sk, pk.to_compressed().expect("compressed key"))
}

fn new_test_contributor() -> Contributor {
    let (signer_sk, signer_pk) = test_keypair(1);
    let (_, orchestrator_pk) = test_keypair(2);
    let (_, contributor1_pk) = test_keypair(3);
    let (_, contributor2_pk) = test_keypair(4);
    let contributors = vec![
        signer_pk,
        orchestrator_pk.clone(),
        contributor1_pk,
        contributor2_pk,
    ];
    let aggregation_input = AggregationInput::new(3, Vec::new());
    Contributor::new(
        orchestrator_pk,
        signer_sk,
        contributors,
        Some(aggregation_input),
    )
    .expect("contributor")
}

fn new_simple_contributor() -> Contributor {
    let (signer_sk, signer_pk) = test_keypair(5);
    let (_, orchestrator_pk) = test_keypair(6);
    let contributors = vec![signer_pk, orchestrator_pk.clone()];
    Contributor::new(orchestrator_pk, signer_sk, contributors, None).expect("contributor")
}

#[test]
fn test_is_orchestrator() {
    let contributor = new_test_contributor();

    // Test with orchestrator's public key
    assert!(contributor.is_orchestrator(&contributor.orchestrator.clone()));

    // Test with non-orchestrator's public key
    assert!(!contributor.is_orchestrator(&contributor.self_key.clone()));
}

#[test]
fn test_get_contributor_index() {
    let contributor = new_test_contributor();

    // Test with existing contributor
    let index = contributor.get_contributor_index(&contributor.self_key.clone());
    assert!(index.is_some());
    assert_eq!(index.unwrap(), contributor.me);

    // Test with non-existent contributor
    let (_, random_pk) = test_keypair(999);
    let index = contributor.get_contributor_index(&random_pk);
    assert!(index.is_none());
}

#[test]
fn test_get_contributor_index_with_simple_contributor() {
    let contributor = new_simple_contributor();

    // Test with existing contributor
    let index = contributor.get_contributor_index(&contributor.self_key.clone());
    assert!(index.is_some());

    // Test with orchestrator
    let index = contributor.get_contributor_index(&contributor.orchestrator.clone());
    assert!(index.is_some());
}

#[test]
fn test_new_with_aggregation_data() {
    let (signer_sk, signer_pk) = test_keypair(10);
    let (_, orchestrator_pk) = test_keypair(11);
    let (_, contributor1_pk) = test_keypair(12);

    let contributors = vec![signer_pk, orchestrator_pk.clone(), contributor1_pk];

    let aggregation_input = AggregationInput::new(2, Vec::new());

    let contributor = Contributor::new(
        orchestrator_pk.clone(),
        signer_sk,
        contributors,
        Some(aggregation_input),
    )
    .expect("contributor");

    assert_eq!(contributor.orchestrator, orchestrator_pk);
    assert_eq!(contributor.contributors.len(), 3);
    assert!(contributor.aggregation_data.is_some());
}

#[test]
fn test_new_without_aggregation_data() {
    let (signer_sk, signer_pk) = test_keypair(20);
    let (_, orchestrator_pk) = test_keypair(21);
    let contributors = vec![signer_pk, orchestrator_pk.clone()];

    let contributor = Contributor::new(orchestrator_pk.clone(), signer_sk, contributors, None)
        .expect("contributor");

    assert_eq!(contributor.orchestrator, orchestrator_pk);
    assert_eq!(contributor.contributors.len(), 2);
    assert!(contributor.aggregation_data.is_none());
}

#[test]
fn test_contributors_are_sorted() {
    let (signer_sk, signer_pk) = test_keypair(30);
    let (_, orchestrator_pk) = test_keypair(31);
    let (_, contributor1_pk) = test_keypair(32);
    let (_, contributor2_pk) = test_keypair(33);

    // Create contributors in unsorted order
    let contributors = vec![
        contributor2_pk,
        signer_pk,
        contributor1_pk,
        orchestrator_pk.clone(),
    ];

    let contributor = Contributor::new(orchestrator_pk, signer_sk, contributors, None)
        .expect("contributor");

    // Verify contributors are sorted
    let mut sorted_contributors = contributor.contributors.clone();
    sorted_contributors.sort();
    assert_eq!(contributor.contributors, sorted_contributors);
}

#[test]
fn test_me_index_calculation() {
    let (signer_sk, signer_pk) = test_keypair(40);
    let (_, orchestrator_pk) = test_keypair(41);
    let (_, contributor1_pk) = test_keypair(42);

    let contributors = vec![signer_pk.clone(), orchestrator_pk.clone(), contributor1_pk];

    let contributor = Contributor::new(orchestrator_pk, signer_sk, contributors, None)
        .expect("contributor");

    // Verify that me index corresponds to the signer's position in sorted contributors
    let signer_index = contributor.get_contributor_index(&signer_pk).unwrap();
    assert_eq!(contributor.me, signer_index);
}

#[test]
fn test_aggregation_input_creation() {
    let threshold = 3;
    let g1_map = Vec::new();

    let aggregation_input = AggregationInput::new(threshold, g1_map);

    assert_eq!(aggregation_input.threshold(), threshold);
    assert!(aggregation_input.g1_map().is_empty());
}

#[test]
fn test_aggregation_input_with_g1_map() {
    let threshold = 2;
    let mut g1_map = Vec::new();
    let (signer_sk, signer_pk) = test_keypair(50);
    // Create a G1 key for testing from the same private key
    let key = bn254::PrivateKey::try_from(&signer_sk[..]).expect("private key");
    let g1_key = bn254::PublicKeyG1::from_private_key(&key)
        .to_compressed()
        .expect("compressed g1 key");
    g1_map.push((signer_pk.clone(), g1_key));

    let aggregation_input = AggregationInput::new(threshold, g1_map);

    assert_eq!(aggregation_input.threshold(), threshold);
    assert_eq!(aggregation_input.g1_map().len(), 1);
    assert!(aggregation_input
        .g1_map()
        .iter()
        .any(|(k, _)| *k == signer_pk));
}
