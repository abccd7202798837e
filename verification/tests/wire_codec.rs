use avs_contributor::wire::{decode, encode, Message, Payload};

#[test]
fn encode_start_has_exact_layout() {
    let m = Message {
        round: 1,
        metadata: vec![0xAB],
        payload: Some(Payload::Start),
    };
    let b = encode(&m);
    assert_eq!(
        b,
        vec![
            0, 0, 0, 0, 0, 0, 0, 1, // round, big endian
            0, 0, 0, 0, 0, 0, 0, 1, // metadata length
            0xAB, // metadata
            1,    // Start tag
        ]
    );
}

#[test]
fn encode_signature_has_exact_layout() {
    let m = Message {
        round: 258,
        metadata: vec![],
        payload: Some(Payload::Signature(vec![7, 8])),
    };
    let b = encode(&m);
    assert_eq!(
        b,
        vec![
            0, 0, 0, 0, 0, 0, 1, 2, // round 258, big endian
            0, 0, 0, 0, 0, 0, 0, 0, // metadata length
            2, // Signature tag
            0, 0, 0, 0, 0, 0, 0, 2, // signature length
            7, 8, // signature bytes
        ]
    );
}

#[test]
fn round_trips_all_variants() {
    let messages = vec![
        Message { round: 0, metadata: vec![], payload: None },
        Message { round: 7, metadata: vec![77, 1, 2], payload: Some(Payload::Start) },
        Message {
            round: u64::MAX,
            metadata: vec![0; 40],
            payload: Some(Payload::Signature(vec![9; 33])),
        },
    ];
    for m in messages {
        let b = encode(&m);
        let d = decode(&b).expect("decode");
        assert_eq!(d.round, m.round);
        assert_eq!(d.metadata, m.metadata);
        match (&d.payload, &m.payload) {
            (None, None) => {}
            (Some(Payload::Start), Some(Payload::Start)) => {}
            (Some(Payload::Signature(a)), Some(Payload::Signature(b))) => assert_eq!(a, b),
            _ => panic!("payload mismatch"),
        }
        // re-encoding the decoded message reproduces the received bytes
        assert_eq!(encode(&d), b);
    }
}

#[test]
fn malformed_bytes_are_rejected() {
    // too short
    assert!(decode(&vec![1, 2, 3]).is_none());
    // unknown payload tag
    let mut b = encode(&Message { round: 1, metadata: vec![], payload: Some(Payload::Start) });
    let last = b.len() - 1;
    b[last] = 9;
    assert!(decode(&b).is_none());
    // trailing garbage
    let mut b = encode(&Message { round: 1, metadata: vec![], payload: Some(Payload::Start) });
    b.push(0);
    assert!(decode(&b).is_none());
    // truncated signature
    let mut b = encode(&Message {
        round: 1,
        metadata: vec![],
        payload: Some(Payload::Signature(vec![7, 8, 9])),
    });
    b.pop();
    assert!(decode(&b).is_none());
    // metadata length pointing past the end
    let mut b = encode(&Message { round: 1, metadata: vec![], payload: Some(Payload::Start) });
    b[15] = 200;
    assert!(decode(&b).is_none());
}
