use stateless_validator::codec::{
    decode_stored, decode_witness, encode_stored, encode_witness, status_and_data, DecodeError,
    StoredWitness,
};
use stateless_validator::trie::ProofNode;
use stateless_validator::witness::{may_follow, Witness, WitnessLeaf, WitnessStatus};

fn sample_witness() -> Witness {
    Witness {
        old_root: vec![0x11; 32],
        proof_nodes: vec![
            ProofNode { hash: vec![0xaa; 32], bytes: vec![1, 2, 3] },
            ProofNode { hash: vec![0xbb; 32], bytes: vec![] },
        ],
        leaves: vec![
            WitnessLeaf { key: vec![9; 20], value: Some(vec![7; 104]) },
            WitnessLeaf { key: vec![8; 52], value: None },
        ],
        block_number: 9,
        block_hash: vec![0x22; 32],
    }
}

#[test]
fn witness_encoding_is_exact() {
    let w = Witness {
        old_root: vec![1; 32],
        proof_nodes: vec![ProofNode { hash: vec![2; 32], bytes: vec![0xab] }],
        leaves: vec![WitnessLeaf { key: vec![3], value: Some(vec![4, 5]) }],
        block_number: 0x0102,
        block_hash: vec![6; 32],
    };
    let mut expected = vec![1u8; 32];
    expected.extend(1u64.to_le_bytes());
    expected.extend([2u8; 32]);
    expected.extend(1u64.to_le_bytes());
    expected.push(0xab);
    expected.extend(1u64.to_le_bytes());
    expected.extend(1u64.to_le_bytes());
    expected.push(3);
    expected.push(1);
    expected.extend(2u64.to_le_bytes());
    expected.extend([4u8, 5]);
    expected.extend([0x02u8, 0x01, 0, 0, 0, 0, 0, 0]);
    expected.extend([6u8; 32]);
    assert_eq!(encode_witness(&w), expected);
}

#[test]
fn witness_round_trip() {
    let w = sample_witness();
    let bytes = encode_witness(&w);
    assert_eq!(decode_witness(&bytes), Ok(w));
    let again = encode_witness(&decode_witness(&bytes).unwrap());
    assert_eq!(again, bytes);
}

#[test]
fn witness_encoding_is_what_bincode_writes() {
    let w = sample_witness();
    let old_root: [u8; 32] = w.old_root.clone().try_into().unwrap();
    let block_hash: [u8; 32] = w.block_hash.clone().try_into().unwrap();
    let nodes: Vec<([u8; 32], Vec<u8>)> = w
        .proof_nodes
        .iter()
        .map(|n| (n.hash.clone().try_into().unwrap(), n.bytes.clone()))
        .collect();
    let leaves: Vec<(Vec<u8>, Option<Vec<u8>>)> =
        w.leaves.iter().map(|l| (l.key.clone(), l.value.clone())).collect();
    let value = (old_root, nodes, leaves, w.block_number, block_hash);
    let by_bincode = bincode::serde::encode_to_vec(&value, bincode::config::legacy()).unwrap();
    assert_eq!(encode_witness(&w), by_bincode);
}

#[test]
fn truncated_witness_is_rejected() {
    let bytes = encode_witness(&sample_witness());
    for cut in 0..bytes.len() {
        assert_eq!(decode_witness(&bytes[..cut]), Err(DecodeError::Malformed));
    }
}

#[test]
fn witness_with_trailing_bytes_is_rejected() {
    let mut bytes = encode_witness(&sample_witness());
    bytes.push(0);
    assert_eq!(decode_witness(&bytes), Err(DecodeError::Malformed));
}

#[test]
fn witness_with_bad_value_tag_is_rejected() {
    let w = Witness {
        old_root: vec![1; 32],
        proof_nodes: vec![],
        leaves: vec![WitnessLeaf { key: vec![3], value: None }],
        block_number: 1,
        block_hash: vec![6; 32],
    };
    let mut bytes = encode_witness(&w);
    let tag = 32 + 8 + 8 + 8 + 1;
    assert_eq!(bytes[tag], 0);
    bytes[tag] = 2;
    assert_eq!(decode_witness(&bytes), Err(DecodeError::Malformed));
}

#[test]
fn witness_with_huge_count_is_rejected() {
    let mut bytes = vec![1u8; 32];
    bytes.extend(u64::MAX.to_le_bytes());
    assert_eq!(decode_witness(&bytes), Err(DecodeError::Malformed));
}

#[test]
fn stored_witness_encoding_is_exact() {
    let stored = StoredWitness { status: WitnessStatus::Ready, data: vec![9, 8, 7] };
    assert_eq!(encode_stored(&stored), vec![2, 0, 0, 0, 3, 0, 0, 0, 0, 0, 0, 0, 9, 8, 7]);
    let failed = StoredWitness { status: WitnessStatus::Failed, data: vec![] };
    assert_eq!(encode_stored(&failed), vec![3, 0, 0, 0, 0, 0, 0, 0, 0, 0, 0, 0]);
}

#[test]
fn stored_witness_round_trip() {
    for status in [
        WitnessStatus::Idle,
        WitnessStatus::Processing,
        WitnessStatus::Ready,
        WitnessStatus::Failed,
    ] {
        let stored = StoredWitness { status, data: vec![1, 2, 3, 4] };
        let bytes = encode_stored(&stored);
        assert_eq!(decode_stored(&bytes), Ok(stored.clone()));
        assert_eq!(encode_stored(&decode_stored(&bytes).unwrap()), bytes);
    }
}

#[test]
fn stored_witness_errors() {
    assert_eq!(decode_stored(&[]), Err(DecodeError::Malformed));
    assert_eq!(decode_stored(&[2, 0, 0]), Err(DecodeError::Malformed));
    assert_eq!(
        decode_stored(&[4, 0, 0, 0, 0, 0, 0, 0, 0, 0, 0, 0]),
        Err(DecodeError::UnknownStatus)
    );
    assert_eq!(decode_stored(&[2, 0, 0, 0, 1, 0, 0, 0, 0, 0, 0, 0]), Err(DecodeError::Malformed));
    assert_eq!(
        decode_stored(&[2, 0, 0, 0, 0, 0, 0, 0, 0, 0, 0, 0, 5]),
        Err(DecodeError::Malformed)
    );
}

#[test]
fn status_and_data_reports_status() {
    assert_eq!(status_and_data(None), Ok((WitnessStatus::Idle, None)));
    let ready = encode_stored(&StoredWitness { status: WitnessStatus::Ready, data: vec![5] });
    assert_eq!(status_and_data(Some(&ready)), Ok((WitnessStatus::Ready, Some(vec![5]))));
    let failed = encode_stored(&StoredWitness { status: WitnessStatus::Failed, data: vec![5] });
    assert_eq!(status_and_data(Some(&failed)), Ok((WitnessStatus::Failed, None)));
    let busy = encode_stored(&StoredWitness { status: WitnessStatus::Processing, data: vec![] });
    assert_eq!(status_and_data(Some(&busy)), Ok((WitnessStatus::Processing, None)));
    assert_eq!(status_and_data(Some(&[1, 2])), Err(DecodeError::Malformed));
}

#[test]
fn status_only_moves_forward() {
    let idle = WitnessStatus::Idle;
    let processing = WitnessStatus::Processing;
    let ready = WitnessStatus::Ready;
    let failed = WitnessStatus::Failed;
    assert!(may_follow(idle, processing));
    assert!(may_follow(idle, ready));
    assert!(may_follow(processing, ready));
    assert!(may_follow(processing, failed));
    assert!(may_follow(ready, ready));
    assert!(!may_follow(ready, processing));
    assert!(!may_follow(ready, failed));
    assert!(!may_follow(failed, ready));
    assert!(!may_follow(processing, idle));
    assert!(!may_follow(failed, idle));
}
