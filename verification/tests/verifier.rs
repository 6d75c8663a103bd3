use stateless_validator::engine::update_trie;
use stateless_validator::hash::hash_bytes;
use stateless_validator::proofs::{trie_key_of, ProofError, ProofVerifier};
use stateless_validator::trie::{ProofNode, TrieUpdate};
use stateless_validator::witness::{Witness, WitnessLeaf};

/// A witness over the given state entries, with the root of their trie.
fn witness_of(entries: &[(&[u8], &[u8])], absent: &[&[u8]]) -> Witness {
    let updates: Vec<TrieUpdate> = entries
        .iter()
        .map(|(k, v)| TrieUpdate { key: hash_bytes(k), value: Some(v.to_vec()) })
        .collect();
    let (root, nodes) = update_trie(&Vec::new(), &[0u8; 32], &updates).unwrap();
    let mut leaves: Vec<WitnessLeaf> = entries
        .iter()
        .map(|(k, v)| WitnessLeaf { key: k.to_vec(), value: Some(v.to_vec()) })
        .collect();
    for k in absent {
        leaves.push(WitnessLeaf { key: k.to_vec(), value: None });
    }
    Witness { old_root: root, proof_nodes: nodes, leaves, block_number: 9, block_hash: vec![9; 32] }
}

fn sample() -> Witness {
    witness_of(&[(b"alice", b"100"), (b"bob", b"5"), (b"carol", b"7")], &[b"dave"])
}

#[test]
fn trie_key_is_hash_of_state_key() {
    assert_eq!(trie_key_of(b"alice"), alloy_primitives::keccak256(b"alice").0.to_vec());
}

#[test]
fn untampered_witness_verifies() {
    let w = sample();
    assert!(w.proof_nodes.len() >= 3);
    assert_eq!(ProofVerifier::verify(&w, &w.old_root), Ok(()));
}

#[test]
fn empty_witness_verifies_against_its_root() {
    let w = witness_of(&[], &[b"nobody"]);
    assert_eq!(w.old_root, vec![0u8; 32]);
    assert_eq!(ProofVerifier::verify(&w, &w.old_root), Ok(()));
}

#[test]
fn witness_for_another_root_is_rejected() {
    let w = sample();
    assert_eq!(ProofVerifier::verify(&w, &[1u8; 32]), Err(ProofError::RootMismatch));
}

#[test]
fn flipping_any_byte_of_any_node_is_rejected() {
    let w = sample();
    for i in 0..w.proof_nodes.len() {
        for at in 0..w.proof_nodes[i].bytes.len() {
            let mut t = w.clone();
            t.proof_nodes[i].bytes[at] ^= 0x01;
            assert_eq!(
                ProofVerifier::verify(&t, &w.old_root),
                Err(ProofError::NodeHashMismatch { index: i })
            );
        }
    }
}

#[test]
fn undecodable_node_is_rejected() {
    let mut w = sample();
    let bytes = vec![7u8, 7, 7];
    w.proof_nodes.push(ProofNode { hash: hash_bytes(&bytes), bytes });
    let index = w.proof_nodes.len() - 1;
    assert_eq!(ProofVerifier::verify(&w, &w.old_root), Err(ProofError::MalformedNode { index }));
}

#[test]
fn wrong_leaf_value_is_rejected() {
    let mut w = sample();
    w.leaves[1].value = Some(b"6".to_vec());
    assert_eq!(ProofVerifier::verify(&w, &w.old_root), Err(ProofError::LeafNotProven { index: 1 }));
}

#[test]
fn leaf_claimed_absent_but_present_is_rejected() {
    let mut w = sample();
    w.leaves[0].value = None;
    assert_eq!(ProofVerifier::verify(&w, &w.old_root), Err(ProofError::LeafNotProven { index: 0 }));
}

#[test]
fn leaf_claimed_present_but_absent_is_rejected() {
    let mut w = sample();
    w.leaves[3].value = Some(b"1".to_vec());
    assert_eq!(ProofVerifier::verify(&w, &w.old_root), Err(ProofError::LeafNotProven { index: 3 }));
}

#[test]
fn leaf_without_its_path_is_rejected() {
    let mut w = sample();
    w.proof_nodes.clear();
    assert_eq!(ProofVerifier::verify(&w, &w.old_root), Err(ProofError::LeafNotProven { index: 0 }));
}
