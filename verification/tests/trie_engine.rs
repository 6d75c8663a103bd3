use stateless_validator::engine::{lookup_key, update_trie, TrieEngine};
use stateless_validator::hash::hash_bytes;
use stateless_validator::node::{decode_node, encode, Node};
use stateless_validator::trie::{ProofNode, TrieError, TrieUpdate};

fn key_of(byte: u8) -> Vec<u8> {
    vec![byte; 32]
}

fn put(key: Vec<u8>, value: &[u8]) -> TrieUpdate {
    TrieUpdate { key, value: Some(value.to_vec()) }
}

fn del(key: Vec<u8>) -> TrieUpdate {
    TrieUpdate { key, value: None }
}

/// Applies updates to an engine and returns the new root and the enlarged node
/// set.
fn apply(nodes: &[ProofNode], root: &[u8], updates: Vec<TrieUpdate>) -> (Vec<u8>, Vec<ProofNode>) {
    let engine = TrieEngine::new(nodes.to_vec(), root.to_vec());
    let (new_root, changed) = engine.update(&updates).expect("update succeeds");
    let mut all = nodes.to_vec();
    all.extend(changed);
    (new_root, all)
}

#[test]
fn keccak_of_empty_input() {
    let expected: Vec<u8> = vec![
        0xc5, 0xd2, 0x46, 0x01, 0x86, 0xf7, 0x23, 0x3c, 0x92, 0x7e, 0x7d, 0xb2, 0xdc, 0xc7, 0x03,
        0xc0, 0xe5, 0x00, 0xb6, 0x53, 0xca, 0x82, 0x27, 0x3b, 0x7b, 0xfa, 0xd8, 0x04, 0x5d, 0x85,
        0xa4, 0x70,
    ];
    assert_eq!(hash_bytes(&[]), expected);
}

#[test]
fn keccak_matches_alloy() {
    let data = b"stateless";
    assert_eq!(hash_bytes(data), alloy_primitives::keccak256(data).0.to_vec());
    assert_ne!(hash_bytes(data), data.to_vec());
}

#[test]
fn empty_update_keeps_root() {
    let root = vec![7u8; 32];
    let engine = TrieEngine::new(Vec::new(), root.clone());
    assert_eq!(engine.update(&Vec::new()), Ok((root, Vec::new())));
}

#[test]
fn insert_into_empty_trie_gives_single_leaf() {
    let engine = TrieEngine::new(Vec::new(), vec![0u8; 32]);
    let (root, changed) = engine.update(&vec![put(key_of(0x12), &[1, 2, 3])]).unwrap();
    assert_eq!(changed.len(), 1);
    assert_eq!(changed[0].hash, root);
    let mut path = Vec::new();
    for _ in 0..32 {
        path.push(1u8);
        path.push(2u8);
    }
    let leaf = Node::Leaf { path: path.clone(), value: vec![1, 2, 3] };
    assert_eq!(decode_node(&changed[0].bytes), Some(leaf));
    let mut bytes = vec![0u8, 64u8];
    bytes.extend(path);
    bytes.extend(3u64.to_le_bytes());
    bytes.extend([1u8, 2, 3]);
    assert_eq!(changed[0].bytes, bytes);
    assert_eq!(root, alloy_primitives::keccak256(&bytes).0.to_vec());
}

#[test]
fn lookup_after_updates() {
    let (root, nodes) = apply(
        &[],
        &[0u8; 32],
        vec![put(key_of(0x12), b"a"), put(key_of(0x13), b"b"), put(key_of(0x40), b"c")],
    );
    assert_eq!(lookup_key(&nodes, &root, &key_of(0x12)), Ok(Some(b"a".to_vec())));
    assert_eq!(lookup_key(&nodes, &root, &key_of(0x13)), Ok(Some(b"b".to_vec())));
    assert_eq!(lookup_key(&nodes, &root, &key_of(0x40)), Ok(Some(b"c".to_vec())));
    assert_eq!(lookup_key(&nodes, &root, &key_of(0x41)), Ok(None));
    assert_eq!(lookup_key(&nodes, &root, &key_of(0x99)), Ok(None));
    assert_eq!(lookup_key(&nodes, &root, &[1, 2, 3]), Err(TrieError::KeyLength));
}

#[test]
fn order_of_updates_does_not_matter() {
    let a = vec![put(key_of(0x12), b"a"), put(key_of(0x13), b"b"), put(key_of(0x40), b"c")];
    let b = vec![put(key_of(0x40), b"c"), put(key_of(0x12), b"a"), put(key_of(0x13), b"b")];
    let c = vec![put(key_of(0x13), b"b"), put(key_of(0x40), b"c"), put(key_of(0x12), b"a")];
    let engine = TrieEngine::new(Vec::new(), vec![0u8; 32]);
    let ra = engine.update(&a).unwrap();
    assert_eq!(engine.update(&b).unwrap(), ra);
    assert_eq!(engine.update(&c).unwrap(), ra);
}

#[test]
fn batch_equals_one_by_one() {
    let ups = vec![
        put(key_of(0x12), b"a"),
        put(key_of(0x13), b"b"),
        put(key_of(0x40), b"c"),
        put(vec![0x12; 31].into_iter().chain([0x34]).collect(), b"d"),
    ];
    let (batch_root, _) = apply(&[], &[0u8; 32], ups.clone());
    let mut root = vec![0u8; 32];
    let mut nodes = Vec::new();
    for u in ups.iter().rev() {
        let (r, n) = apply(&nodes, &root, vec![u.clone()]);
        root = r;
        nodes = n;
    }
    assert_eq!(root, batch_root);
}

#[test]
fn last_write_for_a_key_wins() {
    let engine = TrieEngine::new(Vec::new(), vec![0u8; 32]);
    let twice = engine.update(&vec![put(key_of(1), b"old"), put(key_of(1), b"new")]).unwrap();
    let once = engine.update(&vec![put(key_of(1), b"new")]).unwrap();
    assert_eq!(twice, once);
}

#[test]
fn noop_write_changes_nothing() {
    let (root, nodes) =
        apply(&[], &[0u8; 32], vec![put(key_of(0x12), b"a"), put(key_of(0x13), b"b")]);
    let engine = TrieEngine::new(nodes, root.clone());
    assert_eq!(engine.update(&vec![put(key_of(0x12), b"a")]), Ok((root.clone(), Vec::new())));
    assert_eq!(engine.update(&vec![del(key_of(0x77))]), Ok((root, Vec::new())));
}

#[test]
fn deleting_collapses_the_branch() {
    let (one, _) = apply(&[], &[0u8; 32], vec![put(key_of(0x12), b"a")]);
    let (two, nodes) =
        apply(&[], &[0u8; 32], vec![put(key_of(0x12), b"a"), put(key_of(0x13), b"b")]);
    assert_ne!(one, two);
    let (back, _) = apply(&nodes, &two, vec![del(key_of(0x13))]);
    assert_eq!(back, one);
}

#[test]
fn deleting_the_last_entry_gives_the_empty_root() {
    let (root, nodes) = apply(&[], &[0u8; 32], vec![put(key_of(0x12), b"a")]);
    let (after, _) = apply(&nodes, &root, vec![del(key_of(0x12))]);
    assert_eq!(after, vec![0u8; 32]);
}

#[test]
fn delete_then_reinsert_restores_root() {
    let ups = vec![
        put(key_of(0x12), b"a"),
        put(key_of(0x13), b"b"),
        put(key_of(0x40), b"c"),
        put(key_of(0x4f), b"d"),
    ];
    let (root, nodes) = apply(&[], &[0u8; 32], ups);
    let (smaller, nodes2) = apply(&nodes, &root, vec![del(key_of(0x40)), del(key_of(0x12))]);
    assert_ne!(smaller, root);
    let (again, _) =
        apply(&nodes2, &smaller, vec![put(key_of(0x12), b"a"), put(key_of(0x40), b"c")]);
    assert_eq!(again, root);
}

#[test]
fn missing_node_is_an_error() {
    let (root, _) = apply(&[], &[0u8; 32], vec![put(key_of(0x12), b"a")]);
    let engine = TrieEngine::new(Vec::new(), root.clone());
    assert_eq!(
        engine.update(&vec![put(key_of(0x13), b"b")]),
        Err(TrieError::MissingNode { hash: root })
    );
}

#[test]
fn tampered_seed_node_is_an_error() {
    let (root, mut nodes) = apply(&[], &[0u8; 32], vec![put(key_of(0x12), b"a")]);
    let last = nodes[0].bytes.len() - 1;
    nodes[0].bytes[last] ^= 1;
    let engine = TrieEngine::new(nodes, root.clone());
    assert_eq!(
        engine.update(&vec![put(key_of(0x13), b"b")]),
        Err(TrieError::HashMismatch { hash: root })
    );
}

#[test]
fn undecodable_seed_node_is_an_error() {
    let bytes = vec![9u8, 9, 9];
    let hash = hash_bytes(&bytes);
    let engine = TrieEngine::new(vec![ProofNode { hash: hash.clone(), bytes }], hash.clone());
    assert_eq!(
        engine.update(&vec![put(key_of(0x13), b"b")]),
        Err(TrieError::MalformedNode { hash })
    );
}

#[test]
fn misplaced_node_is_an_error() {
    let leaf = Node::Leaf { path: vec![1, 2, 3], value: vec![1] };
    let bytes = encode(&leaf);
    let hash = hash_bytes(&bytes);
    let engine = TrieEngine::new(vec![ProofNode { hash: hash.clone(), bytes }], hash);
    assert_eq!(
        engine.update(&vec![put(key_of(0x13), b"b")]),
        Err(TrieError::Misplaced { depth: 0 })
    );
}

#[test]
fn short_key_is_an_error() {
    let engine = TrieEngine::new(Vec::new(), vec![0u8; 32]);
    assert_eq!(engine.update(&vec![put(vec![1, 2, 3], b"b")]), Err(TrieError::KeyLength));
}

#[test]
fn node_codec_round_trip() {
    let mut children = vec![None; 16];
    children[3] = Some(vec![0xaa; 32]);
    children[15] = Some(vec![0xbb; 32]);
    let nodes = vec![
        Node::Leaf { path: vec![1, 2, 3], value: vec![9, 9] },
        Node::Leaf { path: vec![], value: vec![] },
        Node::Extension { path: vec![0, 15], child: vec![0x11; 32] },
        Node::Branch { children },
    ];
    for n in nodes {
        assert_eq!(decode_node(&encode(&n)), Some(n));
    }
    assert_eq!(decode_node(&[]), None);
    assert_eq!(decode_node(&[3]), None);
    assert_eq!(decode_node(&[0, 1, 16, 0, 0, 0, 0, 0, 0, 0, 0]), None);
    assert_eq!(decode_node(&[0, 1, 5, 1, 0, 0, 0, 0, 0, 0, 0]), None);
    let mut one_child = vec![2u8];
    one_child.push(1);
    one_child.extend([0xaa; 32]);
    one_child.extend([0u8; 15]);
    assert_eq!(decode_node(&one_child), None);
}

#[test]
fn free_function_and_engine_agree() {
    let ups = vec![put(key_of(0x12), b"a"), put(key_of(0x13), b"b")];
    let engine = TrieEngine::new(Vec::new(), vec![0u8; 32]);
    assert_eq!(engine.update(&ups), update_trie(&Vec::new(), &[0u8; 32], &ups));
}

/// A sequence of keys and values that looks arbitrary and is always the same.
fn scattered(count: usize, seed: u64) -> Vec<(Vec<u8>, Vec<u8>)> {
    let mut state = seed;
    let mut next = move || {
        state = state.wrapping_mul(6364136223846793005).wrapping_add(1442695040888963407);
        (state >> 33) as u8
    };
    let mut out = Vec::new();
    for _ in 0..count {
        let mut key = vec![0u8; 32];
        // Few distinct leading nibbles, so that paths share long stretches.
        key[0] = next() & 0x11;
        key[1] = next() & 0x03;
        for byte in key.iter_mut().skip(2) {
            *byte = next() & 0x01;
        }
        key[31] = next();
        let value = vec![next(), next(), next()];
        out.push((key, value));
    }
    out.sort();
    out.dedup_by(|a, b| a.0 == b.0);
    out
}

#[test]
fn root_depends_on_content_not_on_history() {
    let entries = scattered(120, 7);
    assert!(entries.len() > 100);
    let all: Vec<TrieUpdate> = entries.iter().map(|(k, v)| put(k.clone(), v)).collect();
    let (at_once, nodes_at_once) = apply(&[], &[0u8; 32], all.clone());

    // In three batches, the last first.
    let mut root = vec![0u8; 32];
    let mut nodes = Vec::new();
    for chunk in all.chunks(40).rev() {
        let (r, n) = apply(&nodes, &root, chunk.to_vec());
        root = r;
        nodes = n;
    }
    assert_eq!(root, at_once);

    // With detours: extra keys that are removed again, values that are overwritten.
    let extra = scattered(60, 99);
    let mut root = vec![0u8; 32];
    let mut nodes = Vec::new();
    let detour: Vec<TrieUpdate> = extra.iter().map(|(k, _)| put(k.clone(), b"x")).collect();
    let (r, n) = apply(&nodes, &root, detour);
    root = r;
    nodes = n;
    let wrong: Vec<TrieUpdate> = entries.iter().map(|(k, _)| put(k.clone(), b"wrong")).collect();
    let (r, n) = apply(&nodes, &root, wrong);
    root = r;
    nodes = n;
    let mut fix: Vec<TrieUpdate> = extra
        .iter()
        .filter(|(k, _)| !entries.iter().any(|(e, _)| e == k))
        .map(|(k, _)| del(k.clone()))
        .collect();
    fix.extend(all.clone());
    let (r, n) = apply(&nodes, &root, fix);
    root = r;
    nodes = n;
    assert_eq!(root, at_once);

    for (k, v) in &entries {
        assert_eq!(lookup_key(&nodes, &root, k), Ok(Some(v.clone())));
        assert_eq!(lookup_key(&nodes_at_once, &at_once, k), Ok(Some(v.clone())));
    }
}

#[test]
fn removing_everything_gives_the_empty_root() {
    let entries = scattered(80, 3);
    let all: Vec<TrieUpdate> = entries.iter().map(|(k, v)| put(k.clone(), v)).collect();
    let (root, nodes) = apply(&[], &[0u8; 32], all);
    let none: Vec<TrieUpdate> = entries.iter().rev().map(|(k, _)| del(k.clone())).collect();
    let (empty, _) = apply(&nodes, &root, none);
    assert_eq!(empty, vec![0u8; 32]);
}

#[test]
fn created_nodes_come_with_their_hashes_children_first() {
    let entries = scattered(30, 11);
    let all: Vec<TrieUpdate> = entries.iter().map(|(k, v)| put(k.clone(), v)).collect();
    let engine = TrieEngine::new(Vec::new(), vec![0u8; 32]);
    let (root, created) = engine.update(&all).unwrap();
    assert_eq!(created.last().unwrap().hash, root);
    for (index, node) in created.iter().enumerate() {
        assert_eq!(node.hash, hash_bytes(&node.bytes));
        match decode_node(&node.bytes).unwrap() {
            Node::Leaf { .. } => {}
            Node::Extension { child, .. } => {
                assert!(created[..index].iter().any(|c| c.hash == child));
            }
            Node::Branch { children } => {
                assert!(children.iter().flatten().count() >= 2);
                for child in children.iter().flatten() {
                    assert!(created[..index].iter().any(|c| &c.hash == child));
                }
            }
        }
    }
}
