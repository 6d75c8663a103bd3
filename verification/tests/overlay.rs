use stateless_validator::diff::{StateDiffExtractor, StateUpdate};
use stateless_validator::execution::{Access, ExecutionAdapter, ExecutionError, TxResult};
use stateless_validator::hash::hash_bytes;
use stateless_validator::overlay::{OverlayCache, OverlayEntry};
use stateless_validator::state::{StateError, StateProvider};
use stateless_validator::trie::TrieUpdate;
use stateless_validator::witness::WitnessLeaf;

fn provider() -> StateProvider {
    let leaves = vec![
        WitnessLeaf { key: vec![5], value: Some(vec![50]) },
        WitnessLeaf { key: vec![1], value: Some(vec![10]) },
        WitnessLeaf { key: vec![3], value: None },
        WitnessLeaf { key: vec![1, 0], value: Some(vec![11]) },
    ];
    StateProvider::new(leaves, Vec::new(), false)
}

fn read(key: &[u8]) -> Access {
    Access::Read { key: key.to_vec() }
}

fn write(key: &[u8], value: Option<&[u8]>) -> Access {
    Access::Write { key: key.to_vec(), value: value.map(|v| v.to_vec()) }
}

fn entry(key: &[u8], initial: Option<&[u8]>, current: Option<&[u8]>) -> OverlayEntry {
    OverlayEntry {
        key: key.to_vec(),
        initial: initial.map(|v| v.to_vec()),
        current: current.map(|v| v.to_vec()),
    }
}

#[test]
fn reads_go_through_to_the_provider_and_are_recorded() {
    let p = provider();
    let before = p.clone();
    let mut o = OverlayCache::new();
    assert_eq!(o.len(), 0);
    assert_eq!(o.read(&p, &[5]), Ok(Some(vec![50])));
    assert_eq!(o.read(&p, &[3]), Ok(None));
    assert_eq!(o.read(&p, &[1, 0]), Ok(Some(vec![11])));
    assert_eq!(o.read(&p, &[1]), Ok(Some(vec![10])));
    assert_eq!(
        o.entries(),
        &vec![
            entry(&[1], Some(&[10]), Some(&[10])),
            entry(&[1, 0], Some(&[11]), Some(&[11])),
            entry(&[3], None, None),
            entry(&[5], Some(&[50]), Some(&[50])),
        ]
    );
    assert_eq!(p, before);
}

#[test]
fn writes_land_in_the_overlay_only() {
    let p = provider();
    let before = p.clone();
    let mut o = OverlayCache::new();
    assert_eq!(o.write(&p, &[5], Some(vec![51])), Ok(()));
    assert_eq!(o.read(&p, &[5]), Ok(Some(vec![51])));
    assert_eq!(o.write(&p, &[5], None), Ok(()));
    assert_eq!(o.read(&p, &[5]), Ok(None));
    assert_eq!(o.entries(), &vec![entry(&[5], Some(&[50]), None)]);
    assert_eq!(p, before);
    assert_eq!(p.resolve(&[5]), stateless_validator::state::Resolution::Found(Some(vec![50])));
}

#[test]
fn untouched_unresolved_key_is_an_error_and_changes_nothing() {
    let p = provider();
    let mut o = OverlayCache::new();
    assert_eq!(o.read(&p, &[9]), Err(StateError::Unresolved));
    assert_eq!(o.write(&p, &[9], Some(vec![1])), Err(StateError::Unresolved));
    assert_eq!(o.len(), 0);
    let fallback = StateProvider::new(Vec::new(), Vec::new(), true);
    assert_eq!(o.read(&fallback, &[9]), Err(StateError::FallbackNeeded));
    assert_eq!(o.len(), 0);
}

#[test]
fn diff_keeps_only_changes_in_key_order() {
    let p = provider();
    let mut o = OverlayCache::new();
    o.write(&p, &[5], Some(vec![51])).unwrap();
    o.read(&p, &[1]).unwrap();
    o.write(&p, &[3], Some(vec![30])).unwrap();
    o.write(&p, &[1, 0], None).unwrap();
    let diff = StateDiffExtractor::extract(&o);
    assert_eq!(diff.len(), 3);
    assert_eq!(
        diff.entries(),
        &vec![
            StateUpdate { key: vec![1, 0], value: None },
            StateUpdate { key: vec![3], value: Some(vec![30]) },
            StateUpdate { key: vec![5], value: Some(vec![51]) },
        ]
    );
}

#[test]
fn last_write_wins_and_write_back_is_no_change() {
    let p = provider();
    let mut o = OverlayCache::new();
    o.write(&p, &[5], Some(vec![1])).unwrap();
    o.write(&p, &[5], Some(vec![2])).unwrap();
    o.write(&p, &[1], Some(vec![99])).unwrap();
    o.write(&p, &[1], Some(vec![10])).unwrap();
    o.write(&p, &[3], Some(vec![1])).unwrap();
    o.write(&p, &[3], None).unwrap();
    let diff = StateDiffExtractor::extract(&o);
    assert_eq!(diff.entries(), &vec![StateUpdate { key: vec![5], value: Some(vec![2]) }]);
}

#[test]
fn diff_of_untouched_overlay_is_empty() {
    let diff = StateDiffExtractor::extract(&OverlayCache::new());
    assert_eq!(diff.len(), 0);
    assert_eq!(diff.to_trie_updates(), Vec::new());
}

#[test]
fn trie_updates_are_keyed_by_hash() {
    let p = provider();
    let mut o = OverlayCache::new();
    o.write(&p, &[5], Some(vec![51])).unwrap();
    o.write(&p, &[1], None).unwrap();
    let updates = StateDiffExtractor::extract(&o).to_trie_updates();
    assert_eq!(
        updates,
        vec![
            TrieUpdate { key: hash_bytes(&[1]), value: None },
            TrieUpdate { key: hash_bytes(&[5]), value: Some(vec![51]) },
        ]
    );
}

#[test]
fn replay_applies_transactions_in_order() {
    let p = provider();
    let txs = vec![
        TxResult::Executed { accesses: vec![read(&[1]), write(&[5], Some(&[1]))] },
        TxResult::Executed {
            accesses: vec![read(&[5]), write(&[5], Some(&[2])), write(&[3], Some(&[7]))],
        },
    ];
    let overlay = ExecutionAdapter::replay(&p, &txs).unwrap();
    assert_eq!(
        overlay.entries(),
        &vec![
            entry(&[1], Some(&[10]), Some(&[10])),
            entry(&[3], None, Some(&[7])),
            entry(&[5], Some(&[50]), Some(&[2])),
        ]
    );
    let swapped = vec![txs[1].clone(), txs[0].clone()];
    let other = ExecutionAdapter::replay(&p, &swapped).unwrap();
    assert_eq!(other.entries()[2], entry(&[5], Some(&[50]), Some(&[1])));
}

#[test]
fn replay_of_no_transactions_touches_nothing() {
    let overlay = ExecutionAdapter::replay(&provider(), &Vec::new()).unwrap();
    assert_eq!(overlay.len(), 0);
}

#[test]
fn rejected_transaction_aborts_replay() {
    let txs = vec![
        TxResult::Executed { accesses: vec![write(&[5], Some(&[1]))] },
        TxResult::Rejected { code: 42 },
        TxResult::Executed { accesses: vec![read(&[9])] },
    ];
    assert_eq!(
        ExecutionAdapter::replay(&provider(), &txs),
        Err(ExecutionError::Transaction { index: 1, code: 42 })
    );
}

#[test]
fn unresolved_read_aborts_replay() {
    let txs = vec![
        TxResult::Executed { accesses: vec![write(&[5], Some(&[1]))] },
        TxResult::Executed { accesses: vec![read(&[1]), read(&[9]), read(&[3])] },
    ];
    assert_eq!(
        ExecutionAdapter::replay(&provider(), &txs),
        Err(ExecutionError::State { index: 1, error: StateError::Unresolved })
    );
}

#[test]
fn replay_against_witness_equals_replay_against_full_state() {
    let witness_backed = provider();
    let mut leaves = witness_backed.leaves.clone();
    leaves.push(WitnessLeaf { key: vec![7], value: Some(vec![70]) });
    leaves.push(WitnessLeaf { key: vec![8], value: Some(vec![80]) });
    leaves.reverse();
    let full = StateProvider::new(leaves, Vec::new(), false);
    let txs = vec![
        TxResult::Executed {
            accesses: vec![read(&[1]), write(&[5], Some(&[1])), write(&[3], Some(&[4]))],
        },
        TxResult::Executed { accesses: vec![write(&[1, 0], None), read(&[3])] },
    ];
    let a = ExecutionAdapter::replay(&witness_backed, &txs).unwrap();
    let b = ExecutionAdapter::replay(&full, &txs).unwrap();
    assert_eq!(a, b);
    assert_eq!(StateDiffExtractor::extract(&a), StateDiffExtractor::extract(&b));
}
