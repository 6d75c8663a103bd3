use stateless_validator::codec::{encode_stored, encode_witness, DecodeError, StoredWitness};
use stateless_validator::engine::update_trie;
use stateless_validator::execution::{Access, ExecutionAdapter, ExecutionError, TxResult};
use stateless_validator::hash::hash_bytes;
use stateless_validator::proofs::ProofError;
use stateless_validator::state::{encode_account, Account, StateError, StateProvider};
use stateless_validator::trie::{TrieError, TrieUpdate};
use stateless_validator::validator::{
    backoff_ms, AwaitWitness, BlockError, BlockOutcome, PollAction, PollPolicy, RunSummary,
    Unavailable, Validator,
};
use stateless_validator::witness::{Witness, WitnessLeaf, WitnessStatus};

fn account(nonce: u64, balance: u8) -> Vec<u8> {
    let mut b = vec![0u8; 32];
    b[31] = balance;
    encode_account(&Account {
        nonce,
        balance: b,
        code_hash: hash_bytes(&[]),
        storage_root: vec![0; 32],
    })
}

fn root_of(entries: &[(Vec<u8>, Vec<u8>)]) -> (Vec<u8>, Vec<stateless_validator::trie::ProofNode>) {
    let updates: Vec<TrieUpdate> = entries
        .iter()
        .map(|(k, v)| TrieUpdate { key: hash_bytes(k), value: Some(v.clone()) })
        .collect();
    update_trie(&Vec::new(), &[0u8; 32], &updates).unwrap()
}

struct Fixture {
    alice: Vec<u8>,
    bob: Vec<u8>,
    carol: Vec<u8>,
    root8: Vec<u8>,
    root9: Vec<u8>,
    stored: StoredWitness,
    txs: Vec<TxResult>,
}

/// Block 8 leaves alice with 100, bob with 5 and dave with 1. Block 9 moves 10
/// from alice to bob, creates carol with 3 and removes dave.
fn fixture() -> Fixture {
    let alice = vec![0xa1; 20];
    let bob = vec![0xb2; 20];
    let carol = vec![0xc3; 20];
    let dave = vec![0xd4; 20];
    let eve = vec![0xe5; 20];
    let state8 = vec![
        (alice.clone(), account(0, 100)),
        (bob.clone(), account(0, 5)),
        (dave.clone(), account(4, 1)),
        (eve.clone(), account(1, 9)),
    ];
    let (root8, nodes8) = root_of(&state8);
    let state9 = vec![
        (alice.clone(), account(1, 90)),
        (bob.clone(), account(0, 15)),
        (carol.clone(), account(0, 3)),
        (eve.clone(), account(1, 9)),
    ];
    let (root9, _) = root_of(&state9);
    let witness = Witness {
        old_root: root8.clone(),
        proof_nodes: nodes8,
        leaves: vec![
            WitnessLeaf { key: alice.clone(), value: Some(account(0, 100)) },
            WitnessLeaf { key: bob.clone(), value: Some(account(0, 5)) },
            WitnessLeaf { key: carol.clone(), value: None },
            WitnessLeaf { key: dave.clone(), value: Some(account(4, 1)) },
        ],
        block_number: 9,
        block_hash: vec![0x99; 32],
    };
    let stored = StoredWitness { status: WitnessStatus::Ready, data: encode_witness(&witness) };
    let txs = vec![
        TxResult::Executed {
            accesses: vec![
                Access::Read { key: alice.clone() },
                Access::Read { key: bob.clone() },
                Access::Write { key: alice.clone(), value: Some(account(1, 90)) },
                Access::Write { key: bob.clone(), value: Some(account(0, 15)) },
            ],
        },
        TxResult::Executed {
            accesses: vec![
                Access::Read { key: carol.clone() },
                Access::Write { key: carol.clone(), value: Some(account(0, 3)) },
                Access::Write { key: dave, value: None },
            ],
        },
    ];
    Fixture { alice, bob, carol, root8, root9, stored, txs }
}

#[test]
fn block_nine_validates_against_block_eight() {
    let f = fixture();
    assert_ne!(f.root8, f.root9);
    let outcome = Validator::validate(&f.stored, &f.root8, &f.root9, Vec::new(), &f.txs);
    assert_eq!(outcome, BlockOutcome::Matched { root: f.root9 });
}

#[test]
fn step_by_step_validation_matches() {
    let f = fixture();
    let witness = Validator::open_witness(&f.stored).unwrap();
    assert_eq!(Validator::verify_witness(&witness, &f.root8), Ok(()));
    let provider = StateProvider::new(witness.leaves.clone(), Vec::new(), false);
    let overlay = ExecutionAdapter::replay(&provider, &f.txs).unwrap();
    assert_eq!(overlay.len(), 4);
    let outcome = Validator::conclude(&witness, &overlay, &f.root9);
    assert_eq!(outcome, BlockOutcome::Matched { root: f.root9 });
}

#[test]
fn corrupted_diff_is_a_mismatch_not_a_failure() {
    let f = fixture();
    let mut txs = f.txs.clone();
    txs[0] = TxResult::Executed {
        accesses: vec![
            Access::Write { key: f.alice.clone(), value: Some(account(1, 90)) },
            Access::Write { key: f.bob.clone(), value: Some(account(0, 16)) },
        ],
    };
    let outcome = Validator::validate(&f.stored, &f.root8, &f.root9, Vec::new(), &txs);
    match outcome {
        BlockOutcome::Mismatched { computed, expected } => {
            assert_eq!(expected, f.root9);
            assert_ne!(computed, f.root9);
            assert_eq!(computed.len(), 32);
        }
        other => panic!("expected a mismatch, got {:?}", other),
    }
}

#[test]
fn block_without_changes_keeps_the_root() {
    let f = fixture();
    let txs = vec![TxResult::Executed { accesses: vec![Access::Read { key: f.alice.clone() }] }];
    let outcome = Validator::validate(&f.stored, &f.root8, &f.root8, Vec::new(), &txs);
    assert_eq!(outcome, BlockOutcome::Matched { root: f.root8 });
}

#[test]
fn witness_against_wrong_previous_root_is_unresolved() {
    let f = fixture();
    let outcome = Validator::validate(&f.stored, &f.root9, &f.root9, Vec::new(), &f.txs);
    assert_eq!(
        outcome,
        BlockOutcome::Unresolved(BlockError::ProofVerification(ProofError::RootMismatch))
    );
}

#[test]
fn tampered_witness_is_unresolved() {
    let f = fixture();
    let mut witness = Validator::open_witness(&f.stored).unwrap();
    witness.proof_nodes[0].bytes[0] ^= 0x80;
    let stored = StoredWitness { status: WitnessStatus::Ready, data: encode_witness(&witness) };
    let outcome = Validator::validate(&stored, &f.root8, &f.root9, Vec::new(), &f.txs);
    assert_eq!(
        outcome,
        BlockOutcome::Unresolved(BlockError::ProofVerification(ProofError::NodeHashMismatch {
            index: 0
        }))
    );
    assert_eq!(
        Validator::verify_witness(&witness, &f.root8),
        Err(BlockError::ProofVerification(ProofError::NodeHashMismatch { index: 0 }))
    );
}

#[test]
fn corrupt_payload_is_unresolved() {
    let f = fixture();
    let mut stored = f.stored.clone();
    stored.data.pop();
    let outcome = Validator::validate(&stored, &f.root8, &f.root9, Vec::new(), &f.txs);
    assert_eq!(
        outcome,
        BlockOutcome::Unresolved(BlockError::Deserialization(DecodeError::Malformed))
    );
}

#[test]
fn witness_that_is_not_ready_is_unresolved() {
    let f = fixture();
    for (status, reason) in [
        (WitnessStatus::Idle, Unavailable::NotReady),
        (WitnessStatus::Processing, Unavailable::NotReady),
        (WitnessStatus::Failed, Unavailable::GenerationFailed),
    ] {
        let stored = StoredWitness { status, data: f.stored.data.clone() };
        assert_eq!(
            Validator::open_witness(&stored),
            Err(BlockError::WitnessUnavailable(reason))
        );
        assert_eq!(
            Validator::validate(&stored, &f.root8, &f.root9, Vec::new(), &f.txs),
            BlockOutcome::Unresolved(BlockError::WitnessUnavailable(reason))
        );
    }
}

#[test]
fn read_outside_the_witness_is_unresolved() {
    let f = fixture();
    let txs = vec![TxResult::Executed { accesses: vec![Access::Read { key: vec![0xe5; 20] }] }];
    let outcome = Validator::validate(&f.stored, &f.root8, &f.root9, Vec::new(), &txs);
    assert_eq!(
        outcome,
        BlockOutcome::Unresolved(BlockError::WitnessIncomplete(ExecutionError::State {
            index: 0,
            error: StateError::Unresolved
        }))
    );
}

#[test]
fn rejected_transaction_is_unresolved() {
    let f = fixture();
    let txs = vec![f.txs[0].clone(), TxResult::Rejected { code: 7 }];
    let outcome = Validator::validate(&f.stored, &f.root8, &f.root9, Vec::new(), &txs);
    assert_eq!(
        outcome,
        BlockOutcome::Unresolved(BlockError::Execution(ExecutionError::Transaction {
            index: 1,
            code: 7
        }))
    );
}

#[test]
fn missing_proof_node_is_a_structural_error() {
    let f = fixture();
    let mut witness = Validator::open_witness(&f.stored).unwrap();
    let provider = StateProvider::new(witness.leaves.clone(), Vec::new(), false);
    let overlay = ExecutionAdapter::replay(&provider, &f.txs).unwrap();
    witness.proof_nodes.clear();
    let outcome = Validator::conclude(&witness, &overlay, &f.root9);
    assert_eq!(
        outcome,
        BlockOutcome::Unresolved(BlockError::TrieStructural(TrieError::MissingNode {
            hash: f.root8.clone()
        }))
    );
}

#[test]
fn stored_witness_bytes_round_trip_through_the_store_format() {
    let f = fixture();
    let bytes = encode_stored(&f.stored);
    let (status, data) = stateless_validator::codec::status_and_data(Some(&bytes)).unwrap();
    assert_eq!(status, WitnessStatus::Ready);
    assert_eq!(data, Some(f.stored.data.clone()));
    let _ = f.carol;
}

fn policy() -> PollPolicy {
    PollPolicy { max_attempts: 5, base_delay_ms: 100, max_delay_ms: 1000 }
}

#[test]
fn only_ready_proceeds() {
    for attempt in 0..10 {
        assert_eq!(
            AwaitWitness::on_status(&policy(), attempt, WitnessStatus::Ready),
            PollAction::Proceed
        );
        for status in [WitnessStatus::Idle, WitnessStatus::Processing, WitnessStatus::Failed] {
            assert_ne!(AwaitWitness::on_status(&policy(), attempt, status), PollAction::Proceed);
        }
    }
}

#[test]
fn failed_stops_at_once() {
    for attempt in 0..10 {
        assert_eq!(
            AwaitWitness::on_status(&policy(), attempt, WitnessStatus::Failed),
            PollAction::GiveUp { reason: Unavailable::GenerationFailed }
        );
    }
}

#[test]
fn idle_and_processing_retry_with_backoff_until_exhausted() {
    for status in [WitnessStatus::Idle, WitnessStatus::Processing] {
        let expected = [
            PollAction::Retry { delay_ms: 100 },
            PollAction::Retry { delay_ms: 200 },
            PollAction::Retry { delay_ms: 400 },
            PollAction::Retry { delay_ms: 800 },
            PollAction::GiveUp { reason: Unavailable::NotReady },
            PollAction::GiveUp { reason: Unavailable::NotReady },
        ];
        for (attempt, want) in expected.iter().enumerate() {
            assert_eq!(AwaitWitness::on_status(&policy(), attempt as u32, status), *want);
        }
    }
}

#[test]
fn backoff_is_capped_and_never_zero() {
    let p = policy();
    assert_eq!(backoff_ms(&p, 0), 100);
    assert_eq!(backoff_ms(&p, 3), 800);
    assert_eq!(backoff_ms(&p, 4), 1000);
    assert_eq!(backoff_ms(&p, 200), 1000);
    assert_eq!(backoff_ms(&p, u32::MAX >> 12), 1000);
    let zero = PollPolicy { max_attempts: 3, base_delay_ms: 0, max_delay_ms: 0 };
    assert_eq!(backoff_ms(&zero, 0), 1);
    assert_eq!(backoff_ms(&zero, 7), 1);
    let huge = PollPolicy { max_attempts: 3, base_delay_ms: u64::MAX, max_delay_ms: u64::MAX };
    assert_eq!(backoff_ms(&huge, 5), u64::MAX);
    let no_attempts = PollPolicy { max_attempts: 0, base_delay_ms: 1, max_delay_ms: 1 };
    assert_eq!(
        AwaitWitness::on_status(&no_attempts, 0, WitnessStatus::Idle),
        PollAction::GiveUp { reason: Unavailable::NotReady }
    );
}

#[test]
fn run_summary_counts_and_exit_code() {
    let mut s = RunSummary::new();
    assert_eq!(s.exit_code(), 0);
    s.record(&BlockOutcome::Matched { root: vec![1; 32] });
    s.record(&BlockOutcome::Mismatched { computed: vec![1; 32], expected: vec![2; 32] });
    s.record(&BlockOutcome::Mismatched { computed: vec![3; 32], expected: vec![2; 32] });
    assert_eq!(s, RunSummary { matched: 1, mismatched: 2, unresolved: 0 });
    assert_eq!(s.exit_code(), 0);
    s.record(&BlockOutcome::Unresolved(BlockError::WitnessUnavailable(Unavailable::NotReady)));
    assert_eq!(s, RunSummary { matched: 1, mismatched: 2, unresolved: 1 });
    assert_eq!(s.exit_code(), 1);
    let mut full = RunSummary { matched: u64::MAX, mismatched: 0, unresolved: 0 };
    full.record(&BlockOutcome::Matched { root: vec![] });
    assert_eq!(full.matched, u64::MAX);
    let _ = f_unused();
}

fn f_unused() -> Vec<u8> {
    fixture().bob
}
