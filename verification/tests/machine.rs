use stateless_validator::codec::{encode_stored, encode_witness, DecodeError, StoredWitness};
use stateless_validator::engine::update_trie;
use stateless_validator::execution::{Access, ExecutionAdapter, ExecutionError, TxResult};
use stateless_validator::hash::hash_bytes;
use stateless_validator::machine::{BlockAction, BlockContext, BlockEvent, BlockState};
use stateless_validator::proofs::ProofError;
use stateless_validator::state::{StateError, StateProvider};
use stateless_validator::trie::TrieUpdate;
use stateless_validator::validator::{
    BlockError, BlockOutcome, PollPolicy, Unavailable, Validator,
};
use stateless_validator::witness::{Witness, WitnessLeaf, WitnessStatus};

struct Scene {
    ctx: BlockContext,
    stored: Vec<u8>,
    txs: Vec<TxResult>,
}

fn root_of(entries: &[(&[u8], &[u8])]) -> (Vec<u8>, Vec<stateless_validator::trie::ProofNode>) {
    let updates: Vec<TrieUpdate> = entries
        .iter()
        .map(|(k, v)| TrieUpdate { key: hash_bytes(k), value: Some(v.to_vec()) })
        .collect();
    update_trie(&Vec::new(), &[0u8; 32], &updates).unwrap()
}

fn scene() -> Scene {
    let (before, nodes) = root_of(&[(b"alice", b"100"), (b"bob", b"5")]);
    let (after, _) = root_of(&[(b"alice", b"90"), (b"bob", b"15")]);
    let witness = Witness {
        old_root: before.clone(),
        proof_nodes: nodes,
        leaves: vec![
            WitnessLeaf { key: b"alice".to_vec(), value: Some(b"100".to_vec()) },
            WitnessLeaf { key: b"bob".to_vec(), value: Some(b"5".to_vec()) },
        ],
        block_number: 9,
        block_hash: vec![9; 32],
    };
    let stored = encode_stored(&StoredWitness {
        status: WitnessStatus::Ready,
        data: encode_witness(&witness),
    });
    let txs = vec![TxResult::Executed {
        accesses: vec![
            Access::Write { key: b"alice".to_vec(), value: Some(b"90".to_vec()) },
            Access::Write { key: b"bob".to_vec(), value: Some(b"15".to_vec()) },
        ],
    }];
    let ctx = BlockContext {
        policy: PollPolicy { max_attempts: 3, base_delay_ms: 10, max_delay_ms: 15 },
        previous_root: before,
        declared_root: after,
    };
    Scene { ctx, stored, txs }
}

fn status_only(status: WitnessStatus) -> Vec<u8> {
    encode_stored(&StoredWitness { status, data: Vec::new() })
}

/// Drives the machine as a driver would, answering every action.
fn drive(scene: &Scene, looks: Vec<Option<Vec<u8>>>) -> (BlockOutcome, Vec<BlockAction>) {
    let mut looks = looks.into_iter();
    let mut actions = Vec::new();
    let mut state = BlockState::start();
    let mut event = BlockEvent::Observed { stored: looks.next().unwrap() };
    loop {
        let (next, action) = state.step(&scene.ctx, event);
        actions.push(action);
        state = next;
        event = match action {
            BlockAction::Poll { .. } => BlockEvent::Observed { stored: looks.next().unwrap() },
            BlockAction::Continue => BlockEvent::Proceed,
            BlockAction::Replay => match &state {
                BlockState::Replaying { witness } => {
                    let provider = StateProvider::new(witness.leaves.clone(), Vec::new(), false);
                    BlockEvent::Replayed { result: ExecutionAdapter::replay(&provider, &scene.txs) }
                }
                other => panic!("replay asked for in {:?}", other),
            },
            BlockAction::Report => match state {
                BlockState::Finished { outcome } => return (outcome, actions),
                other => panic!("report asked for in {:?}", other),
            },
        };
    }
}

#[test]
fn machine_goes_through_every_phase() {
    let s = scene();
    let (outcome, actions) = drive(&s, vec![Some(s.stored.clone())]);
    assert_eq!(outcome, BlockOutcome::Matched { root: s.ctx.declared_root.clone() });
    assert_eq!(
        actions,
        vec![
            BlockAction::Continue,
            BlockAction::Replay,
            BlockAction::Continue,
            BlockAction::Continue,
            BlockAction::Report,
        ]
    );
}

#[test]
fn machine_agrees_with_validation_in_one_go() {
    let s = scene();
    let stored = stateless_validator::codec::decode_stored(&s.stored).unwrap();
    let direct = Validator::validate(
        &stored,
        &s.ctx.previous_root,
        &s.ctx.declared_root,
        Vec::new(),
        &s.txs,
    );
    let (outcome, _) = drive(&s, vec![Some(s.stored.clone())]);
    assert_eq!(outcome, direct);
}

#[test]
fn machine_waits_while_the_witness_is_not_ready() {
    let s = scene();
    let looks = vec![
        None,
        Some(status_only(WitnessStatus::Processing)),
        Some(s.stored.clone()),
    ];
    let (outcome, actions) = drive(&s, looks);
    assert_eq!(outcome, BlockOutcome::Matched { root: s.ctx.declared_root.clone() });
    assert_eq!(actions[0], BlockAction::Poll { delay_ms: 10 });
    assert_eq!(actions[1], BlockAction::Poll { delay_ms: 15 });
    assert_eq!(actions[2], BlockAction::Continue);
}

#[test]
fn machine_gives_up_when_attempts_are_used_up() {
    let s = scene();
    let looks = vec![None, None, Some(status_only(WitnessStatus::Idle))];
    let (outcome, actions) = drive(&s, looks);
    assert_eq!(
        outcome,
        BlockOutcome::Unresolved(BlockError::WitnessUnavailable(Unavailable::NotReady))
    );
    assert_eq!(actions.len(), 3);
    assert_eq!(actions[2], BlockAction::Report);
}

#[test]
fn machine_stops_at_once_on_failed_witness() {
    let s = scene();
    let (outcome, actions) = drive(&s, vec![Some(status_only(WitnessStatus::Failed))]);
    assert_eq!(
        outcome,
        BlockOutcome::Unresolved(BlockError::WitnessUnavailable(Unavailable::GenerationFailed))
    );
    assert_eq!(actions, vec![BlockAction::Report]);
}

#[test]
fn machine_reports_corrupt_store_and_payload() {
    let s = scene();
    let (outcome, _) = drive(&s, vec![Some(vec![1, 2, 3])]);
    assert_eq!(
        outcome,
        BlockOutcome::Unresolved(BlockError::Deserialization(DecodeError::Malformed))
    );
    let bad = encode_stored(&StoredWitness { status: WitnessStatus::Ready, data: vec![1, 2] });
    let (outcome, _) = drive(&s, vec![Some(bad)]);
    assert_eq!(
        outcome,
        BlockOutcome::Unresolved(BlockError::Deserialization(DecodeError::Malformed))
    );
    let (outcome, _) = drive(&s, vec![Some(vec![9, 0, 0, 0, 0, 0, 0, 0, 0, 0, 0, 0])]);
    assert_eq!(
        outcome,
        BlockOutcome::Unresolved(BlockError::Deserialization(DecodeError::UnknownStatus))
    );
}

#[test]
fn machine_reports_failed_verification_replay_and_mismatch() {
    let mut s = scene();
    let declared = s.ctx.declared_root.clone();
    s.ctx.previous_root = vec![1; 32];
    let (outcome, _) = drive(&s, vec![Some(s.stored.clone())]);
    assert_eq!(
        outcome,
        BlockOutcome::Unresolved(BlockError::ProofVerification(ProofError::RootMismatch))
    );

    let mut s = scene();
    s.txs = vec![TxResult::Rejected { code: 5 }];
    let (outcome, _) = drive(&s, vec![Some(s.stored.clone())]);
    assert_eq!(
        outcome,
        BlockOutcome::Unresolved(BlockError::Execution(ExecutionError::Transaction {
            index: 0,
            code: 5
        }))
    );

    let mut s = scene();
    s.txs = vec![TxResult::Executed { accesses: vec![Access::Read { key: b"carol".to_vec() }] }];
    let (outcome, _) = drive(&s, vec![Some(s.stored.clone())]);
    assert_eq!(
        outcome,
        BlockOutcome::Unresolved(BlockError::WitnessIncomplete(ExecutionError::State {
            index: 0,
            error: StateError::Unresolved
        }))
    );

    let mut s = scene();
    s.ctx.declared_root = vec![7; 32];
    let (outcome, _) = drive(&s, vec![Some(s.stored.clone())]);
    assert_eq!(outcome, BlockOutcome::Mismatched { computed: declared, expected: vec![7; 32] });
}

#[test]
fn unexpected_event_changes_nothing() {
    let s = scene();
    let (state, action) = BlockState::start().step(&s.ctx, BlockEvent::Proceed);
    assert_eq!(state, BlockState::AwaitWitness { attempt: 0 });
    assert_eq!(action, BlockAction::Poll { delay_ms: 10 });
    let done = BlockState::Finished { outcome: BlockOutcome::Matched { root: vec![1] } };
    let (state, action) = done.step(&s.ctx, BlockEvent::Observed { stored: None });
    assert_eq!(state, BlockState::Finished { outcome: BlockOutcome::Matched { root: vec![1] } });
    assert_eq!(action, BlockAction::Report);
}
