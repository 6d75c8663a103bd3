//! The course of one block's validation as a state machine.
//!
//! A block waits for its witness, has it verified, is replayed, has its changes
//! extracted and its root recomputed, and ends with an outcome. The machine
//! decides; whoever drives it reads the store, sleeps and runs the execution
//! engine, as the machine's actions tell, and hands the results in as events.

use vstd::prelude::*;
use crate::codec::{
    decode_witness, parse_witness, status_and_data, status_and_data_spec, DecodeError,
};
use crate::diff::{diff_of, PlainStateUpdate, StateDiffExtractor, StateUpdateView};
use crate::execution::{replay_spec, ExecutionError, TxResultView};
use crate::state::ContractView;
use crate::overlay::{OverlayCache, OverlayEntryView};
use crate::proofs::{verify_spec, ProofVerifier};
use crate::trie::value_view;
use crate::validator::{
    backoff, backoff_ms, poll_action, provider_of, replay_error, root_outcome, validate_spec,
    AwaitWitness, BlockError, BlockErrorView, BlockOutcome, BlockOutcomeView, PollAction,
    PollPolicy, Validator,
};
use crate::witness::{Witness, WitnessStatus, WitnessView};

verus! {

/// What stays the same through the validation of one block.
#[derive(Debug, Clone, PartialEq, Eq)]
pub struct BlockContext {
    pub policy: PollPolicy,
    /// The state root that the block before declares.
    pub previous_root: Vec<u8>,
    /// The state root that the block declares.
    pub declared_root: Vec<u8>,
}

/// Where the validation of a block stands.
#[derive(Debug, PartialEq, Eq)]
pub enum BlockState {
    /// The witness is awaited; `attempt` counts the looks at the store so far.
    AwaitWitness { attempt: u32 },
    /// The witness is to be verified against the previous root.
    Verifying { witness: Witness },
    /// The block is to be replayed on top of the witness.
    Replaying { witness: Witness },
    /// The changes are to be extracted from the overlay of the replay.
    Diffing { witness: Witness, overlay: OverlayCache },
    /// The root is to be recomputed from the changes.
    RootUpdate { witness: Witness, diff: PlainStateUpdate },
    /// The validation has ended.
    Finished { outcome: BlockOutcome },
}

/// The mathematical value of a [`BlockState`].
pub enum BlockStateView {
    AwaitWitness { attempt: u32 },
    Verifying { witness: WitnessView },
    Replaying { witness: WitnessView },
    Diffing { witness: WitnessView, overlay: Seq<OverlayEntryView> },
    RootUpdate { witness: WitnessView, diff: Seq<StateUpdateView> },
    Finished { outcome: BlockOutcomeView },
}

impl View for BlockState {
    type V = BlockStateView;

    open spec fn view(&self) -> BlockStateView {
        match *self {
            BlockState::AwaitWitness { attempt } => BlockStateView::AwaitWitness { attempt },
            BlockState::Verifying { witness } => BlockStateView::Verifying { witness: witness@ },
            BlockState::Replaying { witness } => BlockStateView::Replaying { witness: witness@ },
            BlockState::Diffing { witness, overlay } => BlockStateView::Diffing {
                witness: witness@,
                overlay: overlay@,
            },
            BlockState::RootUpdate { witness, diff } => BlockStateView::RootUpdate {
                witness: witness@,
                diff: diff@,
            },
            BlockState::Finished { outcome } => BlockStateView::Finished { outcome: outcome@ },
        }
    }
}

/// What happened outside the machine.
#[derive(Debug, PartialEq, Eq)]
pub enum BlockEvent {
    /// The store was read: `stored` is what it holds for the block, if anything
    /// yet.
    Observed { stored: Option<Vec<u8>> },
    /// The execution engine has replayed the block.
    Replayed { result: Result<OverlayCache, ExecutionError> },
    /// Nothing happened outside; the next step is the machine's own.
    Proceed,
}

/// The mathematical value of a [`BlockEvent`].
pub enum BlockEventView {
    Observed { stored: Option<Seq<u8>> },
    Replayed { result: Result<Seq<OverlayEntryView>, ExecutionError> },
    Proceed,
}

impl View for BlockEvent {
    type V = BlockEventView;

    open spec fn view(&self) -> BlockEventView {
        match *self {
            BlockEvent::Observed { stored } => BlockEventView::Observed {
                stored: value_view(stored),
            },
            BlockEvent::Replayed { result } => BlockEventView::Replayed {
                result: match result {
                    Ok(overlay) => Ok(overlay@),
                    Err(e) => Err(e),
                },
            },
            BlockEvent::Proceed => BlockEventView::Proceed,
        }
    }
}

/// What the driver of the machine is to do next.
#[derive(Debug, Clone, Copy, PartialEq, Eq, Structural)]
pub enum BlockAction {
    /// Wait for the delay, read the store and hand in what it holds.
    Poll { delay_ms: u64 },
    /// Replay the block in the execution engine and hand in the result.
    Replay,
    /// Hand in that the machine may proceed.
    Continue,
    /// Report the outcome: the validation of the block has ended.
    Report,
}

/// The action that a state waits for.
pub open spec fn awaited(policy: PollPolicy, state: BlockStateView) -> BlockAction {
    match state {
        BlockStateView::AwaitWitness { attempt } => BlockAction::Poll {
            delay_ms: backoff(policy, attempt as nat) as u64,
        },
        BlockStateView::Replaying { witness } => BlockAction::Replay,
        BlockStateView::Finished { outcome } => BlockAction::Report,
        _ => BlockAction::Continue,
    }
}

/// The end of a validation that failed with `e`.
pub open spec fn failed(e: BlockErrorView) -> (BlockStateView, BlockAction) {
    (BlockStateView::Finished { outcome: BlockOutcomeView::Unresolved(e) }, BlockAction::Report)
}

/// The state after the store was read at the attempt with number `attempt`.
pub open spec fn observed(policy: PollPolicy, attempt: u32, stored: Option<Seq<u8>>) -> (
    BlockStateView,
    BlockAction,
) {
    match status_and_data_spec(stored) {
        Err(e) => failed(BlockErrorView::Deserialization(e)),
        Ok((status, data)) => match poll_action(policy, attempt, status) {
            PollAction::GiveUp { reason } => failed(BlockErrorView::WitnessUnavailable(reason)),
            PollAction::Retry { delay_ms } => (
                BlockStateView::AwaitWitness { attempt: (attempt + 1) as u32 },
                BlockAction::Poll { delay_ms },
            ),
            PollAction::Proceed => match data {
                None => failed(BlockErrorView::Deserialization(DecodeError::Malformed)),
                Some(payload) => match parse_witness(payload) {
                    None => failed(BlockErrorView::Deserialization(DecodeError::Malformed)),
                    Some(witness) => (
                        BlockStateView::Verifying { witness },
                        BlockAction::Continue,
                    ),
                },
            },
        },
    }
}

/// The state that follows `state` on `event`, and what the driver is to do
/// next. An event that the state does not wait for leaves the state as it is.
pub open spec fn step_spec(
    policy: PollPolicy,
    previous_root: Seq<u8>,
    declared_root: Seq<u8>,
    state: BlockStateView,
    event: BlockEventView,
) -> (BlockStateView, BlockAction) {
    match (state, event) {
        (BlockStateView::AwaitWitness { attempt }, BlockEventView::Observed { stored }) => observed(
            policy,
            attempt,
            stored,
        ),
        (BlockStateView::Verifying { witness }, BlockEventView::Proceed) => match verify_spec(
            witness,
            previous_root,
        ) {
            Ok(_) => (BlockStateView::Replaying { witness }, BlockAction::Replay),
            Err(e) => failed(BlockErrorView::ProofVerification(e)),
        },
        (
            BlockStateView::Replaying { witness },
            BlockEventView::Replayed { result },
        ) => match result {
            Ok(overlay) => (BlockStateView::Diffing { witness, overlay }, BlockAction::Continue),
            Err(e) => failed(replay_error(e)),
        },
        (BlockStateView::Diffing { witness, overlay }, BlockEventView::Proceed) => (
            BlockStateView::RootUpdate { witness, diff: diff_of(overlay) },
            BlockAction::Continue,
        ),
        (BlockStateView::RootUpdate { witness, diff }, BlockEventView::Proceed) => (
            BlockStateView::Finished { outcome: root_outcome(witness, diff, declared_root) },
            BlockAction::Report,
        ),
        (state, _) => (state, awaited(policy, state)),
    }
}

fn fail(e: BlockError) -> (next: (BlockState, BlockAction))
    ensures
        (next.0@, next.1) == failed(e@),
{
    (BlockState::Finished { outcome: BlockOutcome::Unresolved(e) }, BlockAction::Report)
}

fn observe(policy: &PollPolicy, attempt: u32, stored: Option<Vec<u8>>) -> (next: (
    BlockState,
    BlockAction,
))
    ensures
        (next.0@, next.1) == observed(*policy, attempt, value_view(stored)),
{
    let read = match &stored {
        Some(bytes) => status_and_data(Some(bytes.as_slice())),
        None => status_and_data(None),
    };
    match read {
        Err(e) => fail(BlockError::Deserialization(e)),
        Ok((status, data)) => match AwaitWitness::on_status(policy, attempt, status) {
            PollAction::GiveUp { reason } => fail(BlockError::WitnessUnavailable(reason)),
            PollAction::Retry { delay_ms } => (
                BlockState::AwaitWitness { attempt: attempt + 1 },
                BlockAction::Poll { delay_ms },
            ),
            PollAction::Proceed => match data {
                None => fail(BlockError::Deserialization(DecodeError::Malformed)),
                Some(payload) => match decode_witness(payload.as_slice()) {
                    Err(e) => fail(BlockError::Deserialization(e)),
                    Ok(witness) => (BlockState::Verifying { witness }, BlockAction::Continue),
                },
            },
        },
    }
}

impl BlockState {
    /// The state in which the validation of every block begins.
    pub fn start() -> (state: BlockState)
        ensures
            state@ == (BlockStateView::AwaitWitness { attempt: 0 }),
    {
        BlockState::AwaitWitness { attempt: 0 }
    }

    /// The state that follows on `event`, and what the driver is to do next.
    /// The witness is read only once the store reports it ready; every failure
    /// ends the validation of this block with an outcome; an event that the
    /// state does not wait for changes nothing.
    pub fn step(self, ctx: &BlockContext, event: BlockEvent) -> (next: (BlockState, BlockAction))
        ensures
            (next.0@, next.1) == step_spec(
                ctx.policy,
                ctx.previous_root@,
                ctx.declared_root@,
                self@,
                event@,
            ),
    {
        match (self, event) {
            (BlockState::AwaitWitness { attempt }, BlockEvent::Observed { stored }) => observe(
                &ctx.policy,
                attempt,
                stored,
            ),
            (BlockState::Verifying { witness }, BlockEvent::Proceed) => {
                match ProofVerifier::verify(&witness, ctx.previous_root.as_slice()) {
                    Ok(_) => (BlockState::Replaying { witness }, BlockAction::Replay),
                    Err(e) => fail(BlockError::ProofVerification(e)),
                }
            },
            (BlockState::Replaying { witness }, BlockEvent::Replayed { result }) => match result {
                Ok(overlay) => (BlockState::Diffing { witness, overlay }, BlockAction::Continue),
                Err(e) => match e {
                    ExecutionError::State { .. } => fail(BlockError::WitnessIncomplete(e)),
                    ExecutionError::Transaction { .. } => fail(BlockError::Execution(e)),
                },
            },
            (BlockState::Diffing { witness, overlay }, BlockEvent::Proceed) => {
                let diff = StateDiffExtractor::extract(&overlay);
                (BlockState::RootUpdate { witness, diff }, BlockAction::Continue)
            },
            (BlockState::RootUpdate { witness, diff }, BlockEvent::Proceed) => {
                let outcome = Validator::compare_root(
                    &witness,
                    &diff,
                    ctx.declared_root.as_slice(),
                );
                (BlockState::Finished { outcome }, BlockAction::Report)
            },
            (state, _) => {
                let action = match &state {
                    BlockState::AwaitWitness { attempt } => BlockAction::Poll {
                        delay_ms: backoff_ms(&ctx.policy, *attempt),
                    },
                    BlockState::Replaying { .. } => BlockAction::Replay,
                    BlockState::Finished { .. } => BlockAction::Report,
                    _ => BlockAction::Continue,
                };
                (state, action)
            },
        }
    }
}

/// The witness is awaited until the store reports it ready. From the waiting
/// state the machine goes on to verify only on a look at the store that shows a
/// ready witness; a witness that failed ends the validation at that look; an
/// idle or processing one keeps the machine waiting or ends the validation, and
/// never lets it go on.
pub proof fn law_status_gating(
    policy: PollPolicy,
    previous_root: Seq<u8>,
    declared_root: Seq<u8>,
    attempt: u32,
    event: BlockEventView,
)
    ensures
        ({
            let next = step_spec(
                policy,
                previous_root,
                declared_root,
                BlockStateView::AwaitWitness { attempt },
                event,
            ).0;
            &&& next is AwaitWitness || next is Verifying || next is Finished
            &&& next is Verifying ==> (event matches BlockEventView::Observed { stored }
                && status_and_data_spec(stored) matches Ok((WitnessStatus::Ready, _)))
            &&& (event matches BlockEventView::Observed { stored } && status_and_data_spec(stored)
                matches Ok((WitnessStatus::Failed, _))) ==> next is Finished
        }),
{
}


/// The state after the first `n` of `events`, one after the other.
pub open spec fn drive(
    policy: PollPolicy,
    previous_root: Seq<u8>,
    declared_root: Seq<u8>,
    state: BlockStateView,
    events: Seq<BlockEventView>,
    n: nat,
) -> BlockStateView
    decreases n,
{
    if n == 0 {
        state
    } else {
        step_spec(
            policy,
            previous_root,
            declared_root,
            drive(policy, previous_root, declared_root, state, events, (n - 1) as nat),
            events[n - 1],
        ).0
    }
}

/// The machine and the validation in one go agree: where the store holds a
/// ready witness and the engine reports `txs` of the block, handing the machine
/// the look at the store, the go-ahead, the result of the replay and two more
/// go-aheads ends in the outcome that validating the block in one go gives.
pub proof fn law_machine_outcome(
    policy: PollPolicy,
    attempt: u32,
    stored: Seq<u8>,
    data: Seq<u8>,
    previous_root: Seq<u8>,
    declared_root: Seq<u8>,
    contracts: Seq<ContractView>,
    txs: Seq<TxResultView>,
)
    requires
        status_and_data_spec(Some(stored)) == Ok::<
            (WitnessStatus, Option<Seq<u8>>),
            DecodeError,
        >((WitnessStatus::Ready, Some(data))),
    ensures
        ({
            let replayed = match parse_witness(data) {
                Some(w) => replay_spec(provider_of(w, contracts, false), txs, txs.len()),
                None => Ok(Seq::empty()),
            };
            let events = seq![
                BlockEventView::Observed { stored: Some(stored) },
                BlockEventView::Proceed,
                BlockEventView::Replayed { result: replayed },
                BlockEventView::Proceed,
                BlockEventView::Proceed,
            ];
            drive(
                policy,
                previous_root,
                declared_root,
                BlockStateView::AwaitWitness { attempt },
                events,
                5,
            ) == (BlockStateView::Finished {
                outcome: validate_spec(
                    WitnessStatus::Ready,
                    data,
                    previous_root,
                    declared_root,
                    contracts,
                    txs,
                ),
            })
        }),
{
    let replayed = match parse_witness(data) {
        Some(w) => replay_spec(provider_of(w, contracts, false), txs, txs.len()),
        None => Ok(Seq::empty()),
    };
    let events = seq![
        BlockEventView::Observed { stored: Some(stored) },
        BlockEventView::Proceed,
        BlockEventView::Replayed { result: replayed },
        BlockEventView::Proceed,
        BlockEventView::Proceed,
    ];
    let start = BlockStateView::AwaitWitness { attempt };
    reveal_with_fuel(drive, 6);
    let s0 = drive(policy, previous_root, declared_root, start, events, 0);
    let s1 = drive(policy, previous_root, declared_root, start, events, 1);
    let s2 = drive(policy, previous_root, declared_root, start, events, 2);
    let s3 = drive(policy, previous_root, declared_root, start, events, 3);
    let s4 = drive(policy, previous_root, declared_root, start, events, 4);
    let s5 = drive(policy, previous_root, declared_root, start, events, 5);
    assert(s0 == start);
    assert(s1 == step_spec(policy, previous_root, declared_root, s0, events[0]).0);
    assert(s2 == step_spec(policy, previous_root, declared_root, s1, events[1]).0);
    assert(s3 == step_spec(policy, previous_root, declared_root, s2, events[2]).0);
    assert(s4 == step_spec(policy, previous_root, declared_root, s3, events[3]).0);
    assert(s5 == step_spec(policy, previous_root, declared_root, s4, events[4]).0);
}

} // verus!
