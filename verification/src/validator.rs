//! The validator: what is decided, block by block, between the steps that touch
//! the outside world.
//!
//! For each block the witness is awaited, decoded and verified against the
//! state root of the block before; the block is replayed on top of the witness;
//! the changes are extracted; the trie is updated with them, and the new root
//! is compared with the root that the block declares.

use vstd::prelude::*;
use crate::bytes::{bytes_eq, copy_bytes};
use crate::codec::{decode_witness, parse_witness, DecodeError, StoredWitness};
use crate::diff::{diff_of, trie_updates_of, PlainStateUpdate, StateDiffExtractor, StateUpdateView};
use crate::engine::update_trie;
use crate::execution::{
    replay_spec, txs_view, ExecutionAdapter, ExecutionError, TxResult, TxResultView,
};
use crate::overlay::{OverlayCache, OverlayEntryView};
use crate::proofs::{
    law_verified_witness, leaf_proven, trie_key, verify_spec, ProofError, ProofVerifier,
};
use crate::state::{
    contracts_view, find_leaf, resolve_key, Contract, ContractView, ResolutionView, StateProvider,
    StateProviderView,
};
use crate::trie::{apply_updates, lookup, TrieError, TrieErrorView};
use crate::witness::{Witness, WitnessLeafView, WitnessStatus, WitnessView};

verus! {

/// How long and how often to wait for a witness.
#[derive(Debug, Clone, Copy, PartialEq, Eq)]
pub struct PollPolicy {
    /// How many times the status is asked for at most.
    pub max_attempts: u32,
    /// The delay after the first attempt, in milliseconds.
    pub base_delay_ms: u64,
    /// The longest delay between two attempts, in milliseconds.
    pub max_delay_ms: u64,
}

/// Why no witness can be had for a block.
#[derive(Debug, Clone, Copy, PartialEq, Eq, Structural)]
pub enum Unavailable {
    /// The generator gave the witness up.
    GenerationFailed,
    /// The witness was not ready within the attempts allowed.
    NotReady,
}

/// What to do after the status of a witness was observed.
#[derive(Debug, Clone, Copy, PartialEq, Eq, Structural)]
pub enum PollAction {
    /// The witness is ready: go on to verify it.
    Proceed,
    /// Ask again after the delay.
    Retry { delay_ms: u64 },
    /// Stop asking: the block stays unresolved.
    GiveUp { reason: Unavailable },
}

/// Two to the power of `n`.
pub open spec fn pow2(n: nat) -> nat
    decreases n,
{
    if n == 0 {
        1
    } else {
        2 * pow2((n - 1) as nat)
    }
}

/// The longest delay that a policy allows: at least one millisecond.
pub open spec fn delay_cap(policy: PollPolicy) -> int {
    if policy.max_delay_ms < 1 {
        1
    } else {
        policy.max_delay_ms as int
    }
}

/// The delay after the attempt with number `attempt` (counted from 0): the base
/// delay doubled with each attempt, at most the cap and at least one
/// millisecond.
pub open spec fn backoff(policy: PollPolicy, attempt: nat) -> int {
    let raw = policy.base_delay_ms * pow2(attempt);
    if raw > delay_cap(policy) {
        delay_cap(policy)
    } else if raw < 1 {
        1
    } else {
        raw
    }
}

/// What follows from observing `status` at the attempt with number `attempt`.
pub open spec fn poll_action(
    policy: PollPolicy,
    attempt: u32,
    status: WitnessStatus,
) -> PollAction {
    match status {
        WitnessStatus::Ready => PollAction::Proceed,
        WitnessStatus::Failed => PollAction::GiveUp { reason: Unavailable::GenerationFailed },
        _ => if attempt + 1 >= policy.max_attempts {
            PollAction::GiveUp { reason: Unavailable::NotReady }
        } else {
            PollAction::Retry { delay_ms: backoff(policy, attempt as nat) as u64 }
        },
    }
}

proof fn lemma_double(base: int, k: nat)
    ensures
        base * pow2(k + 1) == 2 * (base * pow2(k)),
{
    assert(pow2(k + 1) == 2 * pow2(k));
    assert(base * (2 * pow2(k)) == 2 * (base * pow2(k))) by (nonlinear_arith);
}

/// The delay after the attempt with number `attempt`.
pub fn backoff_ms(policy: &PollPolicy, attempt: u32) -> (delay: u64)
    ensures
        delay == backoff(*policy, attempt as nat),
        1 <= delay <= delay_cap(*policy),
{
    let cap: u64 = if policy.max_delay_ms < 1 {
        1
    } else {
        policy.max_delay_ms
    };
    let mut d: u64 = if policy.base_delay_ms > cap {
        cap
    } else {
        policy.base_delay_ms
    };
    let mut k: u32 = 0;
    assert(pow2(0) == 1);
    assert(policy.base_delay_ms * pow2(0) == policy.base_delay_ms) by (nonlinear_arith)
        requires
            pow2(0) == 1,
    ;
    while k < attempt
        invariant
            k <= attempt,
            cap == delay_cap(*policy),
            d <= cap,
            d == if policy.base_delay_ms * pow2(k as nat) > cap {
                cap as int
            } else {
                policy.base_delay_ms * pow2(k as nat)
            },
        decreases attempt - k,
    {
        proof {
            lemma_double(policy.base_delay_ms as int, k as nat);
        }
        if d > cap / 2 {
            d = cap;
        } else {
            d = d * 2;
        }
        k += 1;
    }
    if d < 1 {
        1
    } else {
        d
    }
}

/// Waits for a witness: decides after each look at its status.
pub struct AwaitWitness;

impl AwaitWitness {
    /// What to do after `status` was observed at the attempt with number
    /// `attempt`, counted from 0. The validator goes on only when the witness
    /// is ready; it stops at once when the generator has failed; while the
    /// witness is idle or processing it asks again after a delay of at least
    /// one millisecond, until the attempts are used up.
    pub fn on_status(policy: &PollPolicy, attempt: u32, status: WitnessStatus) -> (action:
        PollAction)
        ensures
            action == poll_action(*policy, attempt, status),
            action is Proceed <==> status is Ready,
            status is Failed ==> action == (PollAction::GiveUp {
                reason: Unavailable::GenerationFailed,
            }),
            action matches PollAction::Retry { delay_ms } ==> (status is Idle
                || status is Processing)
                && attempt + 1 < policy.max_attempts && 1 <= delay_ms <= delay_cap(*policy),
    {
        match status {
            WitnessStatus::Ready => PollAction::Proceed,
            WitnessStatus::Failed => PollAction::GiveUp { reason: Unavailable::GenerationFailed },
            _ => {
                if attempt >= policy.max_attempts || policy.max_attempts - attempt <= 1 {
                    PollAction::GiveUp { reason: Unavailable::NotReady }
                } else {
                    PollAction::Retry { delay_ms: backoff_ms(policy, attempt) }
                }
            },
        }
    }
}

/// Why a block could not be validated.
#[derive(Debug, Clone, PartialEq, Eq)]
pub enum BlockError {
    /// No witness could be had.
    WitnessUnavailable(Unavailable),
    /// The witness is not of the stored form.
    Deserialization(DecodeError),
    /// The witness does not prove what it asserts against the old root.
    ProofVerification(ProofError),
    /// The replay touched a key that the witness does not cover.
    WitnessIncomplete(ExecutionError),
    /// The engine rejected a transaction.
    Execution(ExecutionError),
    /// The proof nodes do not describe a trie along the touched paths.
    TrieStructural(TrieError),
}

/// The mathematical value of a [`BlockError`].
pub enum BlockErrorView {
    WitnessUnavailable(Unavailable),
    Deserialization(DecodeError),
    ProofVerification(ProofError),
    WitnessIncomplete(ExecutionError),
    Execution(ExecutionError),
    TrieStructural(TrieErrorView),
}

impl View for BlockError {
    type V = BlockErrorView;

    open spec fn view(&self) -> BlockErrorView {
        match *self {
            BlockError::WitnessUnavailable(r) => BlockErrorView::WitnessUnavailable(r),
            BlockError::Deserialization(e) => BlockErrorView::Deserialization(e),
            BlockError::ProofVerification(e) => BlockErrorView::ProofVerification(e),
            BlockError::WitnessIncomplete(e) => BlockErrorView::WitnessIncomplete(e),
            BlockError::Execution(e) => BlockErrorView::Execution(e),
            BlockError::TrieStructural(e) => BlockErrorView::TrieStructural(e@),
        }
    }
}

/// How the validation of a block ended.
#[derive(Debug, Clone, PartialEq, Eq)]
pub enum BlockOutcome {
    /// The recomputed root is the root that the block declares.
    Matched { root: Vec<u8> },
    /// The recomputed root differs from the root that the block declares.
    Mismatched { computed: Vec<u8>, expected: Vec<u8> },
    /// The block could not be validated.
    Unresolved(BlockError),
}

/// The mathematical value of a [`BlockOutcome`].
pub enum BlockOutcomeView {
    Matched { root: Seq<u8> },
    Mismatched { computed: Seq<u8>, expected: Seq<u8> },
    Unresolved(BlockErrorView),
}

impl View for BlockOutcome {
    type V = BlockOutcomeView;

    open spec fn view(&self) -> BlockOutcomeView {
        match *self {
            BlockOutcome::Matched { root } => BlockOutcomeView::Matched { root: root@ },
            BlockOutcome::Mismatched { computed, expected } => BlockOutcomeView::Mismatched {
                computed: computed@,
                expected: expected@,
            },
            BlockOutcome::Unresolved(e) => BlockOutcomeView::Unresolved(e@),
        }
    }
}

/// The witness that a stored witness holds: only a ready one is read.
pub open spec fn open_spec(status: WitnessStatus, data: Seq<u8>) -> Result<
    WitnessView,
    BlockErrorView,
> {
    match status {
        WitnessStatus::Ready => match parse_witness(data) {
            Some(w) => Ok(w),
            None => Err(BlockErrorView::Deserialization(DecodeError::Malformed)),
        },
        WitnessStatus::Failed => Err(
            BlockErrorView::WitnessUnavailable(Unavailable::GenerationFailed),
        ),
        _ => Err(BlockErrorView::WitnessUnavailable(Unavailable::NotReady)),
    }
}

/// Whether a failed replay is laid to the witness or to the engine.
pub open spec fn replay_error(e: ExecutionError) -> BlockErrorView {
    match e {
        ExecutionError::State { index, error } => BlockErrorView::WitnessIncomplete(e),
        ExecutionError::Transaction { index, code } => BlockErrorView::Execution(e),
    }
}

/// The outcome of a block whose changes are `diff`: the trie of the witness is
/// updated with them, and the new root is compared with the declared one.
pub open spec fn root_outcome(
    w: WitnessView,
    diff: Seq<StateUpdateView>,
    declared_root: Seq<u8>,
) -> BlockOutcomeView {
    match apply_updates(w.proof_nodes, w.old_root, trie_updates_of(diff)) {
        Err(e) => BlockOutcomeView::Unresolved(BlockErrorView::TrieStructural(e)),
        Ok((root, created)) => if root == declared_root {
            BlockOutcomeView::Matched { root }
        } else {
            BlockOutcomeView::Mismatched { computed: root, expected: declared_root }
        },
    }
}

/// The outcome of a block whose replay left `overlay`.
pub open spec fn conclude_spec(
    w: WitnessView,
    overlay: Seq<OverlayEntryView>,
    declared_root: Seq<u8>,
) -> BlockOutcomeView {
    root_outcome(w, diff_of(overlay), declared_root)
}

/// The state provider of a block's replay: the leaves of its witness and the
/// bytecode table, with nothing fetched.
pub open spec fn provider_of(
    w: WitnessView,
    contracts: Seq<ContractView>,
    allow_fallback: bool,
) -> StateProviderView {
    StateProviderView {
        leaves: w.leaves,
        contracts,
        allow_fallback,
        fetched: Seq::empty(),
    }
}

/// The outcome of a block, given what is stored as its witness, the state root
/// of the block before, the root that the block declares, and what the engine
/// reports of its transactions.
pub open spec fn validate_spec(
    status: WitnessStatus,
    data: Seq<u8>,
    previous_root: Seq<u8>,
    declared_root: Seq<u8>,
    contracts: Seq<ContractView>,
    txs: Seq<TxResultView>,
) -> BlockOutcomeView {
    match open_spec(status, data) {
        Err(e) => BlockOutcomeView::Unresolved(e),
        Ok(w) => match verify_spec(w, previous_root) {
            Err(e) => BlockOutcomeView::Unresolved(BlockErrorView::ProofVerification(e)),
            Ok(_) => match replay_spec(provider_of(w, contracts, false), txs, txs.len()) {
                Err(e) => BlockOutcomeView::Unresolved(replay_error(e)),
                Ok(overlay) => conclude_spec(w, overlay, declared_root),
            },
        },
    }
}

/// The mathematical value of an opened witness, or of the error.
pub open spec fn witness_result_view(res: Result<Witness, BlockError>) -> Result<
    WitnessView,
    BlockErrorView,
> {
    match res {
        Ok(w) => Ok(w@),
        Err(e) => Err(e@),
    }
}

/// The steps of a block's validation that need nothing from outside.
pub struct Validator;

impl Validator {
    /// Reads the witness out of what is stored for a block. Only a ready
    /// witness is read; one that failed or is not ready yet leaves the block
    /// unresolved, and so does a payload that does not decode.
    pub fn open_witness(stored: &StoredWitness) -> (res: Result<Witness, BlockError>)
        ensures
            witness_result_view(res) == open_spec(stored.status, stored.data@),
    {
        match stored.status {
            WitnessStatus::Ready => match decode_witness(stored.data.as_slice()) {
                Ok(w) => Ok(w),
                Err(e) => Err(BlockError::Deserialization(e)),
            },
            WitnessStatus::Failed => Err(
                BlockError::WitnessUnavailable(Unavailable::GenerationFailed),
            ),
            _ => Err(BlockError::WitnessUnavailable(Unavailable::NotReady)),
        }
    }

    /// Verifies the witness against the state root of the block before.
    pub fn verify_witness(witness: &Witness, previous_root: &[u8]) -> (res: Result<(), BlockError>)
        ensures
            match res {
                Ok(_) => verify_spec(witness@, previous_root@) is Ok,
                Err(e) => verify_spec(witness@, previous_root@) matches Err(f) && e
                    == BlockError::ProofVerification(f),
            },
    {
        match ProofVerifier::verify(witness, previous_root) {
            Ok(_) => Ok(()),
            Err(e) => Err(BlockError::ProofVerification(e)),
        }
    }

    /// Updates the trie of the witness with the changes of a block and compares
    /// the new root with the root that the block declares. A root that differs
    /// is an outcome, not an error; only a trie that the proof nodes do not
    /// describe leaves the block unresolved.
    pub fn compare_root(
        witness: &Witness,
        diff: &PlainStateUpdate,
        declared_root: &[u8],
    ) -> (outcome:
        BlockOutcome)
        ensures
            outcome@ == root_outcome(witness@, diff@, declared_root@),
    {
        let updates = diff.to_trie_updates();
        match update_trie(&witness.proof_nodes, witness.old_root.as_slice(), &updates) {
            Err(e) => BlockOutcome::Unresolved(BlockError::TrieStructural(e)),
            Ok((root, _)) => {
                if bytes_eq(root.as_slice(), declared_root) {
                    BlockOutcome::Matched { root }
                } else {
                    BlockOutcome::Mismatched { computed: root, expected: copy_bytes(declared_root) }
                }
            },
        }
    }

    /// Ends the validation of a block whose replay left `overlay`: extracts the
    /// diff and compares the root that it leads to with the declared one.
    pub fn conclude(witness: &Witness, overlay: &OverlayCache, declared_root: &[u8]) -> (outcome:
        BlockOutcome)
        ensures
            outcome@ == conclude_spec(witness@, overlay@, declared_root@),
    {
        let diff = StateDiffExtractor::extract(overlay);
        Validator::compare_root(witness, &diff, declared_root)
    }

    /// Validates a block from what is stored as its witness, the state root of
    /// the block before, the root that the block declares, the bytecode table
    /// and what the engine reports of the block's transactions. Every failure
    /// ends in an outcome for this block; none is passed on.
    pub fn validate(
        stored: &StoredWitness,
        previous_root: &[u8],
        declared_root: &[u8],
        contracts: Vec<Contract>,
        txs: &Vec<TxResult>,
    ) -> (outcome: BlockOutcome)
        ensures
            outcome@ == validate_spec(
                stored.status,
                stored.data@,
                previous_root@,
                declared_root@,
                contracts_view(contracts@),
                txs_view(txs@),
            ),
    {
        let witness = match Validator::open_witness(stored) {
            Err(e) => {
                return BlockOutcome::Unresolved(e);
            },
            Ok(w) => w,
        };
        match ProofVerifier::verify(&witness, previous_root) {
            Err(e) => {
                return BlockOutcome::Unresolved(BlockError::ProofVerification(e));
            },
            Ok(_) => {},
        }
        let Witness { old_root, proof_nodes, leaves, block_number, block_hash } = witness;
        let ghost w = WitnessView {
            old_root: old_root@,
            proof_nodes: crate::trie::store_view(proof_nodes@),
            leaves: crate::witness::leaves_view(leaves@),
            block_number,
            block_hash: block_hash@,
        };
        let provider = StateProvider::new(leaves, contracts, false);
        assert(provider@ == provider_of(w, contracts_view(contracts@), false));
        let overlay = match ExecutionAdapter::replay(&provider, txs) {
            Err(e) => {
                return match e {
                    ExecutionError::State { .. } => BlockOutcome::Unresolved(
                        BlockError::WitnessIncomplete(e),
                    ),
                    ExecutionError::Transaction { .. } => BlockOutcome::Unresolved(
                        BlockError::Execution(e),
                    ),
                };
            },
            Ok(o) => o,
        };
        let diff = StateDiffExtractor::extract(&overlay);
        let updates = diff.to_trie_updates();
        match update_trie(&proof_nodes, old_root.as_slice(), &updates) {
            Err(e) => BlockOutcome::Unresolved(BlockError::TrieStructural(e)),
            Ok((root, _)) => {
                if bytes_eq(root.as_slice(), declared_root) {
                    BlockOutcome::Matched { root }
                } else {
                    BlockOutcome::Mismatched { computed: root, expected: copy_bytes(declared_root) }
                }
            },
        }
    }
}

proof fn lemma_find_leaf_index(leaves: Seq<WitnessLeafView>, key: Seq<u8>) -> (i: int)
    requires
        find_leaf(leaves, key) is Some,
    ensures
        0 <= i < leaves.len(),
        leaves[i].key == key,
        find_leaf(leaves, key) == Some(leaves[i].value),
    decreases leaves.len(),
{
    if leaves[0].key == key {
        0
    } else {
        let j = lemma_find_leaf_index(leaves.skip(1), key);
        assert(leaves.skip(1)[j] == leaves[j + 1]);
        j + 1
    }
}

/// The provider of a verified witness serves proven values only: what it
/// answers for a key from the leaves of the witness is what the trie with the
/// verified root holds under that key.
pub proof fn law_provider_serves_proven_values(
    w: WitnessView,
    root: Seq<u8>,
    contracts: Seq<ContractView>,
    key: Seq<u8>,
    value: Option<Seq<u8>>,
)
    requires
        verify_spec(w, root) is Ok,
        resolve_key(provider_of(w, contracts, false), key) == ResolutionView::Found(value),
    ensures
        lookup(w.proof_nodes, root, trie_key(key)) == Ok::<Option<Seq<u8>>, TrieErrorView>(value),
{
    let i = lemma_find_leaf_index(w.leaves, key);
    law_verified_witness(w, root);
    assert(leaf_proven(w.proof_nodes, root, w.leaves[i]));
}

/// The outcomes of a run over a range of blocks, counted.
#[derive(Debug, Clone, Copy, PartialEq, Eq)]
pub struct RunSummary {
    pub matched: u64,
    pub mismatched: u64,
    pub unresolved: u64,
}

/// One more, unless the count is at its limit.
pub open spec fn bump(n: u64) -> u64 {
    if n < u64::MAX {
        (n + 1) as u64
    } else {
        n
    }
}

/// The summary after one more outcome.
pub open spec fn recorded(s: RunSummary, outcome: BlockOutcomeView) -> RunSummary {
    match outcome {
        BlockOutcomeView::Matched { root } => RunSummary {
            matched: bump(s.matched),
            mismatched: s.mismatched,
            unresolved: s.unresolved,
        },
        BlockOutcomeView::Mismatched { computed, expected } => RunSummary {
            matched: s.matched,
            mismatched: bump(s.mismatched),
            unresolved: s.unresolved,
        },
        BlockOutcomeView::Unresolved(e) => RunSummary {
            matched: s.matched,
            mismatched: s.mismatched,
            unresolved: bump(s.unresolved),
        },
    }
}

fn bumped(n: u64) -> (m: u64)
    ensures
        m == bump(n),
{
    if n < u64::MAX {
        n + 1
    } else {
        n
    }
}

impl RunSummary {
    /// The summary of a run that has not validated any block yet.
    pub fn new() -> (s: RunSummary)
        ensures
            s == (RunSummary { matched: 0, mismatched: 0, unresolved: 0 }),
    {
        RunSummary { matched: 0, mismatched: 0, unresolved: 0 }
    }

    /// Counts the outcome of one more block. The run goes on whatever the
    /// outcome is.
    pub fn record(&mut self, outcome: &BlockOutcome)
        ensures
            *final(self) == recorded(*old(self), outcome@),
    {
        match outcome {
            BlockOutcome::Matched { .. } => {
                self.matched = bumped(self.matched);
            },
            BlockOutcome::Mismatched { .. } => {
                self.mismatched = bumped(self.mismatched);
            },
            BlockOutcome::Unresolved(_) => {
                self.unresolved = bumped(self.unresolved);
            },
        }
    }

    /// The exit code of the run: 0 unless some block stayed unresolved. A root
    /// that differs is a result of the run and does not count as a failure of
    /// it.
    pub fn exit_code(&self) -> (code: u8)
        ensures
            code == if self.unresolved > 0 {
                1u8
            } else {
                0u8
            },
    {
        if self.unresolved > 0 {
            1
        } else {
            0
        }
    }
}

} // verus!
