//! The witness of a block: the proof nodes along the paths the block touches,
//! and the state values those paths prove.

use vstd::prelude::*;
use crate::trie::{store_view, value_view, ProofNode, ProofNodeView};

verus! {

/// How far the generation of a witness has come.
#[derive(Debug, Clone, Copy, PartialEq, Eq, Structural)]
pub enum WitnessStatus {
    /// Nothing has been started.
    Idle,
    /// The witness is being produced.
    Processing,
    /// The witness is complete and can be read.
    Ready,
    /// The witness will never be produced.
    Failed,
}

/// Where a status stands in the course of the generation: a status is only ever
/// followed by itself or by one that stands later.
pub open spec fn status_rank(status: WitnessStatus) -> nat {
    match status {
        WitnessStatus::Idle => 0,
        WitnessStatus::Processing => 1,
        WitnessStatus::Ready => 2,
        WitnessStatus::Failed => 2,
    }
}

/// Whether `next` may be observed after `prev`.
pub open spec fn follows(prev: WitnessStatus, next: WitnessStatus) -> bool {
    prev == next || status_rank(prev) < status_rank(next)
}

/// Whether `next` may be observed after `prev`: the status moves from idle to
/// processing to ready or failed, and never back.
pub fn may_follow(prev: WitnessStatus, next: WitnessStatus) -> (ok: bool)
    ensures
        ok == follows(prev, next),
{
    match (prev, next) {
        (WitnessStatus::Idle, _) => true,
        (WitnessStatus::Processing, WitnessStatus::Idle) => false,
        (WitnessStatus::Processing, _) => true,
        (WitnessStatus::Ready, WitnessStatus::Ready) => true,
        (WitnessStatus::Failed, WitnessStatus::Failed) => true,
        _ => false,
    }
}

/// A state key with the value that the witness asserts for it: `None` where it
/// asserts that the state holds no such key.
#[derive(Debug, Clone, PartialEq, Eq)]
pub struct WitnessLeaf {
    pub key: Vec<u8>,
    pub value: Option<Vec<u8>>,
}

/// The mathematical value of a [`WitnessLeaf`].
pub struct WitnessLeafView {
    pub key: Seq<u8>,
    pub value: Option<Seq<u8>>,
}

impl View for WitnessLeaf {
    type V = WitnessLeafView;

    open spec fn view(&self) -> WitnessLeafView {
        WitnessLeafView { key: self.key@, value: value_view(self.value) }
    }
}

/// The mathematical value of a list of leaves.
pub open spec fn leaves_view(leaves: Seq<WitnessLeaf>) -> Seq<WitnessLeafView> {
    Seq::new(leaves.len(), |i: int| leaves[i]@)
}

/// The witness of one block.
#[derive(Debug, Clone, PartialEq, Eq)]
pub struct Witness {
    /// The state root before the block.
    pub old_root: Vec<u8>,
    /// The trie nodes along the touched paths, each keyed by its hash.
    pub proof_nodes: Vec<ProofNode>,
    /// The state values that the proof nodes prove.
    pub leaves: Vec<WitnessLeaf>,
    pub block_number: u64,
    pub block_hash: Vec<u8>,
}

/// The mathematical value of a [`Witness`].
pub struct WitnessView {
    pub old_root: Seq<u8>,
    pub proof_nodes: Seq<ProofNodeView>,
    pub leaves: Seq<WitnessLeafView>,
    pub block_number: u64,
    pub block_hash: Seq<u8>,
}

impl View for Witness {
    type V = WitnessView;

    open spec fn view(&self) -> WitnessView {
        WitnessView {
            old_root: self.old_root@,
            proof_nodes: store_view(self.proof_nodes@),
            leaves: leaves_view(self.leaves@),
            block_number: self.block_number,
            block_hash: self.block_hash@,
        }
    }
}

} // verus!
