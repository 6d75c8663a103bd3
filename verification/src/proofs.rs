//! The proof verifier: checks that a witness hangs together and proves each of
//! its values against a state root.

use vstd::prelude::*;
use crate::bytes::bytes_eq;
use crate::engine::lookup_key;
use crate::hash::{hash_bytes, keccak256};
use crate::node::{decode_node, parse_node};
use crate::trie::{lookup, store_view, ProofNodeView, TrieErrorView};
use crate::witness::{leaves_view, Witness, WitnessLeafView, WitnessView};

verus! {

/// Why a witness was rejected.
#[derive(Debug, Clone, Copy, PartialEq, Eq, Structural)]
pub enum ProofError {
    /// The witness was made for another root than the claimed one.
    RootMismatch,
    /// The bytes of a proof node do not hash to the hash it is keyed by.
    NodeHashMismatch { index: usize },
    /// The bytes of a proof node are not the encoding of a node.
    MalformedNode { index: usize },
    /// The path of a key through the proof nodes does not end in the value that
    /// the witness asserts for it.
    LeafNotProven { index: usize },
}

/// The key under which the trie holds the value of a state key.
pub open spec fn trie_key(key: Seq<u8>) -> Seq<u8> {
    keccak256(key)
}

/// What is wrong with the proof node at `index`, if anything.
pub open spec fn node_fault(store: Seq<ProofNodeView>, index: int) -> Option<ProofError> {
    if keccak256(store[index].bytes) != store[index].hash {
        Some(ProofError::NodeHashMismatch { index: index as usize })
    } else if parse_node(store[index].bytes) is None {
        Some(ProofError::MalformedNode { index: index as usize })
    } else {
        None
    }
}

/// The first fault among the first `n` proof nodes.
pub open spec fn first_node_fault(store: Seq<ProofNodeView>, n: nat) -> Option<ProofError>
    decreases n,
{
    if n == 0 {
        None
    } else {
        match first_node_fault(store, (n - 1) as nat) {
            Some(e) => Some(e),
            None => node_fault(store, n - 1),
        }
    }
}

/// Whether the path of the leaf's key, from `root` through the proof nodes,
/// ends in the value that the leaf asserts.
pub open spec fn leaf_proven(
    store: Seq<ProofNodeView>,
    root: Seq<u8>,
    leaf: WitnessLeafView,
) -> bool {
    lookup(store, root, trie_key(leaf.key)) == Ok::<Option<Seq<u8>>, TrieErrorView>(leaf.value)
}

/// The first of the first `n` leaves that is not proven.
pub open spec fn first_leaf_fault(
    store: Seq<ProofNodeView>,
    root: Seq<u8>,
    leaves: Seq<WitnessLeafView>,
    n: nat,
) -> Option<ProofError>
    decreases n,
{
    if n == 0 {
        None
    } else {
        match first_leaf_fault(store, root, leaves, (n - 1) as nat) {
            Some(e) => Some(e),
            None => if leaf_proven(store, root, leaves[n - 1]) {
                None
            } else {
                Some(ProofError::LeafNotProven { index: (n - 1) as usize })
            },
        }
    }
}

/// What verifying `w` against `claimed_root` gives: the witness must name the
/// claimed root, each proof node must decode and hash to its key, and each leaf
/// must be proven.
pub open spec fn verify_spec(w: WitnessView, claimed_root: Seq<u8>) -> Result<(), ProofError> {
    if w.old_root != claimed_root {
        Err(ProofError::RootMismatch)
    } else {
        match first_node_fault(w.proof_nodes, w.proof_nodes.len()) {
            Some(e) => Err(e),
            None => match first_leaf_fault(w.proof_nodes, claimed_root, w.leaves, w.leaves.len()) {
                Some(e) => Err(e),
                None => Ok(()),
            },
        }
    }
}

proof fn lemma_node_fault_stays(store: Seq<ProofNodeView>, k: nat, n: nat)
    requires
        k <= n,
        first_node_fault(store, k) is Some,
    ensures
        first_node_fault(store, n) == first_node_fault(store, k),
    decreases n,
{
    if k < n {
        lemma_node_fault_stays(store, k, (n - 1) as nat);
    }
}

proof fn lemma_leaf_fault_stays(
    store: Seq<ProofNodeView>,
    root: Seq<u8>,
    leaves: Seq<WitnessLeafView>,
    k: nat,
    n: nat,
)
    requires
        k <= n,
        first_leaf_fault(store, root, leaves, k) is Some,
    ensures
        first_leaf_fault(store, root, leaves, n) == first_leaf_fault(store, root, leaves, k),
    decreases n,
{
    if k < n {
        lemma_leaf_fault_stays(store, root, leaves, k, (n - 1) as nat);
    }
}

proof fn lemma_no_node_fault(store: Seq<ProofNodeView>, n: nat, i: int)
    requires
        first_node_fault(store, n) is None,
        0 <= i < n,
    ensures
        node_fault(store, i) is None,
    decreases n,
{
    if i < n - 1 {
        lemma_no_node_fault(store, (n - 1) as nat, i);
    }
}

proof fn lemma_no_leaf_fault(
    store: Seq<ProofNodeView>,
    root: Seq<u8>,
    leaves: Seq<WitnessLeafView>,
    n: nat,
    i: int,
)
    requires
        first_leaf_fault(store, root, leaves, n) is None,
        0 <= i < n,
    ensures
        leaf_proven(store, root, leaves[i]),
    decreases n,
{
    if i < n - 1 {
        lemma_no_leaf_fault(store, root, leaves, (n - 1) as nat, i);
    }
}

/// The key under which the trie holds the value of the state key `key`.
pub fn trie_key_of(key: &[u8]) -> (hashed: Vec<u8>)
    ensures
        hashed@ == trie_key(key@),
        hashed@.len() == 32,
{
    hash_bytes(key)
}

/// Verifies a witness against the state root that it is claimed to belong to.
pub struct ProofVerifier;

impl ProofVerifier {
    /// Checks that `witness` was made for `claimed_old_root`, that each of its
    /// proof nodes decodes and hashes to the hash it is keyed by, and that the
    /// path of each leaf's key, from the root through the proof nodes, ends in
    /// the value the leaf asserts. Reports the first fault in that order.
    pub fn verify(witness: &Witness, claimed_old_root: &[u8]) -> (res: Result<(), ProofError>)
        ensures
            res == verify_spec(witness@, claimed_old_root@),
    {
        if !bytes_eq(witness.old_root.as_slice(), claimed_old_root) {
            return Err(ProofError::RootMismatch);
        }
        let ghost store = store_view(witness.proof_nodes@);
        let ghost leaves = leaves_view(witness.leaves@);
        let mut i: usize = 0;
        while i < witness.proof_nodes.len()
            invariant
                i <= witness.proof_nodes@.len(),
                store == store_view(witness.proof_nodes@),
                witness.old_root@ == claimed_old_root@,
                first_node_fault(store, i as nat) is None,
            decreases witness.proof_nodes@.len() - i,
        {
            let node = &witness.proof_nodes[i];
            let digest = hash_bytes(node.bytes.as_slice());
            if !bytes_eq(digest.as_slice(), node.hash.as_slice()) {
                proof {
                    lemma_node_fault_stays(store, (i + 1) as nat, store.len());
                }
                return Err(ProofError::NodeHashMismatch { index: i });
            }
            if decode_node(node.bytes.as_slice()).is_none() {
                proof {
                    lemma_node_fault_stays(store, (i + 1) as nat, store.len());
                }
                return Err(ProofError::MalformedNode { index: i });
            }
            i += 1;
        }
        let mut j: usize = 0;
        while j < witness.leaves.len()
            invariant
                j <= witness.leaves@.len(),
                store == store_view(witness.proof_nodes@),
                leaves == leaves_view(witness.leaves@),
                witness.old_root@ == claimed_old_root@,
                first_node_fault(store, store.len()) is None,
                first_leaf_fault(store, claimed_old_root@, leaves, j as nat) is None,
            decreases witness.leaves@.len() - j,
        {
            let leaf = &witness.leaves[j];
            let key = trie_key_of(leaf.key.as_slice());
            let proven = match lookup_key(&witness.proof_nodes, claimed_old_root, key.as_slice()) {
                Err(_) => false,
                Ok(found) => match (&found, &leaf.value) {
                    (None, None) => true,
                    (Some(a), Some(b)) => bytes_eq(a.as_slice(), b.as_slice()),
                    _ => false,
                },
            };
            assert(proven == leaf_proven(store, claimed_old_root@, leaves[j as int]));
            if !proven {
                proof {
                    lemma_leaf_fault_stays(
                        store,
                        claimed_old_root@,
                        leaves,
                        (j + 1) as nat,
                        leaves.len(),
                    );
                }
                return Err(ProofError::LeafNotProven { index: j });
            }
            j += 1;
        }
        Ok(())
    }
}

/// The witness `w` with the bytes of its proof node `i` replaced.
pub open spec fn with_node_bytes(w: WitnessView, i: int, bytes: Seq<u8>) -> WitnessView {
    WitnessView {
        old_root: w.old_root,
        proof_nodes: w.proof_nodes.update(
            i,
            ProofNodeView { hash: w.proof_nodes[i].hash, bytes },
        ),
        leaves: w.leaves,
        block_number: w.block_number,
        block_hash: w.block_hash,
    }
}

/// A tampered witness is rejected: where a witness verifies, the same witness
/// with the bytes of any one proof node replaced by bytes of another hash does
/// not.
pub proof fn law_tampered_node_rejected(w: WitnessView, root: Seq<u8>, i: int, bytes: Seq<u8>)
    requires
        verify_spec(w, root) is Ok,
        0 <= i < w.proof_nodes.len(),
        w.proof_nodes.len() <= usize::MAX,
        keccak256(bytes) != keccak256(w.proof_nodes[i].bytes),
    ensures
        verify_spec(with_node_bytes(w, i, bytes), root) is Err,
{
    let t = with_node_bytes(w, i, bytes);
    lemma_no_node_fault(w.proof_nodes, w.proof_nodes.len(), i);
    assert(node_fault(t.proof_nodes, i) is Some);
    assert(first_node_fault(t.proof_nodes, (i + 1) as nat) is Some);
    lemma_node_fault_stays(t.proof_nodes, (i + 1) as nat, t.proof_nodes.len());
}

/// What a verified witness shows: each proof node hashes to its key, and the
/// trie with the claimed root holds, under each leaf's key, the value that the
/// leaf asserts.
pub proof fn law_verified_witness(w: WitnessView, root: Seq<u8>)
    requires
        verify_spec(w, root) is Ok,
    ensures
        w.old_root == root,
        forall|i: int|
            0 <= i < w.proof_nodes.len() ==> keccak256(#[trigger] w.proof_nodes[i].bytes)
                == w.proof_nodes[i].hash,
        forall|j: int|
            0 <= j < w.leaves.len() ==> leaf_proven(w.proof_nodes, root, #[trigger] w.leaves[j]),
{
    assert forall|i: int| 0 <= i < w.proof_nodes.len() implies keccak256(
        #[trigger] w.proof_nodes[i].bytes,
    ) == w.proof_nodes[i].hash by {
        lemma_no_node_fault(w.proof_nodes, w.proof_nodes.len(), i);
    }
    assert forall|j: int| 0 <= j < w.leaves.len() implies leaf_proven(
        w.proof_nodes,
        root,
        #[trigger] w.leaves[j],
    ) by {
        lemma_no_leaf_fault(w.proof_nodes, root, w.leaves, w.leaves.len(), j);
    }
}

} // verus!
