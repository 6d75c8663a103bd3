//! The content hash that addresses trie nodes and derives trie keys.

use vstd::prelude::*;

verus! {

/// What `alloy_primitives::keccak256` returns for `data`: its Keccak-256
/// digest.
pub uninterp spec fn keccak256_digest(data: Seq<u8>) -> Seq<u8>;

/// The all-zero digest that stands for the root of a trie without entries.
pub open spec fn empty_root() -> Seq<u8> {
    Seq::new(32, |i: int| 0u8)
}

/// The content hash of `data`: always 32 bytes long.
pub open spec fn keccak256(data: Seq<u8>) -> Seq<u8> {
    let digest = keccak256_digest(data);
    if digest.len() == 32 {
        digest
    } else {
        empty_root()
    }
}

/// Calls `alloy_primitives::keccak256` and copies the 32 bytes of the `B256` it
/// returns. Trusted: the digest is a function of the input bytes alone and is
/// 32 bytes long.
#[verifier::external_body]
fn keccak256_call(data: &[u8]) -> (digest: Vec<u8>)
    ensures
        digest@ == keccak256_digest(data@),
        digest@.len() == 32,
{
    alloy_primitives::keccak256(data).0.to_vec()
}

/// Hashes `data`.
pub fn hash_bytes(data: &[u8]) -> (digest: Vec<u8>)
    ensures
        digest@ == keccak256(data@),
        digest@.len() == 32,
{
    keccak256_call(data)
}

/// The root hash of a trie without entries.
pub fn empty_root_hash() -> (root: Vec<u8>)
    ensures
        root@ == empty_root(),
{
    let mut root: Vec<u8> = Vec::new();
    let mut i: usize = 0;
    while i < 32
        invariant
            i <= 32,
            root@.len() == i,
            forall|j: int| 0 <= j < i ==> root@[j] == 0u8,
        decreases 32 - i,
    {
        root.push(0u8);
        i += 1;
    }
    assert(root@ =~= empty_root());
    root
}

} // verus!
