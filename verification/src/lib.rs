//! Stateless block validation.
//!
//! A block is validated from a witness alone: the proof nodes along the paths
//! of the state trie that the block touches, and the state values that those
//! paths prove. The witness is decoded ([`codec`]) and verified against the
//! state root of the block before ([`proofs`]); the block is replayed on top of
//! the witness ([`state`], [`overlay`], [`execution`]); what the replay changed
//! is extracted ([`diff`]); the trie is updated with the changes ([`trie`],
//! [`engine`]), and the new root is compared with the root that the block
//! declares ([`validator`], [`machine`]).
//!
//! Every function is verified against its contract. What holds of all inputs is
//! stated and proved in [`trie_laws`] (what an update never depends on),
//! [`trie_sound`] (what an update means), [`trie_canon`] (the root as a hash of
//! the content), [`codec_laws`] and [`node_laws`] (decoding and encoding), and
//! next to the functions it is about.

use vstd::prelude::*;

pub mod bytes;
pub mod codec;
pub mod codec_laws;
pub mod diff;
pub mod engine;
pub mod execution;
pub mod hash;
pub mod machine;
pub mod naming;
pub mod node;
pub mod node_laws;
pub mod overlay;
pub mod proofs;
pub mod state;
pub mod trie;
pub mod trie_canon;
pub mod trie_laws;
pub mod trie_sound;
pub mod validator;
pub mod witness;

verus! {

} // verus!
