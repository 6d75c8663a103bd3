//! The state trie as a mathematical object: how a set of updates changes a trie
//! that is known only through the proof nodes of a witness.
//!
//! A trie key has 64 nibbles. A node at depth `d` has consumed `d` of them: a
//! leaf holds the remaining `64 - d`, an extension holds a shared stretch and
//! is followed by a branch, a branch consumes one nibble. Nodes refer to each
//! other by content hash, and only the nodes on the paths that the updates
//! touch are looked up among the proof nodes.

use vstd::prelude::*;
use crate::hash::{empty_root, keccak256};
use crate::node::{encode_node, parse_node, Node, NodeView};

verus! {

/// A proof node: the encoding of a trie node, keyed by the hash it is claimed
/// to have.
#[derive(Debug, Clone, PartialEq, Eq)]
pub struct ProofNode {
    pub hash: Vec<u8>,
    pub bytes: Vec<u8>,
}

/// The mathematical value of a [`ProofNode`].
pub struct ProofNodeView {
    pub hash: Seq<u8>,
    pub bytes: Seq<u8>,
}

impl View for ProofNode {
    type V = ProofNodeView;

    open spec fn view(&self) -> ProofNodeView {
        ProofNodeView { hash: self.hash@, bytes: self.bytes@ }
    }
}

/// The mathematical value of a list of proof nodes.
pub open spec fn store_view(nodes: Seq<ProofNode>) -> Seq<ProofNodeView> {
    Seq::new(nodes.len(), |i: int| nodes[i]@)
}

/// One change to the trie: the value that a key gets, or `None` to delete it.
#[derive(Debug, Clone, PartialEq, Eq)]
pub struct TrieUpdate {
    pub key: Vec<u8>,
    pub value: Option<Vec<u8>>,
}

/// The mathematical value of a [`TrieUpdate`].
pub struct TrieUpdateView {
    pub key: Seq<u8>,
    pub value: Option<Seq<u8>>,
}

/// The mathematical value of a byte string that may be missing.
pub open spec fn value_view(value: Option<Vec<u8>>) -> Option<Seq<u8>> {
    match value {
        Some(v) => Some(v@),
        None => None,
    }
}

impl View for TrieUpdate {
    type V = TrieUpdateView;

    open spec fn view(&self) -> TrieUpdateView {
        TrieUpdateView { key: self.key@, value: value_view(self.value) }
    }
}

/// The mathematical value of a list of trie updates.
pub open spec fn updates_view(updates: Seq<TrieUpdate>) -> Seq<TrieUpdateView> {
    Seq::new(updates.len(), |i: int| updates[i]@)
}

/// What stands in a slot of the trie: nothing, a node known by its hash, or a
/// node held by value that has no hash yet.
#[derive(Debug, Clone, PartialEq, Eq)]
pub enum NodeRef {
    Empty,
    Hashed(Vec<u8>),
    Inline(Node),
}

/// The mathematical value of a [`NodeRef`].
pub enum RefView {
    Empty,
    Hashed(Seq<u8>),
    Inline(NodeView),
}

impl View for NodeRef {
    type V = RefView;

    open spec fn view(&self) -> RefView {
        match *self {
            NodeRef::Empty => RefView::Empty,
            NodeRef::Hashed(h) => RefView::Hashed(h@),
            NodeRef::Inline(n) => RefView::Inline(n@),
        }
    }
}

/// The mathematical value of a list of references.
pub open spec fn refs_view(refs: Seq<NodeRef>) -> Seq<RefView> {
    Seq::new(refs.len(), |i: int| refs[i]@)
}

/// Why an update of the trie was given up: the proof nodes do not describe a
/// trie along the touched paths.
#[derive(Debug, Clone, PartialEq, Eq)]
pub enum TrieError {
    /// A node on a touched path is not among the proof nodes.
    MissingNode { hash: Vec<u8> },
    /// The bytes of a proof node do not hash to the hash it is keyed by.
    HashMismatch { hash: Vec<u8> },
    /// The bytes of a proof node are not the encoding of a node.
    MalformedNode { hash: Vec<u8> },
    /// A node has a shape that cannot occur at the depth where it stands.
    Misplaced { depth: usize },
    /// The key of an update is not 32 bytes long.
    KeyLength,
}

/// The mathematical value of a [`TrieError`].
pub enum TrieErrorView {
    MissingNode { hash: Seq<u8> },
    HashMismatch { hash: Seq<u8> },
    MalformedNode { hash: Seq<u8> },
    Misplaced { depth: nat },
    KeyLength,
}

impl View for TrieError {
    type V = TrieErrorView;

    open spec fn view(&self) -> TrieErrorView {
        match *self {
            TrieError::MissingNode { hash } => TrieErrorView::MissingNode { hash: hash@ },
            TrieError::HashMismatch { hash } => TrieErrorView::HashMismatch { hash: hash@ },
            TrieError::MalformedNode { hash } => TrieErrorView::MalformedNode { hash: hash@ },
            TrieError::Misplaced { depth } => TrieErrorView::Misplaced { depth: depth as nat },
            TrieError::KeyLength => TrieErrorView::KeyLength,
        }
    }
}

/// The bytes of the first proof node that is keyed by `hash`.
pub open spec fn find_node(store: Seq<ProofNodeView>, hash: Seq<u8>) -> Option<Seq<u8>>
    decreases store.len(),
{
    if store.len() == 0 {
        None
    } else if store[0].hash == hash {
        Some(store[0].bytes)
    } else {
        find_node(store.skip(1), hash)
    }
}

/// The node that `hash` refers to: it must be among the proof nodes, its bytes
/// must hash to `hash`, and they must decode.
pub open spec fn resolve(store: Seq<ProofNodeView>, hash: Seq<u8>) -> Result<
    NodeView,
    TrieErrorView,
> {
    match find_node(store, hash) {
        None => Err(TrieErrorView::MissingNode { hash }),
        Some(bytes) => {
            if keccak256(bytes) != hash {
                Err(TrieErrorView::HashMismatch { hash })
            } else {
                match parse_node(bytes) {
                    None => Err(TrieErrorView::MalformedNode { hash }),
                    Some(n) => Ok(n),
                }
            }
        },
    }
}

/// The nibble of `key` at position `depth`: the high half of a byte comes
/// first.
pub open spec fn nibble_at(key: Seq<u8>, depth: int) -> u8 {
    if depth % 2 == 0 {
        key[depth / 2] / 16
    } else {
        key[depth / 2] % 16
    }
}

/// Selects the updates whose key has nibble `nib` at position `depth`.
pub open spec fn at_nibble(depth: int, nib: u8) -> spec_fn(TrieUpdateView) -> bool {
    |u: TrieUpdateView| nibble_at(u.key, depth) == nib
}

/// Sixteen empty slots.
pub open spec fn empty_slots() -> Seq<RefView> {
    Seq::new(16, |i: int| RefView::Empty)
}

/// The reference that a slot of a branch holds.
pub open spec fn slot_ref(slot: Option<Seq<u8>>) -> RefView {
    match slot {
        Some(h) => RefView::Hashed(h),
        None => RefView::Empty,
    }
}

/// Whether a reference can stand at `depth`.
pub open spec fn fits(r: RefView, depth: nat) -> bool {
    match r {
        RefView::Empty => true,
        RefView::Hashed(_) => true,
        RefView::Inline(NodeView::Leaf { path, value }) => depth + path.len() == 64,
        RefView::Inline(NodeView::Extension { path, child }) => 1 <= path.len() && depth
            + path.len() <= 63,
        RefView::Inline(NodeView::Branch { children }) => depth <= 63 && children.len() == 16,
    }
}

/// Every reference can stand at `depth`.
pub open spec fn all_fit(refs: Seq<RefView>, depth: nat) -> bool {
    forall|i: int| 0 <= i < refs.len() ==> fits(#[trigger] refs[i], depth)
}

/// The 16 slots below a node that stands at `depth`, one for each next nibble.
pub open spec fn expand(n: NodeView, depth: nat) -> Result<Seq<RefView>, TrieErrorView> {
    match n {
        NodeView::Leaf { path, value } => {
            if path.len() == 0 || depth + path.len() != 64 || path[0] >= 16 {
                Err(TrieErrorView::Misplaced { depth })
            } else {
                Ok(
                    empty_slots().update(
                        path[0] as int,
                        RefView::Inline(NodeView::Leaf { path: path.skip(1), value }),
                    ),
                )
            }
        },
        NodeView::Extension { path, child } => {
            if path.len() == 0 || depth + path.len() > 63 || path[0] >= 16 {
                Err(TrieErrorView::Misplaced { depth })
            } else if path.len() == 1 {
                Ok(empty_slots().update(path[0] as int, RefView::Hashed(child)))
            } else {
                Ok(
                    empty_slots().update(
                        path[0] as int,
                        RefView::Inline(NodeView::Extension { path: path.skip(1), child }),
                    ),
                )
            }
        },
        NodeView::Branch { children } => {
            if depth > 63 || children.len() != 16 {
                Err(TrieErrorView::Misplaced { depth })
            } else {
                Ok(Seq::new(16, |i: int| slot_ref(children[i])))
            }
        },
    }
}

/// The slots below whatever `r` refers to.
pub open spec fn children_of(store: Seq<ProofNodeView>, r: RefView, depth: nat) -> Result<
    Seq<RefView>,
    TrieErrorView,
> {
    match r {
        RefView::Empty => Ok(empty_slots()),
        RefView::Hashed(h) => match resolve(store, h) {
            Err(e) => Err(e),
            Ok(n) => expand(n, depth),
        },
        RefView::Inline(n) => expand(n, depth),
    }
}

/// A node together with the hash of its encoding.
pub open spec fn seal(n: NodeView) -> ProofNodeView {
    ProofNodeView { hash: keccak256(encode_node(n)), bytes: encode_node(n) }
}

/// What a subtree became: `node` is `None` when nothing changed, and `emitted`
/// lists the nodes that were given a hash on the way.
pub struct Outcome {
    pub node: Option<RefView>,
    pub emitted: Seq<ProofNodeView>,
}

/// The outcome of an update that changed nothing.
pub open spec fn unchanged() -> Outcome {
    Outcome { node: None, emitted: Seq::empty() }
}

/// The value that stands at the end of a key's path.
pub open spec fn terminal_value(store: Seq<ProofNodeView>, r: RefView) -> Result<
    Option<Seq<u8>>,
    TrieErrorView,
> {
    match r {
        RefView::Empty => Ok(None),
        RefView::Inline(NodeView::Leaf { path, value }) => {
            if path.len() == 0 {
                Ok(Some(value))
            } else {
                Err(TrieErrorView::Misplaced { depth: 64 })
            }
        },
        RefView::Inline(_) => Err(TrieErrorView::Misplaced { depth: 64 }),
        RefView::Hashed(h) => match resolve(store, h) {
            Err(e) => Err(e),
            Ok(NodeView::Leaf { path, value }) => {
                if path.len() == 0 {
                    Ok(Some(value))
                } else {
                    Err(TrieErrorView::Misplaced { depth: 64 })
                }
            },
            Ok(_) => Err(TrieErrorView::Misplaced { depth: 64 }),
        },
    }
}

/// Applies one update at the end of its key's path.
pub open spec fn terminal(store: Seq<ProofNodeView>, r: RefView, u: TrieUpdateView) -> Result<
    Outcome,
    TrieErrorView,
> {
    match terminal_value(store, r) {
        Err(e) => Err(e),
        Ok(current) => {
            if u.value == current {
                Ok(unchanged())
            } else {
                match u.value {
                    None => Ok(Outcome { node: Some(RefView::Empty), emitted: Seq::empty() }),
                    Some(v) => Ok(
                        Outcome {
                            node: Some(
                                RefView::Inline(NodeView::Leaf { path: Seq::empty(), value: v }),
                            ),
                            emitted: Seq::empty(),
                        },
                    ),
                }
            }
        },
    }
}

/// Number of slots that are not empty.
pub open spec fn count_occupied(refs: Seq<RefView>) -> nat
    decreases refs.len(),
{
    if refs.len() == 0 {
        0
    } else {
        count_occupied(refs.drop_last()) + if refs.last() is Empty {
            0nat
        } else {
            1nat
        }
    }
}

/// Index of the last slot that is not empty (0 when all are empty).
pub open spec fn last_occupied(refs: Seq<RefView>) -> int
    decreases refs.len(),
{
    if refs.len() == 0 {
        0
    } else if !(refs.last() is Empty) {
        refs.len() - 1
    } else {
        last_occupied(refs.drop_last())
    }
}

/// The hash by which a parent refers to what stands in a slot.
pub open spec fn sealed_slot(r: RefView) -> Option<Seq<u8>> {
    match r {
        RefView::Empty => None,
        RefView::Hashed(h) => Some(h),
        RefView::Inline(n) => Some(keccak256(encode_node(n))),
    }
}

/// The slots of the branch that holds `refs`.
pub open spec fn sealed_slots(refs: Seq<RefView>) -> Seq<Option<Seq<u8>>> {
    Seq::new(refs.len(), |i: int| sealed_slot(refs[i]))
}

/// The nodes among `refs` that are held by value, sealed, in slot order.
pub open spec fn emitted_slots(refs: Seq<RefView>) -> Seq<ProofNodeView>
    decreases refs.len(),
{
    if refs.len() == 0 {
        Seq::empty()
    } else {
        emitted_slots(refs.drop_last()) + match refs.last() {
            RefView::Inline(n) => seq![seal(n)],
            _ => Seq::empty(),
        }
    }
}

/// The node that takes the place of a branch at `depth` whose only occupied
/// slot is `nib`, holding the node `n`; `hash` is the hash `n` is known by, if
/// it has one.
pub open spec fn absorb(n: NodeView, hash: Option<Seq<u8>>, nib: u8, depth: nat) -> Result<
    (RefView, Seq<ProofNodeView>),
    TrieErrorView,
> {
    match n {
        NodeView::Leaf { path, value } => {
            if depth + 1 + path.len() != 64 {
                Err(TrieErrorView::Misplaced { depth: depth + 1 })
            } else {
                Ok(
                    (
                        RefView::Inline(NodeView::Leaf { path: seq![nib] + path, value }),
                        Seq::empty(),
                    ),
                )
            }
        },
        NodeView::Extension { path, child } => {
            if path.len() == 0 || depth + 1 + path.len() > 63 {
                Err(TrieErrorView::Misplaced { depth: depth + 1 })
            } else {
                Ok(
                    (
                        RefView::Inline(NodeView::Extension { path: seq![nib] + path, child }),
                        Seq::empty(),
                    ),
                )
            }
        },
        NodeView::Branch { children } => {
            if depth + 1 > 63 {
                Err(TrieErrorView::Misplaced { depth: depth + 1 })
            } else {
                match hash {
                    Some(h) => Ok(
                        (
                            RefView::Inline(NodeView::Extension { path: seq![nib], child: h }),
                            Seq::empty(),
                        ),
                    ),
                    None => Ok(
                        (
                            RefView::Inline(
                                NodeView::Extension {
                                    path: seq![nib],
                                    child: keccak256(encode_node(n)),
                                },
                            ),
                            seq![seal(n)],
                        ),
                    ),
                }
            }
        },
    }
}

/// The node that 16 slots at `depth` make: nothing when all are empty, the
/// single occupied slot pulled up when there is one, else a branch.
pub open spec fn compress(store: Seq<ProofNodeView>, refs: Seq<RefView>, depth: nat) -> Result<
    (RefView, Seq<ProofNodeView>),
    TrieErrorView,
> {
    if count_occupied(refs) == 0 {
        Ok((RefView::Empty, Seq::empty()))
    } else if count_occupied(refs) == 1 {
        let i = last_occupied(refs);
        match refs[i] {
            RefView::Empty => Ok((RefView::Empty, Seq::empty())),
            RefView::Inline(n) => absorb(n, None, i as u8, depth),
            RefView::Hashed(h) => match resolve(store, h) {
                Err(e) => Err(e),
                Ok(n) => absorb(n, Some(h), i as u8, depth),
            },
        }
    } else {
        Ok(
            (
                RefView::Inline(NodeView::Branch { children: sealed_slots(refs) }),
                emitted_slots(refs),
            ),
        )
    }
}

/// The slots of a node after the updates have been applied below some of them.
pub struct Slots {
    pub children: Seq<RefView>,
    pub changed: bool,
    pub emitted: Seq<ProofNodeView>,
}

/// Applies `ups`, all of whose keys lead to `r` at `depth`, to the subtree that
/// `r` refers to. Where several updates have the same key, the last one counts.
pub open spec fn update_ref(
    store: Seq<ProofNodeView>,
    r: RefView,
    depth: nat,
    ups: Seq<TrieUpdateView>,
) -> Result<Outcome, TrieErrorView>
    decreases 64 - depth, 17nat,
{
    if ups.len() == 0 {
        Ok(unchanged())
    } else if depth >= 64 {
        terminal(store, r, ups.last())
    } else {
        match children_of(store, r, depth) {
            Err(e) => Err(e),
            Ok(children) => match update_slots(store, children, depth, ups, 16) {
                Err(e) => Err(e),
                Ok(s) => {
                    if !s.changed {
                        Ok(unchanged())
                    } else {
                        match compress(store, s.children, depth) {
                            Err(e) => Err(e),
                            Ok((r2, emitted)) => Ok(
                                Outcome { node: Some(r2), emitted: s.emitted + emitted },
                            ),
                        }
                    }
                },
            },
        }
    }
}

/// Applies `ups` below the first `n` of the slots `children` of a node at
/// `depth`, each update below the slot of its key's next nibble.
pub open spec fn update_slots(
    store: Seq<ProofNodeView>,
    children: Seq<RefView>,
    depth: nat,
    ups: Seq<TrieUpdateView>,
    n: nat,
) -> Result<Slots, TrieErrorView>
    decreases 64 - depth, n,
{
    if n == 0 || depth >= 64 {
        Ok(Slots { children, changed: false, emitted: Seq::empty() })
    } else {
        match update_slots(store, children, depth, ups, (n - 1) as nat) {
            Err(e) => Err(e),
            Ok(s) => match update_ref(
                store,
                children[n - 1],
                depth + 1,
                ups.filter(at_nibble(depth as int, (n - 1) as u8)),
            ) {
                Err(e) => Err(e),
                Ok(o) => Ok(
                    Slots {
                        children: match o.node {
                            Some(r) => s.children.update(n - 1, r),
                            None => s.children,
                        },
                        changed: s.changed || o.node.is_some(),
                        emitted: s.emitted + o.emitted,
                    },
                ),
            },
        }
    }
}

/// The value under `key` in the subtree that `r` refers to at `depth`: `None`
/// when the trie holds no such key.
pub open spec fn lookup_ref(
    store: Seq<ProofNodeView>,
    r: RefView,
    depth: nat,
    key: Seq<u8>,
) -> Result<
    Option<Seq<u8>>,
    TrieErrorView,
>
    decreases 64 - depth,
{
    if depth >= 64 {
        terminal_value(store, r)
    } else {
        match children_of(store, r, depth) {
            Err(e) => Err(e),
            Ok(children) => lookup_ref(
                store,
                children[nibble_at(key, depth as int) as int],
                depth + 1,
                key,
            ),
        }
    }
}

/// The reference that a root hash stands for.
pub open spec fn root_ref(root: Seq<u8>) -> RefView {
    if root == empty_root() {
        RefView::Empty
    } else {
        RefView::Hashed(root)
    }
}

/// The value under `key` in the trie with root `root`, as far as the proof
/// nodes show it: `Ok(None)` when they show that the key is absent, an error
/// when they do not reach the end of the key's path.
pub open spec fn lookup(store: Seq<ProofNodeView>, root: Seq<u8>, key: Seq<u8>) -> Result<
    Option<Seq<u8>>,
    TrieErrorView,
> {
    if key.len() != 32 {
        Err(TrieErrorView::KeyLength)
    } else {
        lookup_ref(store, root_ref(root), 0, key)
    }
}

/// Every key has 32 bytes.
pub open spec fn keys_well_sized(ups: Seq<TrieUpdateView>) -> bool {
    forall|i: int| 0 <= i < ups.len() ==> (#[trigger] ups[i]).key.len() == 32
}

/// The trie update as a whole: the new root and the nodes that were created,
/// children before parents.
pub open spec fn apply_updates(
    store: Seq<ProofNodeView>,
    root: Seq<u8>,
    ups: Seq<TrieUpdateView>,
) -> Result<(Seq<u8>, Seq<ProofNodeView>), TrieErrorView> {
    if !keys_well_sized(ups) {
        Err(TrieErrorView::KeyLength)
    } else {
        match update_ref(store, root_ref(root), 0, ups) {
            Err(e) => Err(e),
            Ok(o) => match o.node {
                None => Ok((root, Seq::empty())),
                Some(RefView::Empty) => Ok((empty_root(), o.emitted)),
                Some(RefView::Hashed(h)) => Ok((h, o.emitted)),
                Some(RefView::Inline(n)) => Ok((seal(n).hash, o.emitted.push(seal(n)))),
            },
        }
    }
}

} // verus!
