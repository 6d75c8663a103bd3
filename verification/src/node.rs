//! Trie nodes and their byte encoding.
//!
//! A node refers to its children by their content hash. The encoding is
//! * leaf: `0`, path length, the path (one nibble per byte), the value's
//!   length as 8 little-endian bytes, the value;
//! * extension: `1`, path length, the path, the child's hash;
//! * branch: `2`, then for each of the 16 slots `0`, or `1` and the hash of the
//!   child in that slot.

use vstd::prelude::*;
use vstd::bytes::*;
use vstd::slice::slice_subrange;
use crate::bytes::{append_bytes, copy_range};

verus! {

/// A decoded trie node.
#[derive(Debug, Clone, PartialEq, Eq)]
pub enum Node {
    /// The rest of a key's path and the value stored under that key.
    Leaf { path: Vec<u8>, value: Vec<u8> },
    /// A stretch of path shared by every key below, and the node that follows.
    Extension { path: Vec<u8>, child: Vec<u8> },
    /// One slot for each next nibble.
    Branch { children: Vec<Option<Vec<u8>>> },
}

/// The mathematical value of a [`Node`].
pub enum NodeView {
    Leaf { path: Seq<u8>, value: Seq<u8> },
    Extension { path: Seq<u8>, child: Seq<u8> },
    Branch { children: Seq<Option<Seq<u8>>> },
}

/// The mathematical value of a slot of a branch.
pub open spec fn slot_view(slot: Option<Vec<u8>>) -> Option<Seq<u8>> {
    match slot {
        Some(h) => Some(h@),
        None => None,
    }
}

/// The mathematical value of the slots of a branch.
pub open spec fn slots_view(slots: Seq<Option<Vec<u8>>>) -> Seq<Option<Seq<u8>>> {
    Seq::new(slots.len(), |i: int| slot_view(slots[i]))
}

impl View for Node {
    type V = NodeView;

    open spec fn view(&self) -> NodeView {
        match *self {
            Node::Leaf { path, value } => NodeView::Leaf { path: path@, value: value@ },
            Node::Extension { path, child } => NodeView::Extension { path: path@, child: child@ },
            Node::Branch { children } => NodeView::Branch { children: slots_view(children@) },
        }
    }
}

/// Every element is a nibble.
pub open spec fn is_nibbles(path: Seq<u8>) -> bool {
    forall|i: int| 0 <= i < path.len() ==> #[trigger] path[i] < 16
}

/// Number of occupied slots.
pub open spec fn count_present(slots: Seq<Option<Seq<u8>>>) -> nat
    decreases slots.len(),
{
    if slots.len() == 0 {
        0
    } else {
        count_present(slots.drop_last()) + if slots.last().is_some() {
            1nat
        } else {
            0nat
        }
    }
}

/// The shape that every encoded node has: paths are nibbles of bounded length,
/// hashes are 32 bytes, and a branch has 16 slots of which at least two are
/// occupied.
pub open spec fn valid_node(n: NodeView) -> bool {
    match n {
        NodeView::Leaf { path, value } => {
            &&& path.len() <= 64
            &&& is_nibbles(path)
            &&& value.len() <= u64::MAX
        },
        NodeView::Extension { path, child } => {
            &&& 1 <= path.len() <= 63
            &&& is_nibbles(path)
            &&& child.len() == 32
        },
        NodeView::Branch { children } => {
            &&& children.len() == 16
            &&& forall|i: int|
                0 <= i < 16 ==> ((#[trigger] children[i]) matches Some(h) ==> h.len() == 32)
            &&& count_present(children) >= 2
        },
    }
}

/// Whether the lengths of a node's paths fit the byte that encodes them.
pub open spec fn encodable(n: NodeView) -> bool {
    match n {
        NodeView::Leaf { path, value } => path.len() <= 255,
        NodeView::Extension { path, child } => path.len() <= 255,
        NodeView::Branch { children } => true,
    }
}

/// The bytes that stand for a slot: `0`, or `1` and the hash in it.
pub open spec fn encode_slot(slot: Option<Seq<u8>>) -> Seq<u8> {
    match slot {
        Some(h) => seq![1u8] + h,
        None => seq![0u8],
    }
}

/// The bytes that stand for slots, one after the other.
pub open spec fn encode_slots(slots: Seq<Option<Seq<u8>>>) -> Seq<u8>
    decreases slots.len(),
{
    if slots.len() == 0 {
        Seq::empty()
    } else {
        encode_slots(slots.drop_last()) + encode_slot(slots.last())
    }
}

/// The bytes that stand for a node.
pub open spec fn encode_node(n: NodeView) -> Seq<u8> {
    match n {
        NodeView::Leaf { path, value } => seq![0u8, path.len() as u8] + path
            + spec_u64_to_le_bytes(value.len() as u64) + value,
        NodeView::Extension { path, child } => seq![1u8, path.len() as u8] + path + child,
        NodeView::Branch { children } => seq![2u8] + encode_slots(children),
    }
}

/// The leaf that `b` encodes, if it encodes one.
pub open spec fn parse_leaf(b: Seq<u8>) -> Option<NodeView> {
    if b.len() < 2 {
        None
    } else {
        let n = b[1] as int;
        if n > 64 || b.len() < 2 + n + 8 {
            None
        } else {
            let path = b.subrange(2, 2 + n);
            let value_len = spec_u64_from_le_bytes(b.subrange(2 + n, 2 + n + 8)) as int;
            if !is_nibbles(path) || b.len() != 2 + n + 8 + value_len {
                None
            } else {
                Some(NodeView::Leaf { path, value: b.subrange(2 + n + 8, b.len() as int) })
            }
        }
    }
}

/// The extension that `b` encodes, if it encodes one.
pub open spec fn parse_extension(b: Seq<u8>) -> Option<NodeView> {
    if b.len() < 2 {
        None
    } else {
        let n = b[1] as int;
        if n < 1 || n > 63 || b.len() != 2 + n + 32 {
            None
        } else {
            let path = b.subrange(2, 2 + n);
            if !is_nibbles(path) {
                None
            } else {
                Some(NodeView::Extension { path, child: b.subrange(2 + n, 2 + n + 32) })
            }
        }
    }
}

/// The first `k` slots of the branch encoded in `b`, and the offset behind
/// them.
pub open spec fn parse_slots(b: Seq<u8>, k: nat) -> Option<(Seq<Option<Seq<u8>>>, int)>
    decreases k,
{
    if k == 0 {
        Some((Seq::empty(), 1int))
    } else {
        match parse_slots(b, (k - 1) as nat) {
            None => None,
            Some((slots, pos)) => {
                if pos >= b.len() {
                    None
                } else if b[pos] == 0 {
                    Some((slots.push(None), pos + 1))
                } else if b[pos] == 1 && pos + 33 <= b.len() {
                    Some((slots.push(Some(b.subrange(pos + 1, pos + 33))), pos + 33))
                } else {
                    None
                }
            },
        }
    }
}

/// Once a slot fails to parse, so does every longer run of slots.
proof fn lemma_parse_slots_fails(b: Seq<u8>, k: nat, n: nat)
    requires
        k <= n,
        parse_slots(b, k) is None,
    ensures
        parse_slots(b, n) is None,
    decreases n,
{
    if k < n {
        lemma_parse_slots_fails(b, k, (n - 1) as nat);
    }
}

/// The branch that `b` encodes, if it encodes one.
pub open spec fn parse_branch(b: Seq<u8>) -> Option<NodeView> {
    match parse_slots(b, 16) {
        None => None,
        Some((slots, pos)) => {
            if pos == b.len() && count_present(slots) >= 2 {
                Some(NodeView::Branch { children: slots })
            } else {
                None
            }
        },
    }
}

/// The node that `b` encodes, if it encodes one.
pub open spec fn parse_node(b: Seq<u8>) -> Option<NodeView> {
    if b.len() < 1 {
        None
    } else if b[0] == 0 {
        parse_leaf(b)
    } else if b[0] == 1 {
        parse_extension(b)
    } else if b[0] == 2 {
        parse_branch(b)
    } else {
        None
    }
}

/// The mathematical value of a decoded node.
pub open spec fn node_option_view(n: Option<Node>) -> Option<NodeView> {
    match n {
        Some(n) => Some(n@),
        None => None,
    }
}

/// Whether every element of `path` is below 16.
pub fn check_nibbles(path: &[u8]) -> (ok: bool)
    ensures
        ok == is_nibbles(path@),
{
    let mut i: usize = 0;
    while i < path.len()
        invariant
            i <= path@.len(),
            forall|j: int| 0 <= j < i ==> #[trigger] path@[j] < 16,
        decreases path@.len() - i,
    {
        if path[i] >= 16 {
            return false;
        }
        i += 1;
    }
    true
}

fn decode_leaf(b: &[u8]) -> (node: Option<Node>)
    ensures
        node_option_view(node) == parse_leaf(b@),
{
    if b.len() < 2 {
        return None;
    }
    let n: usize = b[1] as usize;
    if n > 64 || b.len() < 2 + n + 8 {
        return None;
    }
    let path = copy_range(b, 2, 2 + n);
    let value_len: u64 = u64_from_le_bytes(slice_subrange(b, 2 + n, 2 + n + 8));
    if !check_nibbles(path.as_slice()) {
        return None;
    }
    let rest: usize = b.len() - (2 + n + 8);
    if rest as u64 != value_len {
        return None;
    }
    let value = copy_range(b, 2 + n + 8, b.len());
    Some(Node::Leaf { path, value })
}

fn decode_extension(b: &[u8]) -> (node: Option<Node>)
    ensures
        node_option_view(node) == parse_extension(b@),
{
    if b.len() < 2 {
        return None;
    }
    let n: usize = b[1] as usize;
    if n < 1 || n > 63 || b.len() != 2 + n + 32 {
        return None;
    }
    let path = copy_range(b, 2, 2 + n);
    if !check_nibbles(path.as_slice()) {
        return None;
    }
    let child = copy_range(b, 2 + n, 2 + n + 32);
    Some(Node::Extension { path, child })
}

/// Counts the occupied slots.
pub fn count_slots(slots: &Vec<Option<Vec<u8>>>) -> (count: usize)
    ensures
        count == count_present(slots_view(slots@)),
        count <= slots@.len(),
{
    let mut count: usize = 0;
    let mut i: usize = 0;
    while i < slots.len()
        invariant
            i <= slots@.len(),
            count <= i,
            count == count_present(slots_view(slots@).take(i as int)),
        decreases slots@.len() - i,
    {
        assert(slots_view(slots@).take(i + 1).drop_last() =~= slots_view(slots@).take(i as int));
        if slots[i].is_some() {
            count += 1;
        }
        i += 1;
    }
    assert(slots_view(slots@).take(i as int) =~= slots_view(slots@));
    count
}

fn decode_branch(b: &[u8]) -> (node: Option<Node>)
    ensures
        node_option_view(node) == parse_branch(b@),
{
    let mut children: Vec<Option<Vec<u8>>> = Vec::new();
    let mut pos: usize = 1;
    let mut k: usize = 0;
    while k < 16
        invariant
            k <= 16,
            children@.len() == k,
            pos <= 1 + 33 * k,
            parse_slots(b@, k as nat) == Some((slots_view(children@), pos as int)),
        decreases 16 - k,
    {
        if pos >= b.len() {
            proof {
                assert(parse_slots(b@, (k + 1) as nat) is None);
                lemma_parse_slots_fails(b@, (k + 1) as nat, 16);
            }
            return None;
        }
        let ghost before = slots_view(children@);
        if b[pos] == 0 {
            children.push(None);
            pos += 1;
            assert(slots_view(children@) =~= before.push(None));
        } else if b[pos] == 1 && b.len() - pos >= 33 {
            let h = copy_range(b, pos + 1, pos + 33);
            children.push(Some(h));
            pos += 33;
            assert(slots_view(children@) =~= before.push(Some(h@)));
        } else {
            proof {
                assert(parse_slots(b@, (k + 1) as nat) is None);
                lemma_parse_slots_fails(b@, (k + 1) as nat, 16);
            }
            return None;
        }
        k += 1;
    }
    if pos != b.len() {
        return None;
    }
    if count_slots(&children) < 2 {
        return None;
    }
    Some(Node::Branch { children })
}

/// Decodes a node. `None` when `bytes` is not the encoding of a node.
pub fn decode_node(bytes: &[u8]) -> (node: Option<Node>)
    ensures
        node_option_view(node) == parse_node(bytes@),
{
    if bytes.len() < 1 {
        None
    } else if bytes[0] == 0 {
        decode_leaf(bytes)
    } else if bytes[0] == 1 {
        decode_extension(bytes)
    } else if bytes[0] == 2 {
        decode_branch(bytes)
    } else {
        None
    }
}

/// Encodes a node.
pub fn encode(node: &Node) -> (bytes: Vec<u8>)
    requires
        encodable(node@),
    ensures
        bytes@ == encode_node(node@),
{
    let mut out: Vec<u8> = Vec::new();
    match node {
        Node::Leaf { path, value } => {
            out.push(0u8);
            out.push(path.len() as u8);
            append_bytes(&mut out, path.as_slice());
            let len = u64_to_le_bytes(value.len() as u64);
            append_bytes(&mut out, len.as_slice());
            append_bytes(&mut out, value.as_slice());
            assert(out@ =~= encode_node(node@));
        },
        Node::Extension { path, child } => {
            out.push(1u8);
            out.push(path.len() as u8);
            append_bytes(&mut out, path.as_slice());
            append_bytes(&mut out, child.as_slice());
            assert(out@ =~= encode_node(node@));
        },
        Node::Branch { children } => {
            out.push(2u8);
            let mut i: usize = 0;
            while i < children.len()
                invariant
                    i <= children@.len(),
                    out@ == seq![2u8] + encode_slots(slots_view(children@).take(i as int)),
                decreases children@.len() - i,
            {
                assert(slots_view(children@).take(i + 1).drop_last() =~= slots_view(
                    children@,
                ).take(i as int));
                match &children[i] {
                    Some(h) => {
                        out.push(1u8);
                        append_bytes(&mut out, h.as_slice());
                    },
                    None => {
                        out.push(0u8);
                    },
                }
                i += 1;
                assert(out@ =~= seq![2u8] + encode_slots(slots_view(children@).take(i as int)));
            }
            assert(slots_view(children@).take(i as int) =~= slots_view(children@));
        },
    }
    out
}

} // verus!
