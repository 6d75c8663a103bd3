//! Decoding and encoding of nodes are inverse to each other.

use vstd::prelude::*;
use vstd::bytes::*;
use crate::bytes::lemma_region_split;
use crate::node::{
    encode_node, encode_slot, encode_slots, parse_node, parse_slots, valid_node, NodeView,
};

verus! {

proof fn lemma_slots_parsed(b: Seq<u8>, k: nat, slots: Seq<Option<Seq<u8>>>, end: int)
    requires
        parse_slots(b, k) == Some((slots, end)),
    ensures
        1 <= end <= b.len() || (k == 0 && end == 1),
        slots.len() == k,
        forall|i: int| 0 <= i < k ==> ((#[trigger] slots[i]) matches Some(h) ==> h.len() == 32),
        b.len() >= 1 ==> encode_slots(slots) == b.subrange(1, end),
    decreases k,
{
    if k == 0 {
        if b.len() >= 1 {
            assert(encode_slots(slots) =~= b.subrange(1, 1));
        }
    } else {
        let (before, pos) = parse_slots(b, (k - 1) as nat).unwrap();
        lemma_slots_parsed(b, (k - 1) as nat, before, pos);
        assert(slots.drop_last() =~= before);
        assert(encode_slots(slots) =~= b.subrange(1, end));
    }
}

/// Bytes that decode to a node are the encoding of that node, and the node has
/// the shape that every encoded node has.
pub proof fn law_node_decode_then_encode(b: Seq<u8>, n: NodeView)
    requires
        parse_node(b) == Some(n),
    ensures
        encode_node(n) == b,
        valid_node(n),
{
    lemma_auto_spec_u64_to_from_le_bytes();
    if b[0] == 0 {
        let k = b[1] as int;
        let len = b.subrange(2 + k, 2 + k + 8);
        assert(spec_u64_to_le_bytes(spec_u64_from_le_bytes(len)) == len);
        assert(encode_node(n) =~= b);
    } else if b[0] == 1 {
        assert(encode_node(n) =~= b);
    } else {
        let (slots, end) = parse_slots(b, 16).unwrap();
        lemma_slots_parsed(b, 16, slots, end);
        assert(encode_node(n) =~= b);
    }
}

proof fn lemma_slots_written(b: Seq<u8>, slots: Seq<Option<Seq<u8>>>)
    requires
        forall|i: int|
            0 <= i < slots.len() ==> ((#[trigger] slots[i]) matches Some(h) ==> h.len() == 32),
        1 + encode_slots(slots).len() <= b.len(),
        b.subrange(1, 1 + encode_slots(slots).len() as int) == encode_slots(slots),
    ensures
        parse_slots(b, slots.len()) == Some((slots, 1 + encode_slots(slots).len() as int)),
    decreases slots.len(),
{
    if slots.len() == 0 {
        assert(slots =~= Seq::empty());
    } else {
        let before = slots.drop_last();
        let last = slots.last();
        lemma_region_split(b, 1, encode_slots(before), encode_slot(last));
        lemma_slots_written(b, before);
        let pos = 1 + encode_slots(before).len() as int;
        let piece = b.subrange(pos, pos + encode_slot(last).len());
        assert(piece[0] == encode_slot(last)[0]);
        match last {
            None => {},
            Some(h) => {
                lemma_region_split(b, pos, seq![1u8], h);
            },
        }
        assert(before.push(last) =~= slots);
    }
}

/// The encoding of a node of the shape that every encoded node has decodes to
/// that node.
pub proof fn law_node_encode_then_decode(n: NodeView)
    requires
        valid_node(n),
    ensures
        parse_node(encode_node(n)) == Some(n),
{
    lemma_auto_spec_u64_to_from_le_bytes();
    let b = encode_node(n);
    match n {
        NodeView::Leaf { path, value } => {
            let len = spec_u64_to_le_bytes(value.len() as u64);
            assert(len.len() == 8);
            let k = path.len() as int;
            assert(b[0] == 0 && b[1] == k);
            assert(b.subrange(2, 2 + k) =~= path);
            assert(b.subrange(2 + k, 2 + k + 8) =~= len);
            assert(b.subrange(2 + k + 8, b.len() as int) =~= value);
        },
        NodeView::Extension { path, child } => {
            let k = path.len() as int;
            assert(b[0] == 1 && b[1] == k);
            assert(b.subrange(2, 2 + k) =~= path);
            assert(b.subrange(2 + k, 2 + k + 32) =~= child);
        },
        NodeView::Branch { children } => {
            assert(b[0] == 2);
            let end = 1 + encode_slots(children).len() as int;
            assert(b.subrange(1, end) =~= encode_slots(children));
            lemma_slots_written(b, children);
        },
    }
}

} // verus!
