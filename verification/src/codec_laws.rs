//! Decoding and encoding are inverse to each other.

use vstd::prelude::*;
use vstd::bytes::*;
use crate::codec::{
    parse_bytes, parse_fixed, parse_leaf, parse_leaves, parse_proof_node, parse_proof_nodes,
    parse_stored, parse_u64, parse_value, parse_witness, parse_witness_at, ser_bytes, ser_leaf,
    ser_leaves, ser_node, ser_nodes, ser_stored, ser_u64, ser_value, ser_witness, status_code,
    status_of, wf_witness, DecodeError,
};
use crate::bytes::lemma_region_split;
use crate::trie::ProofNodeView;
use crate::witness::{WitnessLeafView, WitnessStatus, WitnessView};

verus! {

proof fn lemma_u64_parsed(b: Seq<u8>, pos: int, x: u64, end: int)
    requires
        parse_u64(b, pos) == Some((x, end)),
    ensures
        end == pos + 8,
        ser_u64(x) == b.subrange(pos, end),
{
    lemma_auto_spec_u64_to_from_le_bytes();
    let s = b.subrange(pos, pos + 8);
    assert(spec_u64_to_le_bytes(spec_u64_from_le_bytes(s)) == s);
}

proof fn lemma_bytes_parsed(b: Seq<u8>, pos: int, s: Seq<u8>, end: int)
    requires
        parse_bytes(b, pos) == Some((s, end)),
    ensures
        pos <= end <= b.len(),
        s.len() <= u64::MAX,
        ser_bytes(s) == b.subrange(pos, end),
{
    let (len, p) = parse_u64(b, pos).unwrap();
    lemma_u64_parsed(b, pos, len, p);
    assert(s.len() == len);
    assert(ser_bytes(s) =~= b.subrange(pos, end));
}

proof fn lemma_node_parsed(b: Seq<u8>, pos: int, n: ProofNodeView, end: int)
    requires
        parse_proof_node(b, pos) == Some((n, end)),
    ensures
        pos <= end <= b.len(),
        n.hash.len() == 32,
        n.bytes.len() <= u64::MAX,
        ser_node(n) == b.subrange(pos, end),
{
    let (hash, p) = parse_fixed(b, pos, 32).unwrap();
    lemma_bytes_parsed(b, p, n.bytes, end);
    assert(ser_node(n) =~= b.subrange(pos, end));
}

proof fn lemma_nodes_parsed(b: Seq<u8>, pos: int, k: nat, nodes: Seq<ProofNodeView>, end: int)
    requires
        0 <= pos <= b.len(),
        parse_proof_nodes(b, pos, k) == Some((nodes, end)),
    ensures
        pos <= end <= b.len(),
        nodes.len() == k,
        forall|i: int|
            0 <= i < k ==> (#[trigger] nodes[i]).hash.len() == 32 && nodes[i].bytes.len()
                <= u64::MAX,
        ser_nodes(nodes) == b.subrange(pos, end),
    decreases k,
{
    if k == 0 {
        assert(ser_nodes(Seq::empty()) =~= b.subrange(pos, pos));
    } else {
        let (before, p) = parse_proof_nodes(b, pos, (k - 1) as nat).unwrap();
        lemma_nodes_parsed(b, pos, (k - 1) as nat, before, p);
        let (n, q) = parse_proof_node(b, p).unwrap();
        lemma_node_parsed(b, p, n, q);
        assert(nodes == before.push(n));
        assert(nodes.drop_last() =~= before);
        assert(ser_nodes(nodes) =~= b.subrange(pos, end));
    }
}

proof fn lemma_value_parsed(b: Seq<u8>, pos: int, v: Option<Seq<u8>>, end: int)
    requires
        parse_value(b, pos) == Some((v, end)),
    ensures
        pos <= end <= b.len(),
        v matches Some(s) ==> s.len() <= u64::MAX,
        ser_value(v) == b.subrange(pos, end),
{
    if b[pos] == 1 {
        lemma_bytes_parsed(b, pos + 1, v.unwrap(), end);
    }
    assert(ser_value(v) =~= b.subrange(pos, end));
}

proof fn lemma_leaf_parsed(b: Seq<u8>, pos: int, l: WitnessLeafView, end: int)
    requires
        parse_leaf(b, pos) == Some((l, end)),
    ensures
        pos <= end <= b.len(),
        l.key.len() <= u64::MAX,
        l.value matches Some(v) ==> v.len() <= u64::MAX,
        ser_leaf(l) == b.subrange(pos, end),
{
    let (key, p) = parse_bytes(b, pos).unwrap();
    lemma_bytes_parsed(b, pos, key, p);
    lemma_value_parsed(b, p, l.value, end);
    assert(ser_leaf(l) =~= b.subrange(pos, end));
}

proof fn lemma_leaves_parsed(b: Seq<u8>, pos: int, k: nat, leaves: Seq<WitnessLeafView>, end: int)
    requires
        0 <= pos <= b.len(),
        parse_leaves(b, pos, k) == Some((leaves, end)),
    ensures
        pos <= end <= b.len(),
        leaves.len() == k,
        forall|i: int|
            0 <= i < k ==> (#[trigger] leaves[i]).key.len() <= u64::MAX && (
            leaves[i].value matches Some(v) ==> v.len() <= u64::MAX),
        ser_leaves(leaves) == b.subrange(pos, end),
    decreases k,
{
    if k == 0 {
        assert(ser_leaves(Seq::empty()) =~= b.subrange(pos, pos));
    } else {
        let (before, p) = parse_leaves(b, pos, (k - 1) as nat).unwrap();
        lemma_leaves_parsed(b, pos, (k - 1) as nat, before, p);
        let (l, q) = parse_leaf(b, p).unwrap();
        lemma_leaf_parsed(b, p, l, q);
        assert(leaves == before.push(l));
        assert(leaves.drop_last() =~= before);
        assert(ser_leaves(leaves) =~= b.subrange(pos, end));
    }
}

/// A payload that decodes to a witness is the encoding of that witness, and the
/// witness has the shape that the format can hold.
pub proof fn law_decode_then_encode(b: Seq<u8>, w: WitnessView)
    requires
        parse_witness(b) == Some(w),
    ensures
        ser_witness(w) == b,
        wf_witness(w),
{
    let (old_root, pos1) = parse_fixed(b, 0, 32).unwrap();
    let (n_nodes, pos2) = parse_u64(b, pos1).unwrap();
    lemma_u64_parsed(b, pos1, n_nodes, pos2);
    let (proof_nodes, pos3) = parse_proof_nodes(b, pos2, n_nodes as nat).unwrap();
    lemma_nodes_parsed(b, pos2, n_nodes as nat, proof_nodes, pos3);
    let (n_leaves, pos4) = parse_u64(b, pos3).unwrap();
    lemma_u64_parsed(b, pos3, n_leaves, pos4);
    let (leaves, pos5) = parse_leaves(b, pos4, n_leaves as nat).unwrap();
    lemma_leaves_parsed(b, pos4, n_leaves as nat, leaves, pos5);
    let (block_number, pos6) = parse_u64(b, pos5).unwrap();
    lemma_u64_parsed(b, pos5, block_number, pos6);
    let (block_hash, pos7) = parse_fixed(b, pos6, 32).unwrap();
    assert(w.proof_nodes == proof_nodes);
    assert(w.leaves == leaves);
    assert(ser_witness(w) =~= b);
}

/// Bytes that decode to a stored witness are the encoding of that stored
/// witness.
pub proof fn law_stored_decode_then_encode(b: Seq<u8>, status: WitnessStatus, data: Seq<u8>)
    requires
        parse_stored(b) == Ok::<(WitnessStatus, Seq<u8>), DecodeError>((status, data)),
    ensures
        ser_stored(status, data) == b,
{
    lemma_auto_spec_u32_to_from_le_bytes();
    let head = b.subrange(0, 4);
    let code = spec_u32_from_le_bytes(head);
    assert(spec_u32_to_le_bytes(code) == head);
    lemma_bytes_parsed(b, 4, data, b.len() as int);
    assert(status_code(status) == code);
    assert(ser_stored(status, data) =~= b);
}


proof fn lemma_u64_written(b: Seq<u8>, pos: int, x: u64)
    requires
        0 <= pos,
        pos + 8 <= b.len(),
        b.subrange(pos, pos + 8) == ser_u64(x),
    ensures
        parse_u64(b, pos) == Some((x, pos + 8)),
{
    lemma_auto_spec_u64_to_from_le_bytes();
}

proof fn lemma_bytes_written(b: Seq<u8>, pos: int, s: Seq<u8>)
    requires
        s.len() <= u64::MAX,
        0 <= pos,
        pos + ser_bytes(s).len() <= b.len(),
        b.subrange(pos, pos + ser_bytes(s).len()) == ser_bytes(s),
    ensures
        ser_bytes(s).len() == 8 + s.len(),
        parse_bytes(b, pos) == Some((s, pos + ser_bytes(s).len())),
{
    lemma_auto_spec_u64_to_from_le_bytes();
    let head = ser_u64(s.len() as u64);
    assert(head.len() == 8);
    lemma_region_split(b, pos, head, s);
    lemma_u64_written(b, pos, s.len() as u64);
}

proof fn lemma_node_written(b: Seq<u8>, pos: int, n: ProofNodeView)
    requires
        n.hash.len() == 32,
        n.bytes.len() <= u64::MAX,
        0 <= pos,
        pos + ser_node(n).len() <= b.len(),
        b.subrange(pos, pos + ser_node(n).len()) == ser_node(n),
    ensures
        parse_proof_node(b, pos) == Some((n, pos + ser_node(n).len())),
{
    lemma_region_split(b, pos, n.hash, ser_bytes(n.bytes));
    lemma_bytes_written(b, pos + 32, n.bytes);
}

proof fn lemma_nodes_written(b: Seq<u8>, pos: int, nodes: Seq<ProofNodeView>)
    requires
        forall|i: int|
            0 <= i < nodes.len() ==> (#[trigger] nodes[i]).hash.len() == 32 && nodes[i].bytes.len()
                <= u64::MAX,
        0 <= pos,
        pos + ser_nodes(nodes).len() <= b.len(),
        b.subrange(pos, pos + ser_nodes(nodes).len()) == ser_nodes(nodes),
    ensures
        parse_proof_nodes(b, pos, nodes.len()) == Some((nodes, pos + ser_nodes(nodes).len())),
    decreases nodes.len(),
{
    if nodes.len() == 0 {
        assert(nodes =~= Seq::empty());
    } else {
        let before = nodes.drop_last();
        let last = nodes.last();
        lemma_region_split(b, pos, ser_nodes(before), ser_node(last));
        lemma_nodes_written(b, pos, before);
        lemma_node_written(b, pos + ser_nodes(before).len(), last);
        assert(before.push(last) =~= nodes);
    }
}

proof fn lemma_value_written(b: Seq<u8>, pos: int, v: Option<Seq<u8>>)
    requires
        v matches Some(s) ==> s.len() <= u64::MAX,
        0 <= pos,
        pos + ser_value(v).len() <= b.len(),
        b.subrange(pos, pos + ser_value(v).len()) == ser_value(v),
    ensures
        parse_value(b, pos) == Some((v, pos + ser_value(v).len())),
{
    let region = b.subrange(pos, pos + ser_value(v).len());
    assert(region[0] == ser_value(v)[0]);
    match v {
        None => {},
        Some(s) => {
            lemma_region_split(b, pos, seq![1u8], ser_bytes(s));
            lemma_bytes_written(b, pos + 1, s);
        },
    }
}

proof fn lemma_leaf_written(b: Seq<u8>, pos: int, l: WitnessLeafView)
    requires
        l.key.len() <= u64::MAX,
        l.value matches Some(s) ==> s.len() <= u64::MAX,
        0 <= pos,
        pos + ser_leaf(l).len() <= b.len(),
        b.subrange(pos, pos + ser_leaf(l).len()) == ser_leaf(l),
    ensures
        parse_leaf(b, pos) == Some((l, pos + ser_leaf(l).len())),
{
    lemma_region_split(b, pos, ser_bytes(l.key), ser_value(l.value));
    lemma_bytes_written(b, pos, l.key);
    lemma_value_written(b, pos + ser_bytes(l.key).len(), l.value);
}

proof fn lemma_leaves_written(b: Seq<u8>, pos: int, leaves: Seq<WitnessLeafView>)
    requires
        forall|i: int|
            0 <= i < leaves.len() ==> (#[trigger] leaves[i]).key.len() <= u64::MAX && (
            leaves[i].value matches Some(v) ==> v.len() <= u64::MAX),
        0 <= pos,
        pos + ser_leaves(leaves).len() <= b.len(),
        b.subrange(pos, pos + ser_leaves(leaves).len()) == ser_leaves(leaves),
    ensures
        parse_leaves(b, pos, leaves.len()) == Some((leaves, pos + ser_leaves(leaves).len())),
    decreases leaves.len(),
{
    if leaves.len() == 0 {
        assert(leaves =~= Seq::empty());
    } else {
        let before = leaves.drop_last();
        let last = leaves.last();
        lemma_region_split(b, pos, ser_leaves(before), ser_leaf(last));
        lemma_leaves_written(b, pos, before);
        lemma_leaf_written(b, pos + ser_leaves(before).len(), last);
        assert(before.push(last) =~= leaves);
    }
}

/// The encoding of a witness of the shape that the format can hold decodes to
/// that witness.
pub proof fn law_encode_then_decode(w: WitnessView)
    requires
        wf_witness(w),
    ensures
        parse_witness(ser_witness(w)) == Some(w),
{
    lemma_auto_spec_u64_to_from_le_bytes();
    let b = ser_witness(w);
    let n1 = ser_u64(w.proof_nodes.len() as u64);
    let nodes = ser_nodes(w.proof_nodes);
    let n2 = ser_u64(w.leaves.len() as u64);
    let leaves = ser_leaves(w.leaves);
    let number = ser_u64(w.block_number);
    let x1 = w.old_root;
    let x2 = x1 + n1;
    let x3 = x2 + nodes;
    let x4 = x3 + n2;
    let x5 = x4 + leaves;
    let x6 = x5 + number;
    assert(b == x6 + w.block_hash);
    assert(b.subrange(0, b.len() as int) =~= b);
    lemma_region_split(b, 0, x6, w.block_hash);
    lemma_region_split(b, 0, x5, number);
    lemma_region_split(b, 0, x4, leaves);
    lemma_region_split(b, 0, x3, n2);
    lemma_region_split(b, 0, x2, nodes);
    lemma_region_split(b, 0, x1, n1);
    let pos1 = 32int;
    let pos2 = pos1 + 8;
    lemma_u64_written(b, pos1, w.proof_nodes.len() as u64);
    lemma_nodes_written(b, pos2, w.proof_nodes);
    let pos3 = pos2 + nodes.len();
    lemma_u64_written(b, pos3, w.leaves.len() as u64);
    let pos4 = pos3 + 8;
    lemma_leaves_written(b, pos4, w.leaves);
    let pos5 = pos4 + leaves.len();
    lemma_u64_written(b, pos5, w.block_number);
    let pos6 = pos5 + 8;
    assert(parse_fixed(b, 0, 32) == Some((w.old_root, pos1)));
    assert(parse_fixed(b, pos6, 32) == Some((w.block_hash, pos6 + 32)));
    assert(parse_witness_at(b) == Some((w, b.len() as int)));
}

/// The encoding of a stored witness decodes to its status and its payload.
pub proof fn law_stored_encode_then_decode(status: WitnessStatus, data: Seq<u8>)
    requires
        data.len() <= u64::MAX,
    ensures
        parse_stored(ser_stored(status, data)) == Ok::<(WitnessStatus, Seq<u8>), DecodeError>(
            (status, data),
        ),
{
    lemma_auto_spec_u32_to_from_le_bytes();
    lemma_auto_spec_u64_to_from_le_bytes();
    let b = ser_stored(status, data);
    let head = spec_u32_to_le_bytes(status_code(status));
    assert(head.len() == 4);
    assert(b.subrange(0, b.len() as int) =~= b);
    lemma_region_split(b, 0, head, ser_bytes(data));
    lemma_bytes_written(b, 4, data);
    assert(status_of(status_code(status)) == Some(status));
}

} // verus!
