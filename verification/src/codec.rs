//! The byte format of stored witnesses.
//!
//! A stored witness is a status code (4 bytes, little-endian), the length of
//! the payload (8 bytes, little-endian) and the payload. The payload of a ready
//! witness is the old root (32 bytes), the number of proof nodes and the proof
//! nodes, the number of leaves and the leaves, the block number and the block
//! hash (32 bytes). A proof node is its hash (32 bytes) and its bytes; a leaf
//! is its key and its value, where a value is `0`, or `1` and the bytes. All
//! numbers take 8 bytes, little-endian, and every byte string that is not of
//! fixed length is preceded by its length.

use vstd::prelude::*;
use vstd::bytes::*;
use vstd::slice::slice_subrange;
use crate::bytes::{append_bytes, copy_range};
use crate::trie::{store_view, value_view, ProofNode, ProofNodeView};
use crate::witness::{
    leaves_view, Witness, WitnessLeaf, WitnessLeafView, WitnessStatus, WitnessView,
};

verus! {

/// Why bytes were not accepted.
#[derive(Debug, Clone, Copy, PartialEq, Eq, Structural)]
pub enum DecodeError {
    /// The status code is none of the four known ones.
    UnknownStatus,
    /// The bytes end too early, go on too long, or hold a tag that is neither 0
    /// nor 1.
    Malformed,
}

/// The 8 little-endian bytes of a number.
pub open spec fn ser_u64(x: u64) -> Seq<u8> {
    spec_u64_to_le_bytes(x)
}

/// A byte string preceded by its length.
pub open spec fn ser_bytes(b: Seq<u8>) -> Seq<u8> {
    ser_u64(b.len() as u64) + b
}

/// The bytes that stand for a proof node: its hash, then its bytes with their
/// length.
pub open spec fn ser_node(n: ProofNodeView) -> Seq<u8> {
    n.hash + ser_bytes(n.bytes)
}

/// The bytes that stand for proof nodes, one after the other.
pub open spec fn ser_nodes(nodes: Seq<ProofNodeView>) -> Seq<u8>
    decreases nodes.len(),
{
    if nodes.len() == 0 {
        Seq::empty()
    } else {
        ser_nodes(nodes.drop_last()) + ser_node(nodes.last())
    }
}

/// The bytes that stand for a value: `0` for none, else `1` and the value with
/// its length.
pub open spec fn ser_value(v: Option<Seq<u8>>) -> Seq<u8> {
    match v {
        None => seq![0u8],
        Some(b) => seq![1u8] + ser_bytes(b),
    }
}

/// The bytes that stand for a leaf: its key, then its value.
pub open spec fn ser_leaf(l: WitnessLeafView) -> Seq<u8> {
    ser_bytes(l.key) + ser_value(l.value)
}

/// The bytes that stand for leaves, one after the other.
pub open spec fn ser_leaves(leaves: Seq<WitnessLeafView>) -> Seq<u8>
    decreases leaves.len(),
{
    if leaves.len() == 0 {
        Seq::empty()
    } else {
        ser_leaves(leaves.drop_last()) + ser_leaf(leaves.last())
    }
}

/// The payload that stands for a witness.
pub open spec fn ser_witness(w: WitnessView) -> Seq<u8> {
    w.old_root + ser_u64(w.proof_nodes.len() as u64) + ser_nodes(w.proof_nodes) + ser_u64(
        w.leaves.len() as u64,
    ) + ser_leaves(w.leaves) + ser_u64(w.block_number) + w.block_hash
}

/// The shape of a witness that the format can hold: hashes are 32 bytes and
/// every length fits 8 bytes.
pub open spec fn wf_witness(w: WitnessView) -> bool {
    &&& w.old_root.len() == 32
    &&& w.block_hash.len() == 32
    &&& w.proof_nodes.len() <= u64::MAX
    &&& w.leaves.len() <= u64::MAX
    &&& forall|i: int|
        0 <= i < w.proof_nodes.len() ==> (#[trigger] w.proof_nodes[i]).hash.len() == 32
            && w.proof_nodes[i].bytes.len() <= u64::MAX
    &&& forall|i: int|
        0 <= i < w.leaves.len() ==> (#[trigger] w.leaves[i]).key.len() <= u64::MAX && (
        w.leaves[i].value matches Some(v) ==> v.len() <= u64::MAX)
}

/// The number in the 8 bytes at `pos`, and the offset behind it.
pub open spec fn parse_u64(b: Seq<u8>, pos: int) -> Option<(u64, int)> {
    if 0 <= pos && pos + 8 <= b.len() {
        Some((spec_u64_from_le_bytes(b.subrange(pos, pos + 8)), pos + 8))
    } else {
        None
    }
}

/// The `n` bytes at `pos`, and the offset behind them.
pub open spec fn parse_fixed(b: Seq<u8>, pos: int, n: int) -> Option<(Seq<u8>, int)> {
    if 0 <= pos && 0 <= n && pos + n <= b.len() {
        Some((b.subrange(pos, pos + n), pos + n))
    } else {
        None
    }
}

/// The byte string that starts at `pos` with its length, and the offset behind
/// it.
pub open spec fn parse_bytes(b: Seq<u8>, pos: int) -> Option<(Seq<u8>, int)> {
    match parse_u64(b, pos) {
        None => None,
        Some((len, p)) => parse_fixed(b, p, len as int),
    }
}

/// The proof node that starts at `pos`, and the offset behind it.
pub open spec fn parse_proof_node(b: Seq<u8>, pos: int) -> Option<(ProofNodeView, int)> {
    match parse_fixed(b, pos, 32) {
        None => None,
        Some((hash, p)) => match parse_bytes(b, p) {
            None => None,
            Some((bytes, q)) => Some((ProofNodeView { hash, bytes }, q)),
        },
    }
}

/// The first `k` proof nodes that start at `pos`, and the offset behind them.
pub open spec fn parse_proof_nodes(b: Seq<u8>, pos: int, k: nat) -> Option<
    (Seq<ProofNodeView>, int),
>
    decreases k,
{
    if k == 0 {
        Some((Seq::empty(), pos))
    } else {
        match parse_proof_nodes(b, pos, (k - 1) as nat) {
            None => None,
            Some((nodes, p)) => match parse_proof_node(b, p) {
                None => None,
                Some((n, q)) => Some((nodes.push(n), q)),
            },
        }
    }
}

/// The value that starts at `pos`, and the offset behind it.
pub open spec fn parse_value(b: Seq<u8>, pos: int) -> Option<(Option<Seq<u8>>, int)> {
    if 0 <= pos < b.len() {
        if b[pos] == 0 {
            Some((None, pos + 1))
        } else if b[pos] == 1 {
            match parse_bytes(b, pos + 1) {
                None => None,
                Some((v, p)) => Some((Some(v), p)),
            }
        } else {
            None
        }
    } else {
        None
    }
}

/// The leaf that starts at `pos`, and the offset behind it.
pub open spec fn parse_leaf(b: Seq<u8>, pos: int) -> Option<(WitnessLeafView, int)> {
    match parse_bytes(b, pos) {
        None => None,
        Some((key, p)) => match parse_value(b, p) {
            None => None,
            Some((value, q)) => Some((WitnessLeafView { key, value }, q)),
        },
    }
}

/// The first `k` leaves that start at `pos`, and the offset behind them.
pub open spec fn parse_leaves(b: Seq<u8>, pos: int, k: nat) -> Option<(Seq<WitnessLeafView>, int)>
    decreases k,
{
    if k == 0 {
        Some((Seq::empty(), pos))
    } else {
        match parse_leaves(b, pos, (k - 1) as nat) {
            None => None,
            Some((leaves, p)) => match parse_leaf(b, p) {
                None => None,
                Some((l, q)) => Some((leaves.push(l), q)),
            },
        }
    }
}

/// The witness that `b` holds, and the offset behind it.
pub open spec fn parse_witness_at(b: Seq<u8>) -> Option<(WitnessView, int)> {
    match parse_fixed(b, 0, 32) {
        None => None,
        Some((old_root, pos1)) => match parse_u64(b, pos1) {
            None => None,
            Some((n_nodes, pos2)) => match parse_proof_nodes(b, pos2, n_nodes as nat) {
                None => None,
                Some((proof_nodes, pos3)) => match parse_u64(b, pos3) {
                    None => None,
                    Some((n_leaves, pos4)) => match parse_leaves(b, pos4, n_leaves as nat) {
                        None => None,
                        Some((leaves, pos5)) => match parse_u64(b, pos5) {
                            None => None,
                            Some((block_number, pos6)) => match parse_fixed(b, pos6, 32) {
                                None => None,
                                Some((block_hash, pos7)) => Some(
                                    (
                                        WitnessView {
                                            old_root,
                                            proof_nodes,
                                            leaves,
                                            block_number,
                                            block_hash,
                                        },
                                        pos7,
                                    ),
                                ),
                            },
                        },
                    },
                },
            },
        },
    }
}

/// The witness that the payload `b` holds, if it holds one and nothing else.
pub open spec fn parse_witness(b: Seq<u8>) -> Option<WitnessView> {
    match parse_witness_at(b) {
        None => None,
        Some((w, end)) => if end == b.len() {
            Some(w)
        } else {
            None
        },
    }
}

fn read_u64(b: &[u8], pos: usize) -> (res: Option<(u64, usize)>)
    requires
        pos <= b@.len(),
    ensures
        match res {
            Some((x, p)) => parse_u64(b@, pos as int) == Some((x, p as int)) && p <= b@.len(),
            None => parse_u64(b@, pos as int) is None,
        },
{
    if b.len() - pos < 8 {
        return None;
    }
    let x = u64_from_le_bytes(slice_subrange(b, pos, pos + 8));
    Some((x, pos + 8))
}

fn read_fixed(b: &[u8], pos: usize, n: usize) -> (res: Option<(Vec<u8>, usize)>)
    requires
        pos <= b@.len(),
    ensures
        match res {
            Some((s, p)) => parse_fixed(b@, pos as int, n as int) == Some((s@, p as int)) && p
                <= b@.len(),
            None => parse_fixed(b@, pos as int, n as int) is None,
        },
{
    if b.len() - pos < n {
        return None;
    }
    Some((copy_range(b, pos, pos + n), pos + n))
}

fn read_bytes(b: &[u8], pos: usize) -> (res: Option<(Vec<u8>, usize)>)
    requires
        pos <= b@.len(),
    ensures
        match res {
            Some((s, p)) => parse_bytes(b@, pos as int) == Some((s@, p as int)) && p <= b@.len(),
            None => parse_bytes(b@, pos as int) is None,
        },
{
    match read_u64(b, pos) {
        None => None,
        Some((len, p)) => {
            if len > (b.len() - p) as u64 {
                return None;
            }
            read_fixed(b, p, len as usize)
        },
    }
}

fn read_proof_node(b: &[u8], pos: usize) -> (res: Option<(ProofNode, usize)>)
    requires
        pos <= b@.len(),
    ensures
        match res {
            Some((n, p)) => parse_proof_node(b@, pos as int) == Some((n@, p as int)) && p
                <= b@.len(),
            None => parse_proof_node(b@, pos as int) is None,
        },
{
    match read_fixed(b, pos, 32) {
        None => None,
        Some((hash, p)) => match read_bytes(b, p) {
            None => None,
            Some((bytes, q)) => Some((ProofNode { hash, bytes }, q)),
        },
    }
}

proof fn lemma_proof_nodes_fail(b: Seq<u8>, pos: int, k: nat, n: nat)
    requires
        k <= n,
        parse_proof_nodes(b, pos, k) is None,
    ensures
        parse_proof_nodes(b, pos, n) is None,
    decreases n,
{
    if k < n {
        lemma_proof_nodes_fail(b, pos, k, (n - 1) as nat);
    }
}

proof fn lemma_leaves_fail(b: Seq<u8>, pos: int, k: nat, n: nat)
    requires
        k <= n,
        parse_leaves(b, pos, k) is None,
    ensures
        parse_leaves(b, pos, n) is None,
    decreases n,
{
    if k < n {
        lemma_leaves_fail(b, pos, k, (n - 1) as nat);
    }
}

fn read_proof_nodes(b: &[u8], pos: usize, count: u64) -> (res: Option<(Vec<ProofNode>, usize)>)
    requires
        pos <= b@.len(),
    ensures
        match res {
            Some((nodes, p)) => parse_proof_nodes(b@, pos as int, count as nat) == Some(
                (store_view(nodes@), p as int),
            ) && p <= b@.len(),
            None => parse_proof_nodes(b@, pos as int, count as nat) is None,
        },
{
    let mut nodes: Vec<ProofNode> = Vec::new();
    let mut p: usize = pos;
    let mut k: u64 = 0;
    assert(store_view(nodes@) =~= Seq::empty());
    while k < count
        invariant
            k <= count,
            p <= b@.len(),
            parse_proof_nodes(b@, pos as int, k as nat) == Some((store_view(nodes@), p as int)),
        decreases count - k,
    {
        let ghost before = store_view(nodes@);
        match read_proof_node(b, p) {
            None => {
                proof {
                    assert(parse_proof_nodes(b@, pos as int, (k + 1) as nat) is None);
                    lemma_proof_nodes_fail(b@, pos as int, (k + 1) as nat, count as nat);
                }
                return None;
            },
            Some((n, q)) => {
                nodes.push(n);
                p = q;
                assert(store_view(nodes@) =~= before.push(n@));
            },
        }
        k += 1;
    }
    Some((nodes, p))
}

fn read_value(b: &[u8], pos: usize) -> (res: Option<(Option<Vec<u8>>, usize)>)
    requires
        pos <= b@.len(),
    ensures
        match res {
            Some((v, p)) => parse_value(b@, pos as int) == Some((value_view(v), p as int)) && p
                <= b@.len(),
            None => parse_value(b@, pos as int) is None,
        },
{
    if pos >= b.len() {
        return None;
    }
    if b[pos] == 0 {
        Some((None, pos + 1))
    } else if b[pos] == 1 {
        match read_bytes(b, pos + 1) {
            None => None,
            Some((v, p)) => Some((Some(v), p)),
        }
    } else {
        None
    }
}

fn read_leaf(b: &[u8], pos: usize) -> (res: Option<(WitnessLeaf, usize)>)
    requires
        pos <= b@.len(),
    ensures
        match res {
            Some((l, p)) => parse_leaf(b@, pos as int) == Some((l@, p as int)) && p <= b@.len(),
            None => parse_leaf(b@, pos as int) is None,
        },
{
    match read_bytes(b, pos) {
        None => None,
        Some((key, p)) => match read_value(b, p) {
            None => None,
            Some((value, q)) => Some((WitnessLeaf { key, value }, q)),
        },
    }
}

fn read_leaves(b: &[u8], pos: usize, count: u64) -> (res: Option<(Vec<WitnessLeaf>, usize)>)
    requires
        pos <= b@.len(),
    ensures
        match res {
            Some((leaves, p)) => parse_leaves(b@, pos as int, count as nat) == Some(
                (leaves_view(leaves@), p as int),
            ) && p <= b@.len(),
            None => parse_leaves(b@, pos as int, count as nat) is None,
        },
{
    let mut leaves: Vec<WitnessLeaf> = Vec::new();
    let mut p: usize = pos;
    let mut k: u64 = 0;
    assert(leaves_view(leaves@) =~= Seq::empty());
    while k < count
        invariant
            k <= count,
            p <= b@.len(),
            parse_leaves(b@, pos as int, k as nat) == Some((leaves_view(leaves@), p as int)),
        decreases count - k,
    {
        let ghost before = leaves_view(leaves@);
        match read_leaf(b, p) {
            None => {
                proof {
                    assert(parse_leaves(b@, pos as int, (k + 1) as nat) is None);
                    lemma_leaves_fail(b@, pos as int, (k + 1) as nat, count as nat);
                }
                return None;
            },
            Some((l, q)) => {
                leaves.push(l);
                p = q;
                assert(leaves_view(leaves@) =~= before.push(l@));
            },
        }
        k += 1;
    }
    Some((leaves, p))
}

/// Decodes the payload of a ready witness. `Err(Malformed)` when `bytes` is not
/// the encoding of a witness.
pub fn decode_witness(bytes: &[u8]) -> (res: Result<Witness, DecodeError>)
    ensures
        match res {
            Ok(w) => parse_witness(bytes@) == Some(w@),
            Err(e) => parse_witness(bytes@) is None && e == DecodeError::Malformed,
        },
{
    let (old_root, pos1) = match read_fixed(bytes, 0, 32) {
        None => {
            return Err(DecodeError::Malformed);
        },
        Some(x) => x,
    };
    let (n_nodes, pos2) = match read_u64(bytes, pos1) {
        None => {
            return Err(DecodeError::Malformed);
        },
        Some(x) => x,
    };
    let (proof_nodes, pos3) = match read_proof_nodes(bytes, pos2, n_nodes) {
        None => {
            return Err(DecodeError::Malformed);
        },
        Some(x) => x,
    };
    let (n_leaves, pos4) = match read_u64(bytes, pos3) {
        None => {
            return Err(DecodeError::Malformed);
        },
        Some(x) => x,
    };
    let (leaves, pos5) = match read_leaves(bytes, pos4, n_leaves) {
        None => {
            return Err(DecodeError::Malformed);
        },
        Some(x) => x,
    };
    let (block_number, pos6) = match read_u64(bytes, pos5) {
        None => {
            return Err(DecodeError::Malformed);
        },
        Some(x) => x,
    };
    let (block_hash, pos7) = match read_fixed(bytes, pos6, 32) {
        None => {
            return Err(DecodeError::Malformed);
        },
        Some(x) => x,
    };
    if pos7 != bytes.len() {
        return Err(DecodeError::Malformed);
    }
    Ok(Witness { old_root, proof_nodes, leaves, block_number, block_hash })
}

fn write_u64(out: &mut Vec<u8>, x: u64)
    ensures
        final(out)@ == old(out)@ + ser_u64(x),
{
    let le = u64_to_le_bytes(x);
    append_bytes(out, le.as_slice());
}

fn write_bytes(out: &mut Vec<u8>, b: &[u8])
    ensures
        final(out)@ == old(out)@ + ser_bytes(b@),
{
    write_u64(out, b.len() as u64);
    append_bytes(out, b);
    assert(out@ =~= old(out)@ + ser_bytes(b@));
}

/// Encodes a witness as the payload of a stored witness.
pub fn encode_witness(w: &Witness) -> (bytes: Vec<u8>)
    ensures
        bytes@ == ser_witness(w@),
{
    let mut out: Vec<u8> = Vec::new();
    append_bytes(&mut out, w.old_root.as_slice());
    write_u64(&mut out, w.proof_nodes.len() as u64);
    let ghost head = out@;
    let ghost nodes = store_view(w.proof_nodes@);
    let mut i: usize = 0;
    assert(out@ =~= head + ser_nodes(nodes.take(0)));
    while i < w.proof_nodes.len()
        invariant
            i <= w.proof_nodes@.len(),
            nodes == store_view(w.proof_nodes@),
            out@ == head + ser_nodes(nodes.take(i as int)),
        decreases w.proof_nodes@.len() - i,
    {
        assert(nodes.take(i + 1).drop_last() =~= nodes.take(i as int));
        assert(nodes.take(i + 1).last() == w.proof_nodes@[i as int]@);
        append_bytes(&mut out, w.proof_nodes[i].hash.as_slice());
        write_bytes(&mut out, w.proof_nodes[i].bytes.as_slice());
        i += 1;
        assert(out@ =~= head + ser_nodes(nodes.take(i as int)));
    }
    assert(nodes.take(i as int) =~= nodes);
    write_u64(&mut out, w.leaves.len() as u64);
    let ghost middle = out@;
    let ghost leaves = leaves_view(w.leaves@);
    let mut j: usize = 0;
    assert(out@ =~= middle + ser_leaves(leaves.take(0)));
    while j < w.leaves.len()
        invariant
            j <= w.leaves@.len(),
            leaves == leaves_view(w.leaves@),
            out@ == middle + ser_leaves(leaves.take(j as int)),
        decreases w.leaves@.len() - j,
    {
        assert(leaves.take(j + 1).drop_last() =~= leaves.take(j as int));
        assert(leaves.take(j + 1).last() == w.leaves@[j as int]@);
        write_bytes(&mut out, w.leaves[j].key.as_slice());
        match &w.leaves[j].value {
            None => {
                out.push(0u8);
            },
            Some(v) => {
                out.push(1u8);
                write_bytes(&mut out, v.as_slice());
            },
        }
        j += 1;
        assert(out@ =~= middle + ser_leaves(leaves.take(j as int)));
    }
    assert(leaves.take(j as int) =~= leaves);
    write_u64(&mut out, w.block_number);
    append_bytes(&mut out, w.block_hash.as_slice());
    assert(out@ =~= ser_witness(w@));
    out
}


/// A witness as it is stored: how far its generation has come, and the payload.
#[derive(Debug, Clone, PartialEq, Eq)]
pub struct StoredWitness {
    pub status: WitnessStatus,
    pub data: Vec<u8>,
}

/// The code that stands for a status.
pub open spec fn status_code(status: WitnessStatus) -> u32 {
    match status {
        WitnessStatus::Idle => 0,
        WitnessStatus::Processing => 1,
        WitnessStatus::Ready => 2,
        WitnessStatus::Failed => 3,
    }
}

/// The status that a code stands for.
pub open spec fn status_of(code: u32) -> Option<WitnessStatus> {
    if code == 0 {
        Some(WitnessStatus::Idle)
    } else if code == 1 {
        Some(WitnessStatus::Processing)
    } else if code == 2 {
        Some(WitnessStatus::Ready)
    } else if code == 3 {
        Some(WitnessStatus::Failed)
    } else {
        None
    }
}

/// The bytes that stand for a stored witness.
pub open spec fn ser_stored(status: WitnessStatus, data: Seq<u8>) -> Seq<u8> {
    spec_u32_to_le_bytes(status_code(status)) + ser_bytes(data)
}

/// The stored witness that `b` holds.
pub open spec fn parse_stored(b: Seq<u8>) -> Result<(WitnessStatus, Seq<u8>), DecodeError> {
    if b.len() < 4 {
        Err(DecodeError::Malformed)
    } else {
        match status_of(spec_u32_from_le_bytes(b.subrange(0, 4))) {
            None => Err(DecodeError::UnknownStatus),
            Some(status) => match parse_bytes(b, 4) {
                None => Err(DecodeError::Malformed),
                Some((data, end)) => if end == b.len() {
                    Ok((status, data))
                } else {
                    Err(DecodeError::Malformed)
                },
            },
        }
    }
}

/// The mathematical value of a decoded stored witness.
pub open spec fn stored_result_view(res: Result<StoredWitness, DecodeError>) -> Result<
    (WitnessStatus, Seq<u8>),
    DecodeError,
> {
    match res {
        Ok(s) => Ok((s.status, s.data@)),
        Err(e) => Err(e),
    }
}

/// Decodes a stored witness: its status and its payload.
pub fn decode_stored(bytes: &[u8]) -> (res: Result<StoredWitness, DecodeError>)
    ensures
        stored_result_view(res) == parse_stored(bytes@),
{
    if bytes.len() < 4 {
        return Err(DecodeError::Malformed);
    }
    let code = u32_from_le_bytes(slice_subrange(bytes, 0, 4));
    let status = if code == 0 {
        WitnessStatus::Idle
    } else if code == 1 {
        WitnessStatus::Processing
    } else if code == 2 {
        WitnessStatus::Ready
    } else if code == 3 {
        WitnessStatus::Failed
    } else {
        return Err(DecodeError::UnknownStatus);
    };
    match read_bytes(bytes, 4) {
        None => Err(DecodeError::Malformed),
        Some((data, end)) => {
            if end != bytes.len() {
                return Err(DecodeError::Malformed);
            }
            Ok(StoredWitness { status, data })
        },
    }
}

/// Encodes a stored witness.
pub fn encode_stored(stored: &StoredWitness) -> (bytes: Vec<u8>)
    ensures
        bytes@ == ser_stored(stored.status, stored.data@),
{
    let code: u32 = match stored.status {
        WitnessStatus::Idle => 0,
        WitnessStatus::Processing => 1,
        WitnessStatus::Ready => 2,
        WitnessStatus::Failed => 3,
    };
    let mut out = u32_to_le_bytes(code);
    write_bytes(&mut out, stored.data.as_slice());
    out
}


/// What the store holds for a block: nothing yet, or the bytes of a stored
/// witness.
pub open spec fn status_and_data_spec(stored: Option<Seq<u8>>) -> Result<
    (WitnessStatus, Option<Seq<u8>>),
    DecodeError,
> {
    match stored {
        None => Ok((WitnessStatus::Idle, None)),
        Some(b) => match parse_stored(b) {
            Err(e) => Err(e),
            Ok((status, data)) => if status is Ready {
                Ok((status, Some(data)))
            } else {
                Ok((status, None))
            },
        },
    }
}

/// The mathematical value of a status and its payload.
pub open spec fn status_and_data_view(
    res: Result<(WitnessStatus, Option<Vec<u8>>), DecodeError>,
) -> Result<(WitnessStatus, Option<Seq<u8>>), DecodeError> {
    match res {
        Ok((status, data)) => Ok((status, value_view(data))),
        Err(e) => Err(e),
    }
}

/// The mathematical value of what was read from the store.
pub open spec fn stored_bytes_view(stored: Option<&[u8]>) -> Option<Seq<u8>> {
    match stored {
        Some(b) => Some(b@),
        None => None,
    }
}

/// The status of a block's witness and, once it is ready, its payload, from
/// what the store holds for the block. Where the store holds nothing yet the
/// witness is idle; a witness that failed is reported by its status, not as an
/// error; only bytes that are not a stored witness are an error.
pub fn status_and_data(stored: Option<&[u8]>) -> (res: Result<
    (WitnessStatus, Option<Vec<u8>>),
    DecodeError,
>)
    ensures
        status_and_data_view(res) == status_and_data_spec(stored_bytes_view(stored)),
{
    match stored {
        None => Ok((WitnessStatus::Idle, None)),
        Some(bytes) => match decode_stored(bytes) {
            Err(e) => Err(e),
            Ok(s) => match s.status {
                WitnessStatus::Ready => Ok((s.status, Some(s.data))),
                _ => Ok((s.status, None)),
            },
        },
    }
}

} // verus!
