//! The trie engine: applies a set of updates to the trie that the proof nodes
//! of a witness describe, and computes the new root.

use vstd::prelude::*;
use crate::bytes::{append_bytes, bytes_eq, copy_bytes, copy_range};
use crate::hash::{empty_root_hash, hash_bytes};
use crate::node::{decode_node, encode, slots_view, Node, NodeView};
use crate::trie::{
    absorb, all_fit, apply_updates, at_nibble, children_of, compress, count_occupied,
    emitted_slots, empty_slots, expand, find_node, fits, keys_well_sized, last_occupied, lookup,
    lookup_ref, nibble_at, resolve, root_ref, seal, sealed_slot, sealed_slots, slot_ref,
    store_view, terminal, terminal_value, update_ref, update_slots, updates_view, value_view,
    NodeRef, Outcome, ProofNode, ProofNodeView, RefView, Slots, TrieError, TrieErrorView,
    TrieUpdate, TrieUpdateView,
};

verus! {

/// The mathematical value of a resolved node, or of the error.
pub open spec fn node_result_view(r: Result<Node, TrieError>) -> Result<NodeView, TrieErrorView> {
    match r {
        Ok(n) => Ok(n@),
        Err(e) => Err(e@),
    }
}

/// The mathematical value of 16 slots, or of the error.
pub open spec fn refs_result_view(r: Result<Vec<NodeRef>, TrieError>) -> Result<
    Seq<RefView>,
    TrieErrorView,
> {
    match r {
        Ok(refs) => Ok(crate::trie::refs_view(refs@)),
        Err(e) => Err(e@),
    }
}

/// The mathematical value of a reference that may be missing.
pub open spec fn ref_option_view(r: Option<NodeRef>) -> Option<RefView> {
    match r {
        Some(r) => Some(r@),
        None => None,
    }
}

/// The mathematical value of what an update returns.
pub open spec fn outcome_result_view(
    res: Result<(Option<NodeRef>, Vec<ProofNode>), TrieError>,
) -> Result<Outcome, TrieErrorView> {
    match res {
        Ok((node, emitted)) => Ok(
            Outcome { node: ref_option_view(node), emitted: store_view(emitted@) },
        ),
        Err(e) => Err(e@),
    }
}

/// The mathematical value of what compressing returns.
pub open spec fn merged_result_view(res: Result<(NodeRef, Vec<ProofNode>), TrieError>) -> Result<
    (RefView, Seq<ProofNodeView>),
    TrieErrorView,
> {
    match res {
        Ok((node, emitted)) => Ok((node@, store_view(emitted@))),
        Err(e) => Err(e@),
    }
}

/// The mathematical value of what a lookup returns.
pub open spec fn value_result_view(res: Result<Option<Vec<u8>>, TrieError>) -> Result<
    Option<Seq<u8>>,
    TrieErrorView,
> {
    match res {
        Ok(v) => Ok(value_view(v)),
        Err(e) => Err(e@),
    }
}

/// Index of the first proof node that is keyed by `hash`.
fn find(store: &Vec<ProofNode>, hash: &[u8]) -> (found: Option<usize>)
    ensures
        match found {
            Some(i) => i < store@.len() && find_node(store_view(store@), hash@) == Some(
                store@[i as int].bytes@,
            ),
            None => find_node(store_view(store@), hash@) is None,
        },
{
    let ghost sv = store_view(store@);
    assert(sv.skip(0) =~= sv);
    let mut i: usize = 0;
    while i < store.len()
        invariant
            i <= store@.len(),
            sv == store_view(store@),
            find_node(sv, hash@) == find_node(sv.skip(i as int), hash@),
        decreases store@.len() - i,
    {
        assert(sv.skip(i as int)[0] == store@[i as int]@);
        assert(sv.skip(i as int).skip(1) =~= sv.skip(i + 1));
        if bytes_eq(store[i].hash.as_slice(), hash) {
            return Some(i);
        }
        i += 1;
    }
    assert(sv.skip(i as int).len() == 0);
    None
}

/// Looks up, checks and decodes the node that `hash` refers to.
pub fn resolve_node(store: &Vec<ProofNode>, hash: &[u8]) -> (res: Result<Node, TrieError>)
    ensures
        node_result_view(res) == resolve(store_view(store@), hash@),
{
    match find(store, hash) {
        None => Err(TrieError::MissingNode { hash: copy_bytes(hash) }),
        Some(i) => {
            let digest = hash_bytes(store[i].bytes.as_slice());
            if !bytes_eq(digest.as_slice(), hash) {
                return Err(TrieError::HashMismatch { hash: copy_bytes(hash) });
            }
            match decode_node(store[i].bytes.as_slice()) {
                None => Err(TrieError::MalformedNode { hash: copy_bytes(hash) }),
                Some(n) => Ok(n),
            }
        },
    }
}

fn empty_children() -> (out: Vec<NodeRef>)
    ensures
        crate::trie::refs_view(out@) == empty_slots(),
        out@.len() == 16,
{
    let mut out: Vec<NodeRef> = Vec::new();
    let mut i: usize = 0;
    while i < 16
        invariant
            i <= 16,
            out@.len() == i,
            forall|j: int| 0 <= j < i ==> out@[j]@ == RefView::Empty,
        decreases 16 - i,
    {
        out.push(NodeRef::Empty);
        i += 1;
    }
    assert(crate::trie::refs_view(out@) =~= empty_slots());
    out
}

/// The 16 slots below `node`, which stands at `depth`.
fn expand_node(node: &Node, depth: usize) -> (res: Result<Vec<NodeRef>, TrieError>)
    requires
        depth < 64,
    ensures
        refs_result_view(res) == expand(node@, depth as nat),
        res matches Ok(refs) ==> refs@.len() == 16 && all_fit(
            crate::trie::refs_view(refs@),
            (depth + 1) as nat,
        ),
{
    match node {
        Node::Leaf { path, value } => {
            if path.len() == 0 || path.len() != 64 - depth || path[0] >= 16 {
                return Err(TrieError::Misplaced { depth });
            }
            let mut out = empty_children();
            let rest = copy_range(path.as_slice(), 1, path.len());
            assert(rest@ =~= path@.skip(1));
            let child = NodeRef::Inline(
                Node::Leaf { path: rest, value: copy_bytes(value.as_slice()) },
            );
            out.set(path[0] as usize, child);
            assert(crate::trie::refs_view(out@) =~= empty_slots().update(path@[0] as int, child@));
            Ok(out)
        },
        Node::Extension { path, child } => {
            if path.len() == 0 || path.len() > 63 - depth || path[0] >= 16 {
                return Err(TrieError::Misplaced { depth });
            }
            let mut out = empty_children();
            let below = if path.len() == 1 {
                NodeRef::Hashed(copy_bytes(child.as_slice()))
            } else {
                let rest = copy_range(path.as_slice(), 1, path.len());
                assert(rest@ =~= path@.skip(1));
                NodeRef::Inline(Node::Extension { path: rest, child: copy_bytes(child.as_slice()) })
            };
            out.set(path[0] as usize, below);
            assert(crate::trie::refs_view(out@) =~= empty_slots().update(path@[0] as int, below@));
            Ok(out)
        },
        Node::Branch { children } => {
            if children.len() != 16 {
                return Err(TrieError::Misplaced { depth });
            }
            let mut out: Vec<NodeRef> = Vec::new();
            let mut i: usize = 0;
            while i < 16
                invariant
                    i <= 16,
                    children@.len() == 16,
                    out@.len() == i,
                    forall|j: int|
                        0 <= j < i ==> (#[trigger] out@[j])@ == slot_ref(
                            slots_view(children@)[j],
                        ),
                decreases 16 - i,
            {
                match &children[i] {
                    Some(h) => out.push(NodeRef::Hashed(copy_bytes(h.as_slice()))),
                    None => out.push(NodeRef::Empty),
                }
                i += 1;
            }
            assert(crate::trie::refs_view(out@) =~= Seq::new(
                16,
                |i: int| slot_ref(slots_view(children@)[i]),
            ));
            Ok(out)
        },
    }
}

/// The 16 slots below whatever `r` refers to at `depth`.
fn children_of_ref(store: &Vec<ProofNode>, r: &NodeRef, depth: usize) -> (res: Result<
    Vec<NodeRef>,
    TrieError,
>)
    requires
        depth < 64,
    ensures
        refs_result_view(res) == children_of(store_view(store@), r@, depth as nat),
        res matches Ok(refs) ==> refs@.len() == 16 && all_fit(
            crate::trie::refs_view(refs@),
            (depth + 1) as nat,
        ),
{
    match r {
        NodeRef::Empty => Ok(empty_children()),
        NodeRef::Hashed(h) => match resolve_node(store, h.as_slice()) {
            Err(e) => Err(e),
            Ok(n) => expand_node(&n, depth),
        },
        NodeRef::Inline(n) => expand_node(n, depth),
    }
}

/// Takes the reference in slot `i` out of `children`.
fn take_slot(children: Vec<NodeRef>, i: usize) -> (r: NodeRef)
    requires
        i < children@.len(),
    ensures
        r == children@[i as int],
{
    let mut rest = children;
    while rest.len() > i + 1
        invariant
            i < rest@.len() <= children@.len(),
            forall|j: int| 0 <= j < rest@.len() ==> rest@[j] == children@[j],
        decreases rest@.len(),
    {
        rest.pop();
    }
    rest.pop().unwrap()
}

/// The reference that a root hash stands for.
fn root_node_ref(root: &[u8]) -> (r: NodeRef)
    ensures
        r@ == root_ref(root@),
        fits(r@, 0),
{
    let zero = empty_root_hash();
    if bytes_eq(root, zero.as_slice()) {
        NodeRef::Empty
    } else {
        NodeRef::Hashed(copy_bytes(root))
    }
}

/// Looks `key` up in the trie with root `root`, along the proof nodes.
pub fn lookup_key(store: &Vec<ProofNode>, root: &[u8], key: &[u8]) -> (res: Result<
    Option<Vec<u8>>,
    TrieError,
>)
    ensures
        value_result_view(res) == lookup(store_view(store@), root@, key@),
{
    if key.len() != 32 {
        return Err(TrieError::KeyLength);
    }
    let ghost sv = store_view(store@);
    let mut cur = root_node_ref(root);
    let mut depth: usize = 0;
    while depth < 64
        invariant
            depth <= 64,
            key@.len() == 32,
            sv == store_view(store@),
            lookup(sv, root@, key@) == lookup_ref(sv, cur@, depth as nat, key@),
        decreases 64 - depth,
    {
        match children_of_ref(store, &cur, depth) {
            Err(e) => {
                return Err(e);
            },
            Ok(children) => {
                let nib = nibble_of(key, depth);
                cur = take_slot(children, nib as usize);
                depth += 1;
            },
        }
    }
    value_at_end(store, &cur)
}

fn value_eq(a: &Option<Vec<u8>>, b: &Option<Vec<u8>>) -> (same: bool)
    ensures
        same == (value_view(*a) == value_view(*b)),
{
    match (a, b) {
        (None, None) => true,
        (Some(x), Some(y)) => bytes_eq(x.as_slice(), y.as_slice()),
        _ => false,
    }
}

/// The value at the end of a key's path, where `r` stands.
fn value_at_end(store: &Vec<ProofNode>, r: &NodeRef) -> (res: Result<Option<Vec<u8>>, TrieError>)
    ensures
        value_result_view(res) == terminal_value(store_view(store@), r@),
{
    match r {
        NodeRef::Empty => Ok(None),
        NodeRef::Inline(n) => match n {
            Node::Leaf { path, value } => {
                if path.len() == 0 {
                    Ok(Some(copy_bytes(value.as_slice())))
                } else {
                    Err(TrieError::Misplaced { depth: 64 })
                }
            },
            _ => Err(TrieError::Misplaced { depth: 64 }),
        },
        NodeRef::Hashed(h) => match resolve_node(store, h.as_slice()) {
            Err(e) => Err(e),
            Ok(n) => match n {
                Node::Leaf { path, value } => {
                    if path.len() == 0 {
                        Ok(Some(value))
                    } else {
                        Err(TrieError::Misplaced { depth: 64 })
                    }
                },
                _ => Err(TrieError::Misplaced { depth: 64 }),
            },
        },
    }
}

/// Applies one update at the end of its key's path.
fn terminal_update(store: &Vec<ProofNode>, r: &NodeRef, u: &TrieUpdate) -> (res: Result<
    (Option<NodeRef>, Vec<ProofNode>),
    TrieError,
>)
    ensures
        outcome_result_view(res) == terminal(store_view(store@), r@, u@),
        res matches Ok((Some(x), _)) ==> fits(x@, 64),
{
    match value_at_end(store, r) {
        Err(e) => Err(e),
        Ok(current) => {
            let emitted: Vec<ProofNode> = Vec::new();
            assert(store_view(emitted@) =~= Seq::empty());
            if value_eq(&u.value, &current) {
                Ok((None, emitted))
            } else {
                match &u.value {
                    None => Ok((Some(NodeRef::Empty), emitted)),
                    Some(v) => {
                        let path: Vec<u8> = Vec::new();
                        assert(path@ =~= Seq::empty());
                        Ok(
                            (
                                Some(
                                    NodeRef::Inline(
                                        Node::Leaf { path, value: copy_bytes(v.as_slice()) },
                                    ),
                                ),
                                emitted,
                            ),
                        )
                    },
                }
            }
        },
    }
}

/// Counts the occupied slots and finds the last of them.
fn survey(children: &Vec<NodeRef>) -> (found: (usize, usize))
    ensures
        found.0 == count_occupied(crate::trie::refs_view(children@)),
        found.1 == last_occupied(crate::trie::refs_view(children@)),
        found.0 > 0 ==> found.1 < children@.len() && !(children@[found.1 as int]@ is Empty),
{
    let ghost rv = crate::trie::refs_view(children@);
    let mut count: usize = 0;
    let mut last: usize = 0;
    let mut i: usize = 0;
    while i < children.len()
        invariant
            i <= children@.len(),
            rv == crate::trie::refs_view(children@),
            count <= i,
            count == count_occupied(rv.take(i as int)),
            last == last_occupied(rv.take(i as int)),
            count > 0 ==> last < i && !(children@[last as int]@ is Empty),
        decreases children@.len() - i,
    {
        assert(rv.take(i + 1).drop_last() =~= rv.take(i as int));
        assert(rv.take(i + 1).last() == children@[i as int]@);
        match &children[i] {
            NodeRef::Empty => {},
            _ => {
                count += 1;
                last = i;
            },
        }
        i += 1;
    }
    assert(rv.take(i as int) =~= rv);
    (count, last)
}

/// Pulls the single child `n` of a branch at `depth` up into the branch's
/// place, with the nibble of its slot put before its path.
fn absorb_node(n: &Node, hash: Option<Vec<u8>>, nib: u8, depth: usize) -> (res: Result<
    (NodeRef, Vec<ProofNode>),
    TrieError,
>)
    requires
        depth < 64,
        hash is None ==> fits(RefView::Inline(n@), (depth + 1) as nat),
    ensures
        merged_result_view(res) == absorb(n@, value_view(hash), nib, depth as nat),
        res matches Ok((r, _)) ==> fits(r@, depth as nat),
{
    let mut emitted: Vec<ProofNode> = Vec::new();
    assert(store_view(emitted@) =~= Seq::empty());
    match n {
        Node::Leaf { path, value } => {
            if path.len() != 63 - depth {
                return Err(TrieError::Misplaced { depth: depth + 1 });
            }
            let mut longer: Vec<u8> = Vec::new();
            longer.push(nib);
            append_bytes(&mut longer, path.as_slice());
            assert(longer@ =~= seq![nib] + path@);
            Ok(
                (
                    NodeRef::Inline(
                        Node::Leaf { path: longer, value: copy_bytes(value.as_slice()) },
                    ),
                    emitted,
                ),
            )
        },
        Node::Extension { path, child } => {
            if depth >= 63 || path.len() == 0 || path.len() > 62 - depth {
                return Err(TrieError::Misplaced { depth: depth + 1 });
            }
            let mut longer: Vec<u8> = Vec::new();
            longer.push(nib);
            append_bytes(&mut longer, path.as_slice());
            assert(longer@ =~= seq![nib] + path@);
            Ok(
                (
                    NodeRef::Inline(
                        Node::Extension { path: longer, child: copy_bytes(child.as_slice()) },
                    ),
                    emitted,
                ),
            )
        },
        Node::Branch { children } => {
            if depth >= 63 {
                return Err(TrieError::Misplaced { depth: depth + 1 });
            }
            let mut path: Vec<u8> = Vec::new();
            path.push(nib);
            assert(path@ =~= seq![nib]);
            match hash {
                Some(h) => Ok((NodeRef::Inline(Node::Extension { path, child: h }), emitted)),
                None => {
                    let bytes = encode(n);
                    let digest = hash_bytes(bytes.as_slice());
                    let child = copy_bytes(digest.as_slice());
                    emitted.push(ProofNode { hash: digest, bytes });
                    assert(store_view(emitted@) =~= seq![seal(n@)]);
                    Ok((NodeRef::Inline(Node::Extension { path, child }), emitted))
                },
            }
        },
    }
}

/// Builds the branch that holds `children`, sealing the nodes held by value.
fn seal_branch(children: &Vec<NodeRef>, depth: usize) -> (res: (NodeRef, Vec<ProofNode>))
    requires
        depth < 64,
        children@.len() == 16,
        all_fit(crate::trie::refs_view(children@), (depth + 1) as nat),
    ensures
        res.0@ == RefView::Inline(
            NodeView::Branch { children: sealed_slots(crate::trie::refs_view(children@)) },
        ),
        store_view(res.1@) == emitted_slots(crate::trie::refs_view(children@)),
        fits(res.0@, depth as nat),
{
    let ghost rv = crate::trie::refs_view(children@);
    let mut slots: Vec<Option<Vec<u8>>> = Vec::new();
    let mut emitted: Vec<ProofNode> = Vec::new();
    assert(store_view(emitted@) =~= Seq::empty());
    assert(slots_view(slots@) =~= sealed_slots(rv.take(0)));
    let mut i: usize = 0;
    while i < 16
        invariant
            i <= 16,
            depth < 64,
            children@.len() == 16,
            rv == crate::trie::refs_view(children@),
            all_fit(rv, (depth + 1) as nat),
            slots@.len() == i,
            slots_view(slots@) == sealed_slots(rv.take(i as int)),
            store_view(emitted@) == emitted_slots(rv.take(i as int)),
        decreases 16 - i,
    {
        assert(rv.take(i + 1).drop_last() =~= rv.take(i as int));
        assert(rv.take(i + 1).last() == rv[i as int]);
        assert(fits(rv[i as int], (depth + 1) as nat));
        let ghost before = store_view(emitted@);
        let ghost before_slots = slots_view(slots@);
        match &children[i] {
            NodeRef::Empty => {
                slots.push(None);
            },
            NodeRef::Hashed(h) => {
                slots.push(Some(copy_bytes(h.as_slice())));
            },
            NodeRef::Inline(n) => {
                let bytes = encode(n);
                let digest = hash_bytes(bytes.as_slice());
                slots.push(Some(copy_bytes(digest.as_slice())));
                emitted.push(ProofNode { hash: digest, bytes });
                assert(store_view(emitted@) =~= before + seq![seal(n@)]);
            },
        }
        assert(store_view(emitted@) =~= emitted_slots(rv.take(i + 1)));
        assert(slots_view(slots@) =~= before_slots.push(sealed_slot(rv[i as int])));
        assert(slots_view(slots@) =~= sealed_slots(rv.take(i + 1)));
        i += 1;
    }
    assert(rv.take(16) =~= rv);
    (NodeRef::Inline(Node::Branch { children: slots }), emitted)
}

/// The node that the 16 slots `children` of a node at `depth` make.
fn compress_slots(store: &Vec<ProofNode>, children: &Vec<NodeRef>, depth: usize) -> (res: Result<
    (NodeRef, Vec<ProofNode>),
    TrieError,
>)
    requires
        depth < 64,
        children@.len() == 16,
        all_fit(crate::trie::refs_view(children@), (depth + 1) as nat),
    ensures
        merged_result_view(res) == compress(
            store_view(store@),
            crate::trie::refs_view(children@),
            depth as nat,
        ),
        res matches Ok((r, _)) ==> fits(r@, depth as nat),
{
    let (count, last) = survey(children);
    if count == 0 {
        let emitted: Vec<ProofNode> = Vec::new();
        assert(store_view(emitted@) =~= Seq::empty());
        Ok((NodeRef::Empty, emitted))
    } else if count == 1 {
        assert(fits(crate::trie::refs_view(children@)[last as int], (depth + 1) as nat));
        match &children[last] {
            NodeRef::Empty => {
                let emitted: Vec<ProofNode> = Vec::new();
                assert(store_view(emitted@) =~= Seq::empty());
                Ok((NodeRef::Empty, emitted))
            },
            NodeRef::Inline(n) => absorb_node(n, None, last as u8, depth),
            NodeRef::Hashed(h) => match resolve_node(store, h.as_slice()) {
                Err(e) => Err(e),
                Ok(n) => absorb_node(&n, Some(copy_bytes(h.as_slice())), last as u8, depth),
            },
        }
    } else {
        let (node, emitted) = seal_branch(children, depth);
        Ok((node, emitted))
    }
}

/// The nibble of `key` at position `depth`.
pub fn nibble_of(key: &[u8], depth: usize) -> (nib: u8)
    requires
        depth / 2 < key@.len(),
    ensures
        nib == nibble_at(key@, depth as int),
        nib < 16,
{
    let b = key[depth / 2];
    if depth % 2 == 0 {
        b / 16
    } else {
        b % 16
    }
}

/// The updates that the indices `sel` pick, in that order.
pub open spec fn picked(ups: Seq<TrieUpdate>, sel: Seq<usize>) -> Seq<TrieUpdateView> {
    Seq::new(sel.len(), |j: int| ups[sel[j] as int]@)
}

/// Every index picks one of `n` updates.
pub open spec fn in_range(sel: Seq<usize>, n: nat) -> bool {
    forall|j: int| 0 <= j < sel.len() ==> (#[trigger] sel[j]) < n
}

/// Of the updates picked by `sel`, those whose key has nibble `nib` at `depth`.
fn select(ups: &Vec<TrieUpdate>, sel: &Vec<usize>, depth: usize, nib: u8) -> (out: Vec<usize>)
    requires
        depth < 64,
        in_range(sel@, ups@.len()),
        keys_well_sized(updates_view(ups@)),
    ensures
        in_range(out@, ups@.len()),
        picked(ups@, out@) == picked(ups@, sel@).filter(at_nibble(depth as int, nib)),
{
    let ghost pred = at_nibble(depth as int, nib);
    let mut out: Vec<usize> = Vec::new();
    let mut j: usize = 0;
    proof {
        reveal(Seq::filter);
        assert(picked(ups@, sel@.take(0)) =~= Seq::empty());
        assert(picked(ups@, out@) =~= Seq::empty());
    }
    while j < sel.len()
        invariant
            j <= sel@.len(),
            depth < 64,
            pred == at_nibble(depth as int, nib),
            in_range(sel@, ups@.len()),
            in_range(out@, ups@.len()),
            keys_well_sized(updates_view(ups@)),
            picked(ups@, out@) == picked(ups@, sel@.take(j as int)).filter(pred),
        decreases sel@.len() - j,
    {
        let k: usize = sel[j];
        assert(updates_view(ups@)[k as int].key.len() == 32);
        let ghost s = picked(ups@, sel@.take(j + 1));
        let ghost before = picked(ups@, out@);
        proof {
            reveal(Seq::filter);
            assert(s.drop_last() =~= picked(ups@, sel@.take(j as int)));
            assert(s.last() == ups@[k as int]@);
        }
        if nibble_of(ups[k].key.as_slice(), depth) == nib {
            out.push(k);
            assert(picked(ups@, out@) =~= before.push(ups@[k as int]@));
        }
        j += 1;
    }
    assert(sel@.take(j as int) =~= sel@);
    out
}

/// Once the slots below a node fail to update, so does every longer run of
/// them.
proof fn lemma_update_slots_fails(
    store: Seq<ProofNodeView>,
    children: Seq<RefView>,
    depth: nat,
    ups: Seq<TrieUpdateView>,
    k: nat,
    n: nat,
)
    requires
        k <= n,
        depth < 64,
        update_slots(store, children, depth, ups, k) is Err,
    ensures
        update_slots(store, children, depth, ups, n) == update_slots(
            store,
            children,
            depth,
            ups,
            k,
        ),
    decreases n,
{
    if k < n {
        lemma_update_slots_fails(store, children, depth, ups, k, (n - 1) as nat);
    }
}

/// Applies the updates that `sel` picks from `ups` to the subtree that `r`
/// refers to at `depth`. Returns what takes the place of `r`, or `None` when
/// nothing changed, and the nodes that were given a hash on the way.
fn update_node(
    store: &Vec<ProofNode>,
    r: &NodeRef,
    depth: usize,
    ups: &Vec<TrieUpdate>,
    sel: &Vec<usize>,
) -> (res: Result<(Option<NodeRef>, Vec<ProofNode>), TrieError>)
    requires
        depth <= 64,
        fits(r@, depth as nat),
        in_range(sel@, ups@.len()),
        keys_well_sized(updates_view(ups@)),
    ensures
        outcome_result_view(res) == update_ref(
            store_view(store@),
            r@,
            depth as nat,
            picked(ups@, sel@),
        ),
        res matches Ok((Some(x), _)) ==> fits(x@, depth as nat),
    decreases 64 - depth,
{
    let ghost sv = store_view(store@);
    let ghost pending = picked(ups@, sel@);
    if sel.len() == 0 {
        let emitted: Vec<ProofNode> = Vec::new();
        assert(store_view(emitted@) =~= Seq::empty());
        return Ok((None, emitted));
    }
    if depth >= 64 {
        let k: usize = sel[sel.len() - 1];
        assert(pending.last() == ups@[k as int]@);
        return terminal_update(store, r, &ups[k]);
    }
    let mut children = match children_of_ref(store, r, depth) {
        Err(e) => {
            return Err(e);
        },
        Ok(children) => children,
    };
    let ghost start = crate::trie::refs_view(children@);
    assert(children_of(sv, r@, depth as nat) == Ok::<Seq<RefView>, TrieErrorView>(start));
    let mut changed = false;
    let mut emitted: Vec<ProofNode> = Vec::new();
    assert(store_view(emitted@) =~= Seq::empty());
    let mut i: usize = 0;
    while i < 16
        invariant
            i <= 16,
            depth < 64,
            sv == store_view(store@),
            pending == picked(ups@, sel@),
            pending.len() > 0,
            children_of(sv, r@, depth as nat) == Ok::<Seq<RefView>, TrieErrorView>(start),
            in_range(sel@, ups@.len()),
            keys_well_sized(updates_view(ups@)),
            children@.len() == 16,
            start.len() == 16,
            all_fit(crate::trie::refs_view(children@), (depth + 1) as nat),
            forall|j: int| i <= j < 16 ==> crate::trie::refs_view(children@)[j] == start[j],
            update_slots(sv, start, depth as nat, pending, i as nat) == Ok::<Slots, TrieErrorView>(
                Slots {
                    children: crate::trie::refs_view(children@),
                    changed,
                    emitted: store_view(emitted@),
                },
            ),
        decreases 16 - i,
    {
        let sub = select(ups, sel, depth, i as u8);
        let ghost before_children = crate::trie::refs_view(children@);
        let ghost before_emitted = store_view(emitted@);
        assert(fits(before_children[i as int], (depth + 1) as nat));
        match update_node(store, &children[i], depth + 1, ups, &sub) {
            Err(e) => {
                proof {
                    assert(update_slots(sv, start, depth as nat, pending, (i + 1) as nat) == Err::<
                        Slots,
                        TrieErrorView,
                    >(e@));
                    lemma_update_slots_fails(sv, start, depth as nat, pending, (i + 1) as nat, 16);
                }
                return Err(e);
            },
            Ok((node, mut more)) => {
                let ghost more_view = store_view(more@);
                match node {
                    Some(r2) => {
                        children.set(i, r2);
                        changed = true;
                        assert(crate::trie::refs_view(children@) =~= before_children.update(
                            i as int,
                            r2@,
                        ));
                    },
                    None => {},
                }
                emitted.append(&mut more);
                assert(store_view(emitted@) =~= before_emitted + more_view);
            },
        }
        i += 1;
    }
    if !changed {
        let nothing: Vec<ProofNode> = Vec::new();
        assert(store_view(nothing@) =~= Seq::empty());
        return Ok((None, nothing));
    }
    match compress_slots(store, &children, depth) {
        Err(e) => Err(e),
        Ok((r2, mut more)) => {
            let ghost before_emitted = store_view(emitted@);
            let ghost more_view = store_view(more@);
            emitted.append(&mut more);
            assert(store_view(emitted@) =~= before_emitted + more_view);
            Ok((Some(r2), emitted))
        },
    }
}

/// Whether every update has a key of 32 bytes.
fn check_keys(ups: &Vec<TrieUpdate>) -> (ok: bool)
    ensures
        ok == keys_well_sized(updates_view(ups@)),
{
    let mut i: usize = 0;
    while i < ups.len()
        invariant
            i <= ups@.len(),
            forall|j: int| 0 <= j < i ==> (#[trigger] updates_view(ups@)[j]).key.len() == 32,
        decreases ups@.len() - i,
    {
        if ups[i].key.len() != 32 {
            assert(updates_view(ups@)[i as int].key.len() != 32);
            return false;
        }
        i += 1;
    }
    true
}

/// The mathematical value of what a trie update returns.
pub open spec fn update_result_view(res: Result<(Vec<u8>, Vec<ProofNode>), TrieError>) -> Result<
    (Seq<u8>, Seq<ProofNodeView>),
    TrieErrorView,
> {
    match res {
        Ok((root, changed)) => Ok((root@, store_view(changed@))),
        Err(e) => Err(e@),
    }
}

/// Applies `updates` to the trie with root `root` that the proof nodes `nodes`
/// describe. Returns the new root and the nodes that were created, children
/// before parents. The updates may come in any order; of two with the same key
/// the later one counts. Only the nodes on the paths of the updates are looked
/// up: each must be among the proof nodes, hash to the hash it is keyed by,
/// decode, and stand at a depth that suits its shape.
pub fn update_trie(nodes: &Vec<ProofNode>, root: &[u8], updates: &Vec<TrieUpdate>) -> (res: Result<
    (Vec<u8>, Vec<ProofNode>),
    TrieError,
>)
    ensures
        update_result_view(res) == apply_updates(store_view(nodes@), root@, updates_view(updates@)),
{
    if !check_keys(updates) {
        return Err(TrieError::KeyLength);
    }
    let mut sel: Vec<usize> = Vec::new();
    let mut i: usize = 0;
    while i < updates.len()
        invariant
            i <= updates@.len(),
            sel@.len() == i,
            forall|j: int| 0 <= j < i ==> sel@[j] == j,
        decreases updates@.len() - i,
    {
        sel.push(i);
        i += 1;
    }
    assert(picked(updates@, sel@) =~= updates_view(updates@));
    let start = root_node_ref(root);
    match update_node(nodes, &start, 0, updates, &sel) {
        Err(e) => Err(e),
        Ok((node, mut emitted)) => match node {
            None => {
                let nothing: Vec<ProofNode> = Vec::new();
                assert(store_view(nothing@) =~= Seq::empty());
                Ok((copy_bytes(root), nothing))
            },
            Some(NodeRef::Empty) => Ok((empty_root_hash(), emitted)),
            Some(NodeRef::Hashed(h)) => Ok((h, emitted)),
            Some(NodeRef::Inline(n)) => {
                let ghost before = store_view(emitted@);
                let bytes = encode(&n);
                let digest = hash_bytes(bytes.as_slice());
                let new_root = copy_bytes(digest.as_slice());
                emitted.push(ProofNode { hash: digest, bytes });
                assert(store_view(emitted@) =~= before.push(seal(n@)));
                Ok((new_root, emitted))
            },
        },
    }
}

/// The working set of one root recomputation: the proof nodes of a witness and
/// the root they belong to.
#[derive(Debug, Clone, PartialEq, Eq)]
pub struct TrieEngine {
    pub nodes: Vec<ProofNode>,
    pub root: Vec<u8>,
}

impl TrieEngine {
    /// A trie engine seeded with the proof nodes of a witness.
    pub fn new(nodes: Vec<ProofNode>, root: Vec<u8>) -> (engine: TrieEngine)
        ensures
            engine.nodes == nodes,
            engine.root == root,
    {
        TrieEngine { nodes, root }
    }

    /// Applies `updates` to the trie and returns the new root together with the
    /// nodes that were created, children before parents. The updates may come
    /// in any order; of two with the same key the later one counts. The engine
    /// itself is left as it was.
    pub fn update(&self, updates: &Vec<TrieUpdate>) -> (res: Result<
        (Vec<u8>, Vec<ProofNode>),
        TrieError,
    >)
        ensures
            update_result_view(res) == apply_updates(
                store_view(self.nodes@),
                self.root@,
                updates_view(updates@),
            ),
    {
        update_trie(&self.nodes, self.root.as_slice(), updates)
    }
}

} // verus!
