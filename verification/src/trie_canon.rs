//! The root is a hash of the content: two tries in compact form that hold the
//! same values under the same keys have the same root.

use vstd::prelude::*;
use crate::hash::{empty_root, keccak256};
use crate::node::{count_present, is_nibbles, NodeView};
use crate::node_laws::law_node_decode_then_encode;
use crate::trie::{
    children_of, expand, find_node, lookup, lookup_ref, nibble_at, resolve, root_ref, seal,
    slot_ref, ProofNodeView, RefView, TrieErrorView,
};
use crate::trie::{
    absorb, apply_updates, at_nibble, compress, count_occupied, last_occupied, sealed_slots,
    update_ref, update_slots, Outcome, TrieUpdateView,
};
use crate::trie_laws::lemma_filter_facts;
use crate::trie_sound::{
    after, all_sealed, all_sound, extends, hashes_hold, is_sealed, lemma_append_extends,
    lemma_children_sound, lemma_count_sealed, lemma_emitted_slots, lemma_last_occupied,
    lemma_lookup_empty, lemma_resolve_extends, lemma_sealed_concat, lemma_self_resolving,
    lemma_slots_parts, lemma_slots_shape, lemma_update_shape, no_collision, self_resolving, sound,
    values_fit,
};

verus! {

/// Whether `r` refers to a subtree at `depth` that holds at least one key, is
/// known down to its leaves, and is in compact form: a leaf holds the rest of
/// its key, an extension is followed by a branch, and a branch has at least two
/// occupied slots.
pub open spec fn compact(store: Seq<ProofNodeView>, r: RefView, depth: nat) -> bool
    decreases 64 - depth, 1nat,
{
    match r {
        RefView::Empty => false,
        RefView::Hashed(h) => match resolve(store, h) {
            Ok(n) => compact_node(store, n, depth),
            Err(_) => false,
        },
        RefView::Inline(n) => compact_node(store, n, depth),
    }
}

/// Whether `n` is the top of a subtree in compact form at `depth`.
pub open spec fn compact_node(store: Seq<ProofNodeView>, n: NodeView, depth: nat) -> bool
    decreases 64 - depth, 0nat,
{
    match n {
        NodeView::Leaf { path, value } => depth + path.len() == 64 && is_nibbles(path),
        NodeView::Extension { path, child } => {
            if path.len() == 0 || depth + path.len() > 63 {
                false
            } else {
                &&& is_nibbles(path)
                &&& child.len() == 32
                &&& resolve(store, child) matches Ok(below)
                &&& below is Branch
                &&& compact(store, RefView::Hashed(child), depth + path.len())
            }
        },
        NodeView::Branch { children } => {
            if depth > 63 {
                false
            } else {
                &&& children.len() == 16
                &&& count_present(children) >= 2
                &&& forall|i: int|
                    0 <= i < 16 ==> ((#[trigger] children[i]) matches Some(h) ==> h.len() == 32
                        && compact(store, RefView::Hashed(h), depth + 1))
            }
        },
    }
}

/// Whether `root` is the root of a trie in compact form: the root of the empty
/// trie, or the hash of the top of a compact subtree.
pub open spec fn compact_root(store: Seq<ProofNodeView>, root: Seq<u8>) -> bool {
    root == empty_root() || compact(store, RefView::Hashed(root), 0)
}

/// The hash that stands for a reference.
pub open spec fn digest(r: RefView) -> Seq<u8> {
    match r {
        RefView::Empty => empty_root(),
        RefView::Hashed(h) => h,
        RefView::Inline(n) => seal(n).hash,
    }
}

/// The node that a compact reference refers to.
pub open spec fn node_of(store: Seq<ProofNodeView>, r: RefView) -> NodeView {
    match r {
        RefView::Hashed(h) => resolve(store, h)->Ok_0,
        RefView::Inline(n) => n,
        RefView::Empty => NodeView::Leaf { path: Seq::empty(), value: Seq::empty() },
    }
}

/// A compact reference is known by the hash of the node it refers to.
proof fn lemma_digest_of_node(store: Seq<ProofNodeView>, r: RefView, depth: nat)
    requires
        compact(store, r, depth),
    ensures
        compact_node(store, node_of(store, r), depth),
        digest(r) == seal(node_of(store, r)).hash,
{
    match r {
        RefView::Hashed(h) => {
            let n = resolve(store, h)->Ok_0;
            let bytes = find_node(store, h)->0;
            law_node_decode_then_encode(bytes, n);
        },
        _ => {},
    }
}

/// The slots below a compact subtree: each is empty or compact, and they are as
/// many occupied as the kind of the node says.
proof fn lemma_compact_children(store: Seq<ProofNodeView>, r: RefView, depth: nat)
    requires
        compact(store, r, depth),
        depth < 64,
    ensures
        children_of(store, r, depth) is Ok,
        children_of(store, r, depth)->Ok_0.len() == 16,
        forall|i: int|
            0 <= i < 16 ==> (#[trigger] children_of(store, r, depth)->Ok_0[i]) is Empty || compact(
                store,
                children_of(store, r, depth)->Ok_0[i],
                depth + 1,
            ),
{
    lemma_digest_of_node(store, r, depth);
    let n = node_of(store, r);
    let ch = expand(n, depth)->Ok_0;
    assert(children_of(store, r, depth) == expand(n, depth));
    match n {
        NodeView::Leaf { path, value } => {
            assert(path[0] < 16);
            assert forall|i: int| 0 <= i < 16 implies (#[trigger] ch[i]) is Empty || compact(
                store,
                ch[i],
                depth + 1,
            ) by {
                if i == path[0] as int {
                    assert forall|j: int| 0 <= j < path.skip(1).len() implies #[trigger] path.skip(
                        1,
                    )[j] < 16 by {
                        assert(path.skip(1)[j] == path[j + 1]);
                    }
                }
            }
        },
        NodeView::Extension { path, child } => {
            assert(path[0] < 16);
            assert forall|i: int| 0 <= i < 16 implies (#[trigger] ch[i]) is Empty || compact(
                store,
                ch[i],
                depth + 1,
            ) by {
                if i == path[0] as int && path.len() > 1 {
                    assert forall|j: int| 0 <= j < path.skip(1).len() implies #[trigger] path.skip(
                        1,
                    )[j] < 16 by {
                        assert(path.skip(1)[j] == path[j + 1]);
                    }
                }
            }
        },
        NodeView::Branch { children } => {
            assert forall|i: int| 0 <= i < 16 implies (#[trigger] ch[i]) is Empty || compact(
                store,
                ch[i],
                depth + 1,
            ) by {
                assert(ch[i] == slot_ref(children[i]));
            }
        },
    }
}


/// The key `key` with the nibble at position `d` replaced by `x`.
pub open spec fn with_nibble(key: Seq<u8>, d: int, x: u8) -> Seq<u8> {
    if d % 2 == 0 {
        key.update(d / 2, (x * 16 + key[d / 2] % 16) as u8)
    } else {
        key.update(d / 2, ((key[d / 2] / 16) * 16 + x) as u8)
    }
}

proof fn lemma_with_nibble(key: Seq<u8>, d: int, x: u8)
    requires
        key.len() == 32,
        0 <= d < 64,
        x < 16,
    ensures
        with_nibble(key, d, x).len() == 32,
        nibble_at(with_nibble(key, d, x), d) == x,
        forall|e: int| 0 <= e < 64 && e != d ==> nibble_at(with_nibble(key, d, x), e) == nibble_at(
            key,
            e,
        ),
{
    let b = key[d / 2];
    let changed = with_nibble(key, d, x);
    assert(b / 16 < 16 && b % 16 < 16);
    if d % 2 == 0 {
        let c = (x * 16 + b % 16) as u8;
        assert(c / 16 == x && c % 16 == b % 16);
    } else {
        let c = ((b / 16) * 16 + x) as u8;
        assert(c / 16 == b / 16 && c % 16 == x);
    }
    assert forall|e: int| 0 <= e < 64 && e != d implies nibble_at(changed, e) == nibble_at(
        key,
        e,
    ) by {
        if e / 2 != d / 2 {
            assert(changed[e / 2] == key[e / 2]);
        }
    }
}

/// A lookup from `depth` on reads the key's nibbles from `depth` on only.
proof fn lemma_lookup_by_nibbles(
    store: Seq<ProofNodeView>,
    r: RefView,
    depth: nat,
    a: Seq<u8>,
    b: Seq<u8>,
)
    requires
        forall|d: int| depth <= d < 64 ==> nibble_at(a, d) == nibble_at(b, d),
    ensures
        lookup_ref(store, r, depth, a) == lookup_ref(store, r, depth, b),
    decreases 64 - depth,
{
    if depth < 64 {
        match children_of(store, r, depth) {
            Ok(children) => {
                assert(nibble_at(a, depth as int) == nibble_at(b, depth as int));
                lemma_lookup_by_nibbles(
                    store,
                    children[nibble_at(a, depth as int) as int],
                    depth + 1,
                    a,
                    b,
                );
            },
            Err(_) => {},
        }
    }
}

proof fn lemma_some_present(slots: Seq<Option<Seq<u8>>>) -> (i: int)
    requires
        count_present(slots) >= 1,
    ensures
        0 <= i < slots.len(),
        slots[i] is Some,
    decreases slots.len(),
{
    if slots.last() is Some {
        slots.len() - 1
    } else {
        lemma_some_present(slots.drop_last())
    }
}

proof fn lemma_two_present(slots: Seq<Option<Seq<u8>>>) -> (pair: (int, int))
    requires
        count_present(slots) >= 2,
    ensures
        0 <= pair.0 < pair.1 < slots.len(),
        slots[pair.0] is Some,
        slots[pair.1] is Some,
    decreases slots.len(),
{
    if slots.last() is Some {
        let i = lemma_some_present(slots.drop_last());
        (i, slots.len() - 1)
    } else {
        lemma_two_present(slots.drop_last())
    }
}

/// A compact subtree holds a key.
proof fn lemma_has_key(store: Seq<ProofNodeView>, r: RefView, depth: nat) -> (key: Seq<u8>)
    requires
        compact(store, r, depth),
        depth <= 64,
    ensures
        key.len() == 32,
        lookup_ref(store, r, depth, key) matches Ok(Some(_)),
    decreases 64 - depth, 1nat,
{
    if depth >= 64 {
        lemma_digest_of_node(store, r, depth);
        Seq::new(32, |i: int| 0u8)
    } else {
        lemma_compact_children(store, r, depth);
        lemma_digest_of_node(store, r, depth);
        let n = node_of(store, r);
        let ch = children_of(store, r, depth)->Ok_0;
        assert(children_of(store, r, depth) == expand(n, depth));
        let i: int = match n {
            NodeView::Leaf { path, value } => path[0] as int,
            NodeView::Extension { path, child } => path[0] as int,
            NodeView::Branch { children } => lemma_some_present(children),
        };
        assert(0 <= i < 16 && !(ch[i] is Empty)) by {
            match n {
                NodeView::Branch { children } => {
                    assert(ch[i] == slot_ref(children[i]));
                },
                _ => {},
            }
        }
        lemma_slot_key(store, r, depth, i)
    }
}

/// Below an occupied slot of a compact subtree lies a key.
proof fn lemma_slot_key(store: Seq<ProofNodeView>, r: RefView, depth: nat, i: int) -> (key: Seq<
    u8,
>)
    requires
        compact(store, r, depth),
        depth < 64,
        0 <= i < 16,
        children_of(store, r, depth) is Ok,
        !(children_of(store, r, depth)->Ok_0[i] is Empty),
    ensures
        key.len() == 32,
        nibble_at(key, depth as int) == i,
        lookup_ref(store, r, depth, key) matches Ok(Some(_)),
    decreases 64 - depth, 0nat,
{
    lemma_compact_children(store, r, depth);
    let ch = children_of(store, r, depth)->Ok_0;
    let below = lemma_has_key(store, ch[i], depth + 1);
    let key = with_nibble(below, depth as int, i as u8);
    lemma_with_nibble(below, depth as int, i as u8);
    lemma_lookup_by_nibbles(store, ch[i], depth + 1, key, below);
    key
}

/// Two tries hold the same values under the same keys, from `depth` on.
pub open spec fn same_content(
    store1: Seq<ProofNodeView>,
    r1: RefView,
    store2: Seq<ProofNodeView>,
    r2: RefView,
    depth: nat,
) -> bool {
    forall|key: Seq<u8>|
        key.len() == 32 ==> #[trigger] lookup_ref(store1, r1, depth, key) == lookup_ref(
            store2,
            r2,
            depth,
            key,
        )
}


/// Where two compact subtrees hold the same, the slots below them are occupied
/// alike and hold the same.
proof fn lemma_slots_agree(
    store1: Seq<ProofNodeView>,
    r1: RefView,
    store2: Seq<ProofNodeView>,
    r2: RefView,
    depth: nat,
    i: int,
)
    requires
        compact(store1, r1, depth),
        compact(store2, r2, depth),
        depth < 64,
        same_content(store1, r1, store2, r2, depth),
        0 <= i < 16,
    ensures
        children_of(store1, r1, depth) is Ok,
        children_of(store2, r2, depth) is Ok,
        (children_of(store1, r1, depth)->Ok_0[i] is Empty) == (children_of(
            store2,
            r2,
            depth,
        )->Ok_0[i] is Empty),
        same_content(
            store1,
            children_of(store1, r1, depth)->Ok_0[i],
            store2,
            children_of(store2, r2, depth)->Ok_0[i],
            depth + 1,
        ),
{
    lemma_compact_children(store1, r1, depth);
    lemma_compact_children(store2, r2, depth);
    let c1 = children_of(store1, r1, depth)->Ok_0[i];
    let c2 = children_of(store2, r2, depth)->Ok_0[i];
    if !(c1 is Empty) && c2 is Empty {
        let key = lemma_slot_key(store1, r1, depth, i);
        lemma_lookup_empty(store2, depth + 1, key);
        assert(lookup_ref(store1, r1, depth, key) == lookup_ref(store2, r2, depth, key));
    }
    if c1 is Empty && !(c2 is Empty) {
        let key = lemma_slot_key(store2, r2, depth, i);
        lemma_lookup_empty(store1, depth + 1, key);
        assert(lookup_ref(store1, r1, depth, key) == lookup_ref(store2, r2, depth, key));
    }
    assert forall|key: Seq<u8>| key.len() == 32 implies #[trigger] lookup_ref(
        store1,
        c1,
        depth + 1,
        key,
    ) == lookup_ref(store2, c2, depth + 1, key) by {
        let turned = with_nibble(key, depth as int, i as u8);
        lemma_with_nibble(key, depth as int, i as u8);
        lemma_lookup_by_nibbles(store1, c1, depth + 1, turned, key);
        lemma_lookup_by_nibbles(store2, c2, depth + 1, turned, key);
        assert(lookup_ref(store1, r1, depth, turned) == lookup_ref(store2, r2, depth, turned));
    }
}

/// The slot that a leaf or an extension occupies.
pub open spec fn first_nibble(n: NodeView) -> int {
    match n {
        NodeView::Leaf { path, value } => path[0] as int,
        NodeView::Extension { path, child } => path[0] as int,
        NodeView::Branch { children } => 0,
    }
}

/// Below a leaf or an extension only the slot of its first nibble is occupied.
proof fn lemma_single_slot(store: Seq<ProofNodeView>, r: RefView, depth: nat, j: int)
    requires
        compact(store, r, depth),
        depth < 64,
        !(node_of(store, r) is Branch),
        0 <= j < 16,
    ensures
        children_of(store, r, depth) is Ok,
        0 <= first_nibble(node_of(store, r)) < 16,
        (children_of(store, r, depth)->Ok_0[j] is Empty) == (j != first_nibble(node_of(store, r))),
{
    lemma_digest_of_node(store, r, depth);
    let n = node_of(store, r);
    assert(children_of(store, r, depth) == expand(n, depth));
    match n {
        NodeView::Leaf { path, value } => {
            assert(path[0] < 16);
        },
        NodeView::Extension { path, child } => {
            assert(path[0] < 16);
        },
        _ => {},
    }
}

/// Two compact subtrees that hold the same have the same node on top.
proof fn lemma_same_node(
    store1: Seq<ProofNodeView>,
    r1: RefView,
    store2: Seq<ProofNodeView>,
    r2: RefView,
    depth: nat,
)
    requires
        compact(store1, r1, depth),
        compact(store2, r2, depth),
        depth <= 64,
        same_content(store1, r1, store2, r2, depth),
    ensures
        node_of(store1, r1) == node_of(store2, r2),
    decreases 64 - depth,
{
    lemma_digest_of_node(store1, r1, depth);
    lemma_digest_of_node(store2, r2, depth);
    let n1 = node_of(store1, r1);
    let n2 = node_of(store2, r2);
    if depth >= 64 {
        let key = Seq::new(32, |i: int| 0u8);
        assert(lookup_ref(store1, r1, depth, key) == lookup_ref(store2, r2, depth, key));
        match (n1, n2) {
            (
                NodeView::Leaf { path: path1, value: value1 },
                NodeView::Leaf { path: path2, value: value2 },
            ) => {
                assert(path1 =~= path2);
            },
            _ => {},
        }
    } else {
        lemma_compact_children(store1, r1, depth);
        lemma_compact_children(store2, r2, depth);
        let ch1 = children_of(store1, r1, depth)->Ok_0;
        let ch2 = children_of(store2, r2, depth)->Ok_0;
        assert(children_of(store1, r1, depth) == expand(n1, depth));
        assert(children_of(store2, r2, depth) == expand(n2, depth));
        if n1 is Branch && n2 is Branch {
            let slots1 = n1->children;
            let slots2 = n2->children;
            assert forall|j: int| 0 <= j < 16 implies slots1[j] == slots2[j] by {
                lemma_slots_agree(store1, r1, store2, r2, depth, j);
                assert(ch1[j] == slot_ref(slots1[j]));
                assert(ch2[j] == slot_ref(slots2[j]));
                if slots1[j] is Some {
                    lemma_same_node(store1, ch1[j], store2, ch2[j], depth + 1);
                    lemma_digest_of_node(store1, ch1[j], depth + 1);
                    lemma_digest_of_node(store2, ch2[j], depth + 1);
                }
            }
            assert(slots1 =~= slots2);
        } else if n1 is Branch {
            let (a, b) = lemma_two_present(n1->children);
            lemma_single_slot(store2, r2, depth, a);
            lemma_single_slot(store2, r2, depth, b);
            let j = if a != first_nibble(n2) {
                a
            } else {
                b
            };
            assert(ch1[j] == slot_ref(n1->children[j]));
            lemma_slots_agree(store1, r1, store2, r2, depth, j);
        } else if n2 is Branch {
            let (a, b) = lemma_two_present(n2->children);
            lemma_single_slot(store1, r1, depth, a);
            lemma_single_slot(store1, r1, depth, b);
            let j = if a != first_nibble(n1) {
                a
            } else {
                b
            };
            assert(ch2[j] == slot_ref(n2->children[j]));
            lemma_slots_agree(store1, r1, store2, r2, depth, j);
        } else {
            let i = first_nibble(n1);
            lemma_single_slot(store1, r1, depth, i);
            lemma_single_slot(store2, r2, depth, i);
            lemma_slots_agree(store1, r1, store2, r2, depth, i);
            assert(first_nibble(n2) == i);
            lemma_same_node(store1, ch1[i], store2, ch2[i], depth + 1);
            lemma_digest_of_node(store1, ch1[i], depth + 1);
            lemma_digest_of_node(store2, ch2[i], depth + 1);
            match (n1, n2) {
                (
                    NodeView::Leaf { path: path1, value: value1 },
                    NodeView::Leaf { path: path2, value: value2 },
                ) => {
                    assert(path1 =~= seq![path1[0]] + path1.skip(1));
                    assert(path2 =~= seq![path2[0]] + path2.skip(1));
                },
                (
                    NodeView::Extension { path: path1, child: child1 },
                    NodeView::Extension { path: path2, child: child2 },
                ) => {
                    assert(path1 =~= seq![path1[0]] + path1.skip(1));
                    assert(path2 =~= seq![path2[0]] + path2.skip(1));
                    if path1.len() == 1 && path2.len() == 1 {
                        assert(path1.skip(1) =~= path2.skip(1));
                    }
                },
                _ => {},
            }
        }
    }
}

/// The root is a hash of the content: two tries in compact form, known down to
/// their leaves, that hold the same values under the same keys have the same
/// root, whatever the proof nodes are that describe them.
pub proof fn law_root_is_content_hash(
    store1: Seq<ProofNodeView>,
    root1: Seq<u8>,
    store2: Seq<ProofNodeView>,
    root2: Seq<u8>,
)
    requires
        compact_root(store1, root1),
        compact_root(store2, root2),
        forall|key: Seq<u8>|
            key.len() == 32 ==> #[trigger] lookup(store1, root1, key) == lookup(
                store2,
                root2,
                key,
            ),
    ensures
        root1 == root2,
{
    let r1 = root_ref(root1);
    let r2 = root_ref(root2);
    if root1 != empty_root() && root2 != empty_root() {
        assert forall|key: Seq<u8>| key.len() == 32 implies #[trigger] lookup_ref(
            store1,
            r1,
            0,
            key,
        ) == lookup_ref(store2, r2, 0, key) by {
            assert(lookup(store1, root1, key) == lookup(store2, root2, key));
        }
        lemma_same_node(store1, r1, store2, r2, 0);
        lemma_digest_of_node(store1, r1, 0);
        lemma_digest_of_node(store2, r2, 0);
    } else if root1 != empty_root() {
        let key = lemma_has_key(store1, r1, 0);
        lemma_lookup_empty(store2, 0, key);
        assert(lookup(store1, root1, key) == lookup(store2, root2, key));
    } else if root2 != empty_root() {
        let key = lemma_has_key(store2, r2, 0);
        lemma_lookup_empty(store1, 0, key);
        assert(lookup(store1, root1, key) == lookup(store2, root2, key));
    }
}


/// A compact subtree stays compact among more proof nodes.
proof fn lemma_compact_extends(
    store: Seq<ProofNodeView>,
    all: Seq<ProofNodeView>,
    r: RefView,
    depth: nat,
)
    requires
        extends(all, store),
        compact(store, r, depth),
    ensures
        compact(all, r, depth),
    decreases 64 - depth, 1nat,
{
    match r {
        RefView::Hashed(h) => {
            lemma_resolve_extends(store, all, h);
        },
        _ => {},
    }
    lemma_compact_node_extends(store, all, node_of(store, r), depth);
}

proof fn lemma_compact_node_extends(
    store: Seq<ProofNodeView>,
    all: Seq<ProofNodeView>,
    n: NodeView,
    depth: nat,
)
    requires
        extends(all, store),
        compact_node(store, n, depth),
    ensures
        compact_node(all, n, depth),
    decreases 64 - depth, 0nat,
{
    match n {
        NodeView::Leaf { path, value } => {},
        NodeView::Extension { path, child } => {
            lemma_resolve_extends(store, all, child);
            lemma_compact_extends(store, all, RefView::Hashed(child), depth + path.len());
        },
        NodeView::Branch { children } => {
            assert forall|i: int| 0 <= i < 16 implies ((#[trigger] children[i]) matches Some(h)
                ==> h.len() == 32 && compact(all, RefView::Hashed(h), depth + 1)) by {
                match children[i] {
                    Some(h) => {
                        lemma_compact_extends(store, all, RefView::Hashed(h), depth + 1);
                    },
                    None => {},
                }
            }
        },
    }
}

/// Whether every slot is empty or holds a compact subtree.
pub open spec fn slots_compact(store: Seq<ProofNodeView>, refs: Seq<RefView>, depth: nat) -> bool {
    forall|i: int|
        0 <= i < refs.len() ==> (#[trigger] refs[i]) is Empty || compact(store, refs[i], depth)
}

proof fn lemma_prepend_nibble(nib: u8, path: Seq<u8>)
    requires
        nib < 16,
        is_nibbles(path),
    ensures
        is_nibbles(seq![nib] + path),
{
    let longer = seq![nib] + path;
    assert forall|j: int| 0 <= j < longer.len() implies #[trigger] longer[j] < 16 by {
        if j > 0 {
            assert(longer[j] == path[j - 1]);
        }
    }
}

/// Pulling the only child of a branch up into its place gives a compact
/// subtree.
proof fn lemma_absorb_compact(
    all: Seq<ProofNodeView>,
    n: NodeView,
    hash: Option<Seq<u8>>,
    nib: u8,
    depth: nat,
    r2: RefView,
    emitted: Seq<ProofNodeView>,
)
    requires
        compact_node(all, n, depth + 1),
        nib < 16,
        depth < 64,
        match hash {
            Some(h) => resolve(all, h) == Ok::<NodeView, TrieErrorView>(n) && h.len() == 32,
            None => resolve(all, seal(n).hash) == Ok::<NodeView, TrieErrorView>(n),
        },
        absorb(n, hash, nib, depth) == Ok::<(RefView, Seq<ProofNodeView>), TrieErrorView>(
            (r2, emitted),
        ),
    ensures
        compact(all, r2, depth),
{
    match n {
        NodeView::Leaf { path, value } => {
            lemma_prepend_nibble(nib, path);
            let longer = seq![nib] + path;
            assert(longer.len() == path.len() + 1);
            assert(r2 == RefView::Inline(NodeView::Leaf { path: longer, value }));
            assert(compact_node(all, NodeView::Leaf { path: longer, value }, depth));
        },
        NodeView::Extension { path, child } => {
            lemma_prepend_nibble(nib, path);
            let longer = seq![nib] + path;
            assert(longer.len() == path.len() + 1);
            assert(r2 == RefView::Inline(NodeView::Extension { path: longer, child }));
            assert(depth + longer.len() == depth + 1 + path.len());
            assert(compact_node(all, NodeView::Extension { path: longer, child }, depth));
        },
        NodeView::Branch { children } => {
            lemma_prepend_nibble(nib, Seq::empty());
            assert(seq![nib] + Seq::<u8>::empty() =~= seq![nib]);
            let h = match hash {
                Some(h) => h,
                None => seal(n).hash,
            };
            assert(r2 == RefView::Inline(NodeView::Extension { path: seq![nib], child: h }));
            assert(keccak256(crate::node::encode_node(n)).len() == 32);
            assert(compact(all, RefView::Hashed(h), depth + 1));
            assert(compact_node(all, NodeView::Extension { path: seq![nib], child: h }, depth));
        },
    }
}

/// What 16 slots that are empty or compact are made into is empty or compact.
proof fn lemma_compress_compact(
    store: Seq<ProofNodeView>,
    all: Seq<ProofNodeView>,
    refs: Seq<RefView>,
    depth: nat,
    r2: RefView,
    emitted: Seq<ProofNodeView>,
)
    requires
        refs.len() == 16,
        all_sound(refs, depth + 1),
        slots_compact(all, refs, depth + 1),
        depth < 64,
        extends(all, store),
        self_resolving(all),
        compress(store, refs, depth) == Ok::<(RefView, Seq<ProofNodeView>), TrieErrorView>(
            (r2, emitted),
        ),
        forall|e: ProofNodeView| emitted.contains(e) ==> all.contains(e),
    ensures
        r2 is Empty || compact(all, r2, depth),
{
    if count_occupied(refs) == 0 {
    } else if count_occupied(refs) == 1 {
        lemma_last_occupied(refs);
        let i = last_occupied(refs);
        assert(sound(refs[i], depth + 1));
        assert(compact(all, refs[i], depth + 1));
        match refs[i] {
            RefView::Empty => {},
            RefView::Inline(n) => {
                match n {
                    NodeView::Branch { children } => {
                        assert(emitted[0] == seal(n));
                        assert(all.contains(seal(n)));
                    },
                    _ => {},
                }
                if !(n is Branch) {
                    lemma_absorb_compact_plain(all, n, i as u8, depth, r2, emitted);
                } else {
                    lemma_absorb_compact(all, n, None, i as u8, depth, r2, emitted);
                }
            },
            RefView::Hashed(h) => {
                let n = resolve(store, h)->Ok_0;
                lemma_resolve_extends(store, all, h);
                lemma_absorb_compact(all, n, Some(h), i as u8, depth, r2, emitted);
            },
        }
    } else {
        lemma_count_sealed(refs);
        lemma_emitted_slots(refs, depth + 1);
        let slots = sealed_slots(refs);
        assert forall|i: int| 0 <= i < 16 implies ((#[trigger] slots[i]) matches Some(h)
            ==> h.len() == 32 && compact(all, RefView::Hashed(h), depth + 1)) by {
            assert(sound(refs[i], depth + 1));
            assert(refs[i] is Empty || compact(all, refs[i], depth + 1));
            match refs[i] {
                RefView::Inline(n) => {
                    assert(emitted.contains(seal(n)));
                    assert(all.contains(seal(n)));
                },
                _ => {},
            }
        }
    }
}

/// A leaf or an extension that is pulled up needs no hash to stay compact.
proof fn lemma_absorb_compact_plain(
    all: Seq<ProofNodeView>,
    n: NodeView,
    nib: u8,
    depth: nat,
    r2: RefView,
    emitted: Seq<ProofNodeView>,
)
    requires
        compact_node(all, n, depth + 1),
        !(n is Branch),
        nib < 16,
        depth < 64,
        absorb(n, None, nib, depth) == Ok::<(RefView, Seq<ProofNodeView>), TrieErrorView>(
            (r2, emitted),
        ),
    ensures
        compact(all, r2, depth),
{
    match n {
        NodeView::Leaf { path, value } => {
            lemma_prepend_nibble(nib, path);
        },
        NodeView::Extension { path, child } => {
            lemma_prepend_nibble(nib, path);
        },
        _ => {},
    }
}

/// An update makes a compact subtree into a compact subtree, or into nothing.
proof fn lemma_update_compact(
    store: Seq<ProofNodeView>,
    all: Seq<ProofNodeView>,
    r: RefView,
    depth: nat,
    ups: Seq<TrieUpdateView>,
    o: Outcome,
)
    requires
        depth <= 64,
        extends(all, store),
        self_resolving(all),
        sound(r, depth),
        r is Empty || compact(store, r, depth),
        values_fit(ups),
        update_ref(store, r, depth, ups) == Ok::<Outcome, TrieErrorView>(o),
        forall|e: ProofNodeView| o.emitted.contains(e) ==> all.contains(e),
    ensures
        after(r, o) is Empty || compact(all, after(r, o), depth),
    decreases 64 - depth, 17nat,
{
    if !(r is Empty) {
        lemma_compact_extends(store, all, r, depth);
    }
    if ups.len() == 0 {
    } else if depth >= 64 {
    } else {
        let children = children_of(store, r, depth)->Ok_0;
        lemma_children_sound(store, r, depth, children);
        let s = update_slots(store, children, depth, ups, 16)->Ok_0;
        lemma_slots_shape(store, children, depth, ups, 16, s);
        if s.changed {
            let (r2, emitted) = compress(store, s.children, depth)->Ok_0;
            assert forall|e: ProofNodeView| emitted.contains(e) implies all.contains(e) by {
                let j = choose|j: int| 0 <= j < emitted.len() && emitted[j] == e;
                assert(o.emitted[s.emitted.len() + j] == e);
            }
            assert(slots_compact(all, s.children, depth + 1)) by {
                assert forall|i: int| 0 <= i < s.children.len() implies (
                #[trigger] s.children[i]) is Empty || compact(all, s.children[i], depth + 1) by {
                    lemma_slots_parts(store, children, depth, ups, 16, s, i);
                    let f = ups.filter(at_nibble(depth as int, i as u8));
                    lemma_filter_facts(ups, at_nibble(depth as int, i as u8));
                    let below = update_ref(store, children[i], depth + 1, f)->Ok_0;
                    assert(sound(children[i], depth + 1));
                    if !(r is Empty) {
                        lemma_compact_children(store, r, depth);
                    } else {
                        assert(children[i] == RefView::Empty);
                    }
                    assert forall|e: ProofNodeView| below.emitted.contains(e) implies all.contains(
                        e,
                    ) by {
                        assert(s.emitted.contains(e));
                        let j = choose|j: int| 0 <= j < s.emitted.len() && s.emitted[j] == e;
                        assert(o.emitted[j] == e);
                    }
                    lemma_update_compact(store, all, children[i], depth + 1, f, below);
                }
            }
            lemma_compress_compact(store, all, s.children, depth, r2, emitted);
        }
    }
}

/// An update keeps the compact form: where the old trie is in compact form and
/// known down to its leaves, the proof nodes hash to their keys, no two of the
/// encodings involved have the same hash and no created node hashes to the root
/// of the empty trie, the new trie, read through the old and the created nodes
/// together, is in compact form too. Its root is therefore the root of every
/// trie in compact form that holds the same.
pub proof fn law_update_keeps_compact(
    store: Seq<ProofNodeView>,
    root: Seq<u8>,
    ups: Seq<TrieUpdateView>,
    new_root: Seq<u8>,
    created: Seq<ProofNodeView>,
)
    requires
        apply_updates(store, root, ups) == Ok::<(Seq<u8>, Seq<ProofNodeView>), TrieErrorView>(
            (new_root, created),
        ),
        compact_root(store, root),
        values_fit(ups),
        hashes_hold(store),
        no_collision(store + created),
        forall|i: int| 0 <= i < created.len() ==> (#[trigger] created[i]).hash != empty_root(),
    ensures
        compact_root(store + created, new_root),
{
    let all = store + created;
    let r = root_ref(root);
    let o = update_ref(store, r, 0, ups)->Ok_0;
    lemma_append_extends(store, created);
    if ups.len() == 0 {
        assert(all =~= store);
    } else {
        assert(sound(r, 0)) by {
            match r {
                RefView::Hashed(h) => {
                    let bytes = find_node(store, h)->0;
                    assert(keccak256(bytes) == h);
                    assert(keccak256(bytes).len() == 32);
                },
                _ => {},
            }
        }
        lemma_update_shape(store, r, 0, ups, o);
        assert(all_sealed(created)) by {
            match o.node {
                Some(RefView::Inline(n)) => {
                    assert(is_sealed(seal(n)));
                    assert(all_sealed(seq![seal(n)]));
                    lemma_sealed_concat(o.emitted, seq![seal(n)]);
                    assert(o.emitted.push(seal(n)) =~= o.emitted + seq![seal(n)]);
                },
                _ => {},
            }
        }
        assert(hashes_hold(all)) by {
            assert forall|i: int| 0 <= i < all.len() implies keccak256(#[trigger] all[i].bytes)
                == all[i].hash by {
                if i < store.len() {
                    assert(all[i] == store[i]);
                } else {
                    assert(all[i] == created[i - store.len()]);
                    assert(is_sealed(created[i - store.len()]));
                }
            }
        }
        lemma_self_resolving(all);
        assert forall|e: ProofNodeView| o.emitted.contains(e) implies all.contains(e) by {
            let j = choose|j: int| 0 <= j < o.emitted.len() && o.emitted[j] == e;
            assert(created[j] == e);
            assert(all[store.len() + j] == e);
        }
        lemma_update_compact(store, all, r, 0, ups, o);
        match o.node {
            Some(RefView::Inline(n)) => {
                assert(created[created.len() - 1] == seal(n));
                assert(all[all.len() - 1] == seal(n));
                assert(all.contains(seal(n)));
            },
            _ => {},
        }
    }
}

/// A trie in compact form that is known down to its leaves answers for every
/// key: with its value, or with the proof that it holds none.
pub proof fn law_compact_answers_all(store: Seq<ProofNodeView>, root: Seq<u8>, key: Seq<u8>)
    requires
        compact_root(store, root),
        key.len() == 32,
    ensures
        lookup(store, root, key) is Ok,
{
    if root == empty_root() {
        lemma_lookup_empty(store, 0, key);
    } else {
        lemma_compact_lookup(store, RefView::Hashed(root), 0, key);
    }
}

proof fn lemma_compact_lookup(store: Seq<ProofNodeView>, r: RefView, depth: nat, key: Seq<u8>)
    requires
        r is Empty || compact(store, r, depth),
        depth <= 64,
        key.len() == 32,
    ensures
        lookup_ref(store, r, depth, key) is Ok,
    decreases 64 - depth,
{
    if r is Empty {
        lemma_lookup_empty(store, depth, key);
    } else if depth >= 64 {
        lemma_digest_of_node(store, r, depth);
    } else {
        lemma_compact_children(store, r, depth);
        let ch = children_of(store, r, depth)->Ok_0;
        let nib = nibble_at(key, depth as int);
        let b = key[depth as int / 2];
        assert(b / 16 < 16 && b % 16 < 16);
        lemma_compact_lookup(store, ch[nib as int], depth + 1, key);
    }
}

} // verus!
