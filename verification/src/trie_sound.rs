//! What an update means: the updated trie holds the new values and keeps the
//! others.

use vstd::prelude::*;
use crate::hash::{empty_root, keccak256};
use crate::node::{count_present, is_nibbles, valid_node, NodeView};
use crate::node_laws::{law_node_decode_then_encode, law_node_encode_then_decode};
use crate::trie::{
    absorb, apply_updates, at_nibble, children_of, compress, count_occupied, emitted_slots,
    empty_slots, expand, find_node, fits, last_occupied, lookup, lookup_ref, nibble_at, resolve,
    root_ref, seal, sealed_slot, sealed_slots, slot_ref, terminal, terminal_value, update_ref,
    update_slots, Outcome, ProofNodeView, RefView, Slots, TrieErrorView, TrieUpdateView,
};
use crate::trie_laws::{distinct_keys, keyed, lemma_filter_facts, lemma_key_from_nibbles, on_path};

verus! {

/// Every proof node hashes to the hash it is keyed by.
pub open spec fn hashes_hold(store: Seq<ProofNodeView>) -> bool {
    forall|i: int| 0 <= i < store.len() ==> keccak256(#[trigger] store[i].bytes) == store[i].hash
}

/// No two different encodings among the proof nodes have the same hash.
pub open spec fn no_collision(store: Seq<ProofNodeView>) -> bool {
    forall|i: int, j: int|
        0 <= i < store.len() && 0 <= j < store.len() && keccak256(#[trigger] store[i].bytes)
            == keccak256(#[trigger] store[j].bytes) ==> store[i].bytes == store[j].bytes
}

/// A lookup by hash that finds a node in `store` finds the same in `bigger`.
pub open spec fn extends(bigger: Seq<ProofNodeView>, store: Seq<ProofNodeView>) -> bool {
    forall|h: Seq<u8>| #[trigger]
        find_node(store, h) is Some ==> find_node(bigger, h) == find_node(store, h)
}

/// Every well-shaped node whose sealed form is among the proof nodes is what
/// its hash resolves to.
pub open spec fn self_resolving(store: Seq<ProofNodeView>) -> bool {
    forall|n: NodeView|
        valid_node(n) && store.contains(#[trigger] seal(n)) ==> resolve(store, seal(n).hash)
            == Ok::<NodeView, TrieErrorView>(n)
}

proof fn lemma_find_append(store: Seq<ProofNodeView>, extra: Seq<ProofNodeView>, h: Seq<u8>)
    ensures
        find_node(store + extra, h) == match find_node(store, h) {
            Some(b) => Some(b),
            None => find_node(extra, h),
        },
    decreases store.len(),
{
    let all = store + extra;
    if store.len() == 0 {
        assert(all =~= extra);
    } else {
        assert(all[0] == store[0]);
        assert(all.skip(1) =~= store.skip(1) + extra);
        lemma_find_append(store.skip(1), extra, h);
    }
}

pub(crate) proof fn lemma_append_extends(store: Seq<ProofNodeView>, extra: Seq<ProofNodeView>)
    ensures
        extends(store + extra, store),
{
    assert forall|h: Seq<u8>| #[trigger] find_node(store, h) is Some implies find_node(
        store + extra,
        h,
    ) == find_node(store, h) by {
        lemma_find_append(store, extra, h);
    }
}

/// What a lookup by hash finds is the bytes of a proof node with that hash.
proof fn lemma_find_index(store: Seq<ProofNodeView>, h: Seq<u8>) -> (i: int)
    requires
        find_node(store, h) is Some,
    ensures
        0 <= i < store.len(),
        store[i].hash == h,
        find_node(store, h) == Some(store[i].bytes),
    decreases store.len(),
{
    if store[0].hash == h {
        0
    } else {
        let j = lemma_find_index(store.skip(1), h);
        assert(store.skip(1)[j] == store[j + 1]);
        j + 1
    }
}

proof fn lemma_find_present(store: Seq<ProofNodeView>, i: int)
    requires
        0 <= i < store.len(),
    ensures
        find_node(store, store[i].hash) is Some,
    decreases store.len(),
{
    if store[0].hash != store[i].hash {
        assert(store.skip(1)[i - 1] == store[i]);
        lemma_find_present(store.skip(1), i - 1);
    }
}

/// Among proof nodes that hash to their keys without collisions, every
/// well-shaped sealed node is what its hash resolves to.
pub(crate) proof fn lemma_self_resolving(store: Seq<ProofNodeView>)
    requires
        hashes_hold(store),
        no_collision(store),
    ensures
        self_resolving(store),
{
    assert forall|n: NodeView| valid_node(n) && store.contains(#[trigger] seal(n)) implies resolve(
        store,
        seal(n).hash,
    ) == Ok::<NodeView, TrieErrorView>(n) by {
        let j = choose|j: int| 0 <= j < store.len() && store[j] == seal(n);
        lemma_find_present(store, j);
        let i = lemma_find_index(store, seal(n).hash);
        assert(keccak256(store[i].bytes) == store[i].hash);
        assert(keccak256(store[j].bytes) == store[j].hash);
        assert(store[i].bytes == store[j].bytes);
        law_node_encode_then_decode(n);
    }
}

pub(crate) proof fn lemma_resolve_extends(
    store: Seq<ProofNodeView>,
    all: Seq<ProofNodeView>,
    h: Seq<u8>,
)
    requires
        extends(all, store),
        !(resolve(store, h) matches Err(TrieErrorView::MissingNode { .. })),
    ensures
        resolve(all, h) == resolve(store, h),
{
    assert(find_node(store, h) is Some);
}

proof fn lemma_children_extend(
    store: Seq<ProofNodeView>,
    all: Seq<ProofNodeView>,
    r: RefView,
    depth: nat,
)
    requires
        extends(all, store),
        children_of(store, r, depth) is Ok,
    ensures
        children_of(all, r, depth) == children_of(store, r, depth),
{
    match r {
        RefView::Hashed(h) => {
            lemma_resolve_extends(store, all, h);
        },
        _ => {},
    }
}

proof fn lemma_terminal_extends(store: Seq<ProofNodeView>, all: Seq<ProofNodeView>, r: RefView)
    requires
        extends(all, store),
        terminal_value(store, r) is Ok,
    ensures
        terminal_value(all, r) == terminal_value(store, r),
{
    match r {
        RefView::Hashed(h) => {
            lemma_resolve_extends(store, all, h);
        },
        _ => {},
    }
}

/// A lookup that succeeds among the proof nodes gives the same among more.
proof fn lemma_lookup_extends(
    store: Seq<ProofNodeView>,
    all: Seq<ProofNodeView>,
    r: RefView,
    depth: nat,
    key: Seq<u8>,
)
    requires
        extends(all, store),
        lookup_ref(store, r, depth, key) is Ok,
    ensures
        lookup_ref(all, r, depth, key) == lookup_ref(store, r, depth, key),
    decreases 64 - depth,
{
    if depth >= 64 {
        lemma_terminal_extends(store, all, r);
    } else {
        lemma_children_extend(store, all, r, depth);
        let children = children_of(store, r, depth)->Ok_0;
        lemma_lookup_extends(
            store,
            all,
            children[nibble_at(key, depth as int) as int],
            depth + 1,
            key,
        );
    }
}

/// A node known by its hash is looked through like the node itself.
proof fn lemma_hashed_is_inline(
    all: Seq<ProofNodeView>,
    h: Seq<u8>,
    n: NodeView,
    depth: nat,
    key: Seq<u8>,
)
    requires
        resolve(all, h) == Ok::<NodeView, TrieErrorView>(n),
    ensures
        lookup_ref(all, RefView::Hashed(h), depth, key) == lookup_ref(
            all,
            RefView::Inline(n),
            depth,
            key,
        ),
{
}

pub(crate) proof fn lemma_lookup_empty(all: Seq<ProofNodeView>, depth: nat, key: Seq<u8>)
    requires
        depth <= 64,
        key.len() == 32,
    ensures
        lookup_ref(all, RefView::Empty, depth, key) == Ok::<Option<Seq<u8>>, TrieErrorView>(None),
    decreases 64 - depth,
{
    if depth < 64 {
        let nib = nibble_at(key, depth as int);
        let b = key[depth as int / 2];
        assert(b / 16 < 16 && b % 16 < 16);
        assert(empty_slots()[nib as int] == RefView::Empty);
        lemma_lookup_empty(all, depth + 1, key);
    }
}

/// Whether a reference is well-shaped for its depth: a hash has 32 bytes, and a
/// node held by value has the shape of an encoded node and fits the depth.
pub open spec fn sound(r: RefView, depth: nat) -> bool {
    match r {
        RefView::Empty => true,
        RefView::Hashed(h) => h.len() == 32,
        RefView::Inline(n) => valid_node(n) && fits(r, depth),
    }
}

/// Every reference is well-shaped for `depth`.
pub open spec fn all_sound(refs: Seq<RefView>, depth: nat) -> bool {
    forall|i: int| 0 <= i < refs.len() ==> sound(#[trigger] refs[i], depth)
}

/// Every value is short enough for its length to be encoded.
pub open spec fn values_fit(ups: Seq<TrieUpdateView>) -> bool {
    forall|u: TrieUpdateView|
        ups.contains(u) ==> (u.value matches Some(v) ==> v.len() <= u64::MAX)
}

/// A proof node is the sealed form of a well-shaped node.
pub open spec fn is_sealed(e: ProofNodeView) -> bool {
    exists|n: NodeView| valid_node(n) && e == #[trigger] seal(n)
}

/// Every proof node is the sealed form of a well-shaped node.
pub open spec fn all_sealed(emitted: Seq<ProofNodeView>) -> bool {
    forall|i: int| 0 <= i < emitted.len() ==> is_sealed(#[trigger] emitted[i])
}

pub(crate) proof fn lemma_sealed_concat(a: Seq<ProofNodeView>, b: Seq<ProofNodeView>)
    requires
        all_sealed(a),
        all_sealed(b),
    ensures
        all_sealed(a + b),
{
    assert forall|i: int| 0 <= i < (a + b).len() implies is_sealed(#[trigger] (a + b)[i]) by {
        if i < a.len() {
            assert((a + b)[i] == a[i]);
        } else {
            assert((a + b)[i] == b[i - a.len()]);
        }
    }
}

proof fn lemma_nibble_small(key: Seq<u8>, depth: int)
    ensures
        nibble_at(key, depth) < 16,
{
    let b = key[depth / 2];
    assert(b / 16 < 16 && b % 16 < 16);
}

proof fn lemma_expand_sound(n: NodeView, depth: nat, children: Seq<RefView>)
    requires
        valid_node(n),
        depth < 64,
        expand(n, depth) == Ok::<Seq<RefView>, TrieErrorView>(children),
    ensures
        children.len() == 16,
        all_sound(children, depth + 1),
{
    assert forall|i: int| 0 <= i < children.len() implies sound(
        #[trigger] children[i],
        depth + 1,
    ) by {
        match n {
            NodeView::Leaf { path, value } => {
                if i == path[0] as int {
                    assert(is_nibbles(path.skip(1))) by {
                        assert forall|j: int| 0 <= j < path.skip(1).len() implies #[trigger] path.skip(
                            1,
                        )[j] < 16 by {
                            assert(path.skip(1)[j] == path[j + 1]);
                        }
                    }
                } else {
                    assert(children[i] == RefView::Empty);
                }
            },
            NodeView::Extension { path, child } => {
                if i == path[0] as int {
                    if path.len() > 1 {
                        assert(is_nibbles(path.skip(1))) by {
                            assert forall|j: int|
                                0 <= j < path.skip(1).len() implies #[trigger] path.skip(1)[j]
                                < 16 by {
                                assert(path.skip(1)[j] == path[j + 1]);
                            }
                        }
                    }
                } else {
                    assert(children[i] == RefView::Empty);
                }
            },
            NodeView::Branch { children: slots } => {
                assert(children[i] == slot_ref(slots[i]));
            },
        }
    }
}

pub(crate) proof fn lemma_children_sound(
    store: Seq<ProofNodeView>,
    r: RefView,
    depth: nat,
    children: Seq<RefView>,
)
    requires
        sound(r, depth),
        depth < 64,
        children_of(store, r, depth) == Ok::<Seq<RefView>, TrieErrorView>(children),
    ensures
        children.len() == 16,
        all_sound(children, depth + 1),
{
    match r {
        RefView::Empty => {
            assert forall|i: int| 0 <= i < children.len() implies sound(
                #[trigger] children[i],
                depth + 1,
            ) by {
                assert(children[i] == RefView::Empty);
            }
        },
        RefView::Hashed(h) => {
            let n = resolve(store, h)->Ok_0;
            let bytes = find_node(store, h)->0;
            law_node_decode_then_encode(bytes, n);
            lemma_expand_sound(n, depth, children);
        },
        RefView::Inline(n) => {
            lemma_expand_sound(n, depth, children);
        },
    }
}

pub(crate) proof fn lemma_count_sealed(refs: Seq<RefView>)
    ensures
        count_present(sealed_slots(refs)) == count_occupied(refs),
    decreases refs.len(),
{
    if refs.len() > 0 {
        assert(sealed_slots(refs).drop_last() =~= sealed_slots(refs.drop_last()));
        assert(sealed_slots(refs).last() == sealed_slot(refs.last()));
        lemma_count_sealed(refs.drop_last());
    }
}

/// Where some slot is occupied, the last occupied one is an occupied slot.
pub(crate) proof fn lemma_last_occupied(refs: Seq<RefView>)
    requires
        count_occupied(refs) >= 1,
    ensures
        0 <= last_occupied(refs) < refs.len(),
        !(refs[last_occupied(refs)] is Empty),
    decreases refs.len(),
{
    if refs.len() > 0 && refs.last() is Empty {
        lemma_last_occupied(refs.drop_last());
    }
}

/// Where one slot is occupied, all others are empty.
proof fn lemma_single_occupied(refs: Seq<RefView>, i: int)
    requires
        count_occupied(refs) == 1,
        0 <= i < refs.len(),
        i != last_occupied(refs),
    ensures
        refs[i] is Empty,
    decreases refs.len(),
{
    if refs.len() > 0 {
        if refs.last() is Empty {
            if i < refs.len() - 1 {
                lemma_single_occupied(refs.drop_last(), i);
            }
        } else {
            lemma_no_occupied(refs.drop_last(), i);
        }
    }
}

/// Where no slot is occupied, every slot is empty.
proof fn lemma_no_occupied(refs: Seq<RefView>, i: int)
    requires
        count_occupied(refs) == 0,
        0 <= i < refs.len(),
    ensures
        refs[i] is Empty,
    decreases refs.len(),
{
    if i < refs.len() - 1 {
        lemma_no_occupied(refs.drop_last(), i);
    }
}

pub(crate) proof fn lemma_emitted_slots(refs: Seq<RefView>, depth: nat)
    requires
        all_sound(refs, depth),
    ensures
        all_sealed(emitted_slots(refs)),
        forall|i: int|
            0 <= i < refs.len() ==> ((#[trigger] refs[i]) matches RefView::Inline(n)
                ==> emitted_slots(refs).contains(seal(n))),
    decreases refs.len(),
{
    if refs.len() > 0 {
        let before = refs.drop_last();
        assert(all_sound(before, depth)) by {
            assert forall|i: int| 0 <= i < before.len() implies sound(
                #[trigger] before[i],
                depth,
            ) by {
                assert(before[i] == refs[i]);
            }
        }
        lemma_emitted_slots(before, depth);
        let tail: Seq<ProofNodeView> = match refs.last() {
            RefView::Inline(n) => seq![seal(n)],
            _ => Seq::empty(),
        };
        assert(sound(refs[refs.len() - 1], depth));
        assert(all_sealed(tail));
        lemma_sealed_concat(emitted_slots(before), tail);
        let all = emitted_slots(refs);
        assert forall|i: int| 0 <= i < refs.len() implies ((#[trigger] refs[i]) matches RefView::Inline(
            n,
        ) ==> all.contains(seal(n))) by {
            match refs[i] {
                RefView::Inline(n) => {
                    if i < before.len() {
                        assert(before[i] == refs[i]);
                        assert(emitted_slots(before).contains(seal(n)));
                        let j = choose|j: int|
                            0 <= j < emitted_slots(before).len() && emitted_slots(before)[j]
                                == seal(n);
                        assert(all[j] == seal(n));
                    } else {
                        assert(all[all.len() - 1] == seal(n));
                    }
                },
                _ => {},
            }
        }
    }
}

proof fn lemma_prepend_nibbles(nib: u8, path: Seq<u8>)
    requires
        nib < 16,
        is_nibbles(path),
    ensures
        is_nibbles(seq![nib] + path),
{
    let longer = seq![nib] + path;
    assert forall|j: int| 0 <= j < longer.len() implies #[trigger] longer[j] < 16 by {
        if j > 0 {
            assert(longer[j] == path[j - 1]);
        }
    }
}

proof fn lemma_absorb_sound(
    n: NodeView,
    hash: Option<Seq<u8>>,
    nib: u8,
    depth: nat,
    r2: RefView,
    emitted: Seq<ProofNodeView>,
)
    requires
        valid_node(n),
        nib < 16,
        hash matches Some(h) ==> h.len() == 32,
        depth < 64,
        absorb(n, hash, nib, depth) == Ok::<(RefView, Seq<ProofNodeView>), TrieErrorView>(
            (r2, emitted),
        ),
    ensures
        sound(r2, depth),
        !(r2 is Hashed),
        all_sealed(emitted),
{
    match n {
        NodeView::Leaf { path, value } => {
            lemma_prepend_nibbles(nib, path);
        },
        NodeView::Extension { path, child } => {
            lemma_prepend_nibbles(nib, path);
        },
        NodeView::Branch { children } => {
            lemma_prepend_nibbles(nib, Seq::empty());
            assert(seq![nib] + Seq::<u8>::empty() =~= seq![nib]);
            if hash is None {
                assert(is_sealed(emitted[0]));
            }
        },
    }
}

proof fn lemma_compress_sound(
    store: Seq<ProofNodeView>,
    refs: Seq<RefView>,
    depth: nat,
    r2: RefView,
    emitted: Seq<ProofNodeView>,
)
    requires
        refs.len() == 16,
        all_sound(refs, depth + 1),
        depth < 64,
        compress(store, refs, depth) == Ok::<(RefView, Seq<ProofNodeView>), TrieErrorView>(
            (r2, emitted),
        ),
    ensures
        sound(r2, depth),
        !(r2 is Hashed),
        all_sealed(emitted),
{
    if count_occupied(refs) == 0 {
    } else if count_occupied(refs) == 1 {
        lemma_last_occupied(refs);
        let i = last_occupied(refs);
        assert(sound(refs[i], depth + 1));
        match refs[i] {
            RefView::Empty => {},
            RefView::Inline(n) => {
                lemma_absorb_sound(n, None, i as u8, depth, r2, emitted);
            },
            RefView::Hashed(h) => {
                let n = resolve(store, h)->Ok_0;
                let bytes = find_node(store, h)->0;
                law_node_decode_then_encode(bytes, n);
                lemma_absorb_sound(n, Some(h), i as u8, depth, r2, emitted);
            },
        }
    } else {
        lemma_count_sealed(refs);
        lemma_emitted_slots(refs, depth + 1);
        let slots = sealed_slots(refs);
        assert forall|i: int| 0 <= i < 16 implies ((#[trigger] slots[i]) matches Some(h)
            ==> h.len() == 32) by {
            assert(sound(refs[i], depth + 1));
        }
    }
}

proof fn lemma_terminal_sound(
    store: Seq<ProofNodeView>,
    r: RefView,
    u: TrieUpdateView,
    o: Outcome,
)
    requires
        u.value matches Some(v) ==> v.len() <= u64::MAX,
        terminal(store, r, u) == Ok::<Outcome, TrieErrorView>(o),
    ensures
        o.node matches Some(r2) ==> sound(r2, 64) && !(r2 is Hashed),
        o.emitted.len() == 0,
{
}

/// What an update makes of a well-shaped subtree is well-shaped, and every node
/// that it creates is the sealed form of a well-shaped node.
pub(crate) proof fn lemma_update_shape(
    store: Seq<ProofNodeView>,
    r: RefView,
    depth: nat,
    ups: Seq<TrieUpdateView>,
    o: Outcome,
)
    requires
        depth <= 64,
        sound(r, depth),
        values_fit(ups),
        update_ref(store, r, depth, ups) == Ok::<Outcome, TrieErrorView>(o),
    ensures
        o.node matches Some(r2) ==> sound(r2, depth) && !(r2 is Hashed),
        all_sealed(o.emitted),
        o.node is None ==> o.emitted.len() == 0,
    decreases 64 - depth, 17nat,
{
    if ups.len() == 0 {
    } else if depth >= 64 {
        assert(ups.contains(ups.last()));
        lemma_terminal_sound(store, r, ups.last(), o);
    } else {
        let children = children_of(store, r, depth)->Ok_0;
        lemma_children_sound(store, r, depth, children);
        let s = update_slots(store, children, depth, ups, 16)->Ok_0;
        lemma_slots_shape(store, children, depth, ups, 16, s);
        if s.changed {
            let (r2, emitted) = compress(store, s.children, depth)->Ok_0;
            lemma_compress_sound(store, s.children, depth, r2, emitted);
            lemma_sealed_concat(s.emitted, emitted);
        }
    }
}

pub(crate) proof fn lemma_slots_shape(
    store: Seq<ProofNodeView>,
    children: Seq<RefView>,
    depth: nat,
    ups: Seq<TrieUpdateView>,
    n: nat,
    s: Slots,
)
    requires
        depth < 64,
        n <= 16,
        children.len() == 16,
        all_sound(children, depth + 1),
        values_fit(ups),
        update_slots(store, children, depth, ups, n) == Ok::<Slots, TrieErrorView>(s),
    ensures
        s.children.len() == 16,
        all_sound(s.children, depth + 1),
        all_sealed(s.emitted),
    decreases 64 - depth, n,
{
    if n > 0 {
        let prev = update_slots(store, children, depth, ups, (n - 1) as nat)->Ok_0;
        lemma_slots_shape(store, children, depth, ups, (n - 1) as nat, prev);
        let pred = at_nibble(depth as int, (n - 1) as u8);
        let f = ups.filter(pred);
        lemma_filter_facts(ups, pred);
        assert(values_fit(f));
        let o = update_ref(store, children[n - 1], depth + 1, f)->Ok_0;
        assert(sound(children[n - 1], depth + 1));
        lemma_update_shape(store, children[n - 1], depth + 1, f, o);
        lemma_sealed_concat(prev.emitted, o.emitted);
        assert forall|i: int| 0 <= i < s.children.len() implies sound(
            #[trigger] s.children[i],
            depth + 1,
        ) by {
            if o.node is Some && i == n - 1 {
            } else {
                assert(s.children[i] == prev.children[i]);
            }
        }
    }
}

/// What takes the place of `r` after an update.
pub open spec fn after(r: RefView, o: Outcome) -> RefView {
    match o.node {
        Some(r2) => r2,
        None => r,
    }
}

/// What the update of the slots says of each single slot.
pub(crate) proof fn lemma_slots_parts(
    store: Seq<ProofNodeView>,
    children: Seq<RefView>,
    depth: nat,
    ups: Seq<TrieUpdateView>,
    n: nat,
    s: Slots,
    i: int,
)
    requires
        depth < 64,
        n <= 16,
        children.len() == 16,
        0 <= i < 16,
        update_slots(store, children, depth, ups, n) == Ok::<Slots, TrieErrorView>(s),
    ensures
        s.children.len() == 16,
        i >= n ==> s.children[i] == children[i],
        i < n ==> update_ref(
            store,
            children[i],
            depth + 1,
            ups.filter(at_nibble(depth as int, i as u8)),
        ) is Ok,
        i < n ==> s.children[i] == after(
            children[i],
            update_ref(
                store,
                children[i],
                depth + 1,
                ups.filter(at_nibble(depth as int, i as u8)),
            )->Ok_0,
        ),
        i < n ==> forall|e: ProofNodeView|
            update_ref(
                store,
                children[i],
                depth + 1,
                ups.filter(at_nibble(depth as int, i as u8)),
            )->Ok_0.emitted.contains(e) ==> s.emitted.contains(e),
        i < n && !s.changed ==> update_ref(
            store,
            children[i],
            depth + 1,
            ups.filter(at_nibble(depth as int, i as u8)),
        )->Ok_0.node is None,
    decreases n,
{
    if n > 0 {
        let prev = update_slots(store, children, depth, ups, (n - 1) as nat)->Ok_0;
        lemma_slots_parts(store, children, depth, ups, (n - 1) as nat, prev, i);
        let o = update_ref(
            store,
            children[n - 1],
            depth + 1,
            ups.filter(at_nibble(depth as int, (n - 1) as u8)),
        )->Ok_0;
        if i < n - 1 {
            let oi = update_ref(
                store,
                children[i],
                depth + 1,
                ups.filter(at_nibble(depth as int, i as u8)),
            )->Ok_0;
            assert forall|e: ProofNodeView| oi.emitted.contains(e) implies s.emitted.contains(
                e,
            ) by {
                assert(prev.emitted.contains(e));
                let j = choose|j: int| 0 <= j < prev.emitted.len() && prev.emitted[j] == e;
                assert(s.emitted[j] == e);
            }
        } else if i == n - 1 {
            lemma_slots_parts(store, children, depth, ups, (n - 1) as nat, prev, n - 1);
            assert forall|e: ProofNodeView| o.emitted.contains(e) implies s.emitted.contains(
                e,
            ) by {
                let j = choose|j: int| 0 <= j < o.emitted.len() && o.emitted[j] == e;
                assert(s.emitted[prev.emitted.len() + j] == e);
            }
        }
    }
}

/// Looking a key up through what 16 slots were made into is looking it up in
/// the slot of its next nibble.
proof fn lemma_compress_lookup(
    store: Seq<ProofNodeView>,
    all: Seq<ProofNodeView>,
    refs: Seq<RefView>,
    depth: nat,
    r2: RefView,
    emitted: Seq<ProofNodeView>,
    key: Seq<u8>,
)
    requires
        refs.len() == 16,
        all_sound(refs, depth + 1),
        depth < 64,
        key.len() == 32,
        extends(all, store),
        self_resolving(all),
        compress(store, refs, depth) == Ok::<(RefView, Seq<ProofNodeView>), TrieErrorView>(
            (r2, emitted),
        ),
        forall|e: ProofNodeView| emitted.contains(e) ==> all.contains(e),
    ensures
        lookup_ref(all, r2, depth, key) == lookup_ref(
            all,
            refs[nibble_at(key, depth as int) as int],
            depth + 1,
            key,
        ),
{
    let nib = nibble_at(key, depth as int);
    lemma_nibble_small(key, depth as int);
    if count_occupied(refs) == 0 {
        lemma_no_occupied(refs, nib as int);
        assert(empty_slots()[nib as int] == RefView::Empty);
    } else if count_occupied(refs) == 1 {
        lemma_last_occupied(refs);
        let i = last_occupied(refs);
        assert(sound(refs[i], depth + 1));
        if nib as int != i {
            lemma_single_occupied(refs, nib as int);
        }
        match refs[i] {
            RefView::Empty => {},
            RefView::Inline(n) => {
                lemma_absorb_lookup(all, n, None, i as u8, depth, r2, emitted, key);
                if nib as int == i {
                    match n {
                        NodeView::Branch { children } => {
                            assert(emitted[0] == seal(n));
                            assert(all.contains(seal(n)));
                            lemma_hashed_is_inline(all, seal(n).hash, n, depth + 1, key);
                        },
                        _ => {},
                    }
                }
            },
            RefView::Hashed(h) => {
                let n = resolve(store, h)->Ok_0;
                let bytes = find_node(store, h)->0;
                law_node_decode_then_encode(bytes, n);
                lemma_resolve_extends(store, all, h);
                lemma_absorb_lookup(all, n, Some(h), i as u8, depth, r2, emitted, key);
                if nib as int == i {
                    lemma_hashed_is_inline(all, h, n, depth + 1, key);
                }
            },
        }
    } else {
        let slots = sealed_slots(refs);
        let below = Seq::new(16, |j: int| slot_ref(slots[j]));
        assert(children_of(all, r2, depth) == Ok::<Seq<RefView>, TrieErrorView>(below));
        assert(below[nib as int] == slot_ref(sealed_slot(refs[nib as int])));
        assert(sound(refs[nib as int], depth + 1));
        match refs[nib as int] {
            RefView::Inline(n) => {
                lemma_emitted_slots(refs, depth + 1);
                assert(emitted.contains(seal(n)));
                assert(all.contains(seal(n)));
                lemma_hashed_is_inline(all, seal(n).hash, n, depth + 1, key);
            },
            _ => {},
        }
    }
}

/// The slots below a node that took up its only child: the child's slot holds
/// the child as it was, or the hash it is known by, and all others are empty.
proof fn lemma_absorb_lookup(
    all: Seq<ProofNodeView>,
    n: NodeView,
    hash: Option<Seq<u8>>,
    nib: u8,
    depth: nat,
    r2: RefView,
    emitted: Seq<ProofNodeView>,
    key: Seq<u8>,
)
    requires
        valid_node(n),
        nib < 16,
        depth < 64,
        absorb(n, hash, nib, depth) == Ok::<(RefView, Seq<ProofNodeView>), TrieErrorView>(
            (r2, emitted),
        ),
    ensures
        children_of(all, r2, depth) is Ok,
        forall|j: int|
            0 <= j < 16 && j != nib ==> (#[trigger] children_of(all, r2, depth)->Ok_0[j]) is Empty,
        children_of(all, r2, depth)->Ok_0[nib as int] == match n {
            NodeView::Branch { children } => match hash {
                Some(h) => RefView::Hashed(h),
                None => RefView::Hashed(seal(n).hash),
            },
            _ => RefView::Inline(n),
        },
{
    match n {
        NodeView::Leaf { path, value } => {
            assert((seq![nib] + path).skip(1) =~= path);
        },
        NodeView::Extension { path, child } => {
            assert((seq![nib] + path).skip(1) =~= path);
        },
        NodeView::Branch { children } => {},
    }
}

/// An update does to a subtree what it says: afterwards the subtree holds,
/// under each updated key, the value of its update, and under every other key
/// that it was known to hold or not to hold, what it held before.
proof fn lemma_update_lookup(
    store: Seq<ProofNodeView>,
    all: Seq<ProofNodeView>,
    r: RefView,
    depth: nat,
    ups: Seq<TrieUpdateView>,
    prefix: Seq<u8>,
    o: Outcome,
    key: Seq<u8>,
)
    requires
        depth <= 64,
        prefix.len() == depth,
        extends(all, store),
        self_resolving(all),
        sound(r, depth),
        values_fit(ups),
        on_path(ups, prefix),
        distinct_keys(ups),
        key.len() == 32,
        forall|d: int| 0 <= d < depth ==> nibble_at(key, d) == #[trigger] prefix[d],
        update_ref(store, r, depth, ups) == Ok::<Outcome, TrieErrorView>(o),
        forall|e: ProofNodeView| o.emitted.contains(e) ==> all.contains(e),
    ensures
        forall|u: TrieUpdateView|
            ups.contains(u) && u.key == key ==> lookup_ref(all, after(r, o), depth, key) == Ok::<
                Option<Seq<u8>>,
                TrieErrorView,
            >(u.value),
        (forall|u: TrieUpdateView| ups.contains(u) ==> u.key != key) && lookup_ref(
            store,
            r,
            depth,
            key,
        ) is Ok ==> lookup_ref(all, after(r, o), depth, key) == lookup_ref(store, r, depth, key),
    decreases 64 - depth,
{
    if ups.len() == 0 {
        if lookup_ref(store, r, depth, key) is Ok {
            lemma_lookup_extends(store, all, r, depth, key);
        }
    } else if depth >= 64 {
        let last = ups.last();
        assert(ups.contains(last));
        lemma_key_from_nibbles(last.key, key, prefix);
        assert forall|u: TrieUpdateView| ups.contains(u) && u.key == key implies lookup_ref(
            all,
            after(r, o),
            depth,
            key,
        ) == Ok::<Option<Seq<u8>>, TrieErrorView>(u.value) by {
            let j = choose|j: int| 0 <= j < ups.len() && ups[j] == u;
            if j < ups.len() - 1 {
                assert(ups[j].key != ups[ups.len() - 1].key);
            }
            assert(u == last);
            if last.value == terminal_value(store, r)->Ok_0 {
                lemma_terminal_extends(store, all, r);
            }
        }
    } else {
        let children = children_of(store, r, depth)->Ok_0;
        lemma_children_sound(store, r, depth, children);
        lemma_children_extend(store, all, r, depth);
        let s = update_slots(store, children, depth, ups, 16)->Ok_0;
        lemma_slots_shape(store, children, depth, ups, 16, s);
        let nib = nibble_at(key, depth as int);
        lemma_nibble_small(key, depth as int);
        lemma_slots_parts(store, children, depth, ups, 16, s, nib as int);
        let pred = at_nibble(depth as int, nib);
        let f = ups.filter(pred);
        lemma_filter_facts(ups, pred);
        let below = update_ref(store, children[nib as int], depth + 1, f)->Ok_0;
        assert(sound(children[nib as int], depth + 1));
        lemma_update_shape(store, children[nib as int], depth + 1, f, below);
        let longer = prefix.push(nib);
        assert forall|u: TrieUpdateView| f.contains(u) implies keyed(u, longer) by {
            assert(ups.contains(u) && pred(u));
            assert(keyed(u, prefix));
            assert forall|d: int| 0 <= d < longer.len() implies nibble_at(u.key, d)
                == #[trigger] longer[d] by {
                if d < prefix.len() {
                    assert(longer[d] == prefix[d]);
                }
            }
        }
        assert forall|d: int| 0 <= d < depth + 1 implies nibble_at(key, d)
            == #[trigger] longer[d] by {
            if d < depth {
                assert(longer[d] == prefix[d]);
            }
        }
        assert forall|e: ProofNodeView| below.emitted.contains(e) implies all.contains(e) by {
            assert(s.emitted.contains(e));
            if s.changed {
                let j = choose|j: int| 0 <= j < s.emitted.len() && s.emitted[j] == e;
                assert(o.emitted[j] == e);
            }
        }
        lemma_update_lookup(store, all, children[nib as int], depth + 1, f, longer, below, key);
        if s.changed {
            let (r2, emitted) = compress(store, s.children, depth)->Ok_0;
            assert forall|e: ProofNodeView| emitted.contains(e) implies all.contains(e) by {
                let j = choose|j: int| 0 <= j < emitted.len() && emitted[j] == e;
                assert(o.emitted[s.emitted.len() + j] == e);
            }
            lemma_compress_lookup(store, all, s.children, depth, r2, emitted, key);
        }
        assert(lookup_ref(all, after(r, o), depth, key) == lookup_ref(
            all,
            after(children[nib as int], below),
            depth + 1,
            key,
        ));
        assert forall|u: TrieUpdateView| ups.contains(u) && u.key == key implies f.contains(
            u,
        ) by {
            assert(pred(u));
        }
    }
}

/// What an update means. Where the proof nodes hash to their keys, no two of
/// the encodings involved have the same hash and no created node hashes to the
/// root of the empty trie, the trie with the new root, read through the old and
/// the created nodes together, holds under each updated key the value of its
/// update, and under every other key what the old trie was known to hold, or
/// not to hold, under it.
pub proof fn law_lookup_after_update(
    store: Seq<ProofNodeView>,
    root: Seq<u8>,
    ups: Seq<TrieUpdateView>,
    new_root: Seq<u8>,
    created: Seq<ProofNodeView>,
    key: Seq<u8>,
)
    requires
        apply_updates(store, root, ups) == Ok::<(Seq<u8>, Seq<ProofNodeView>), TrieErrorView>(
            (new_root, created),
        ),
        distinct_keys(ups),
        values_fit(ups),
        hashes_hold(store),
        no_collision(store + created),
        forall|i: int| 0 <= i < created.len() ==> (#[trigger] created[i]).hash != empty_root(),
        key.len() == 32,
    ensures
        forall|u: TrieUpdateView|
            ups.contains(u) && u.key == key ==> lookup(store + created, new_root, key) == Ok::<
                Option<Seq<u8>>,
                TrieErrorView,
            >(u.value),
        (forall|u: TrieUpdateView| ups.contains(u) ==> u.key != key) && lookup(store, root, key)
            is Ok ==> lookup(store + created, new_root, key) == lookup(store, root, key),
{
    let all = store + created;
    let r = root_ref(root);
    let o = update_ref(store, r, 0, ups)->Ok_0;
    lemma_append_extends(store, created);
    if ups.len() == 0 {
        assert(all =~= store);
        assert forall|u: TrieUpdateView| ups.contains(u) implies false by {}
    } else {
        assert(sound(r, 0)) by {
            match r {
                RefView::Hashed(h) => {
                    let bytes = find_node(store, h)->0;
                    assert(keccak256(bytes) == h);
                    assert(keccak256(bytes).len() == 32);
                },
                _ => {},
            }
        }
        lemma_update_shape(store, r, 0, ups, o);
        assert(all_sealed(created)) by {
            match o.node {
                Some(RefView::Inline(n)) => {
                    assert(is_sealed(seal(n)));
                    assert(all_sealed(seq![seal(n)]));
                    lemma_sealed_concat(o.emitted, seq![seal(n)]);
                    assert(o.emitted.push(seal(n)) =~= o.emitted + seq![seal(n)]);
                },
                _ => {},
            }
        }
        assert(hashes_hold(all)) by {
            assert forall|i: int| 0 <= i < all.len() implies keccak256(#[trigger] all[i].bytes)
                == all[i].hash by {
                if i < store.len() {
                    assert(all[i] == store[i]);
                } else {
                    assert(all[i] == created[i - store.len()]);
                    assert(is_sealed(created[i - store.len()]));
                }
            }
        }
        lemma_self_resolving(all);
        assert forall|e: ProofNodeView| o.emitted.contains(e) implies all.contains(e) by {
            let j = choose|j: int| 0 <= j < o.emitted.len() && o.emitted[j] == e;
            assert(created[j] == e);
            assert(all[store.len() + j] == e);
        }
        assert forall|u: TrieUpdateView| ups.contains(u) implies keyed(u, Seq::empty()) by {
            let j = choose|j: int| 0 <= j < ups.len() && ups[j] == u;
            assert(ups[j].key.len() == 32);
        }
        lemma_update_lookup(store, all, r, 0, ups, Seq::empty(), o, key);
        match o.node {
            Some(RefView::Inline(n)) => {
                assert(created[created.len() - 1] == seal(n));
                assert(all[all.len() - 1] == seal(n));
                assert(all.contains(seal(n)));
                lemma_hashed_is_inline(all, new_root, n, 0, key);
            },
            _ => {},
        }
        assert(lookup(all, new_root, key) == lookup_ref(all, after(r, o), 0, key));
    }
}

} // verus!
