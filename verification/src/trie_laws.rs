//! What holds of every trie update.

use vstd::prelude::*;
use crate::hash::empty_root;
use crate::node::NodeView;
use crate::trie::{
    apply_updates, at_nibble, children_of, count_occupied, empty_slots, keys_well_sized,
    last_occupied, lookup, lookup_ref, nibble_at, root_ref, seal, unchanged, update_ref,
    update_slots, Outcome, ProofNodeView, RefView, Slots, TrieErrorView, TrieUpdateView,
};

verus! {

/// No key occurs twice.
pub open spec fn distinct_keys(ups: Seq<TrieUpdateView>) -> bool {
    forall|i: int, j: int| 0 <= i < j < ups.len() ==> ups[i].key != ups[j].key
}

/// Two listings hold the same updates.
pub open spec fn same_entries(a: Seq<TrieUpdateView>, b: Seq<TrieUpdateView>) -> bool {
    forall|u: TrieUpdateView| a.contains(u) <==> b.contains(u)
}

/// The key of `u` has 32 bytes and starts with the nibbles `prefix`.
pub open spec fn keyed(u: TrieUpdateView, prefix: Seq<u8>) -> bool {
    &&& u.key.len() == 32
    &&& forall|d: int| 0 <= d < prefix.len() ==> nibble_at(u.key, d) == #[trigger] prefix[d]
}

/// Every update's key starts with the nibbles `prefix`.
pub open spec fn on_path(ups: Seq<TrieUpdateView>, prefix: Seq<u8>) -> bool {
    forall|u: TrieUpdateView| ups.contains(u) ==> keyed(u, prefix)
}

/// An empty set of updates leaves the root as it is and creates no node,
/// whatever the proof nodes are.
pub proof fn law_empty_update(store: Seq<ProofNodeView>, root: Seq<u8>)
    ensures
        apply_updates(store, root, Seq::empty()) == Ok::<
            (Seq<u8>, Seq<ProofNodeView>),
            TrieErrorView,
        >((root, Seq::empty())),
{
}

/// What a selection keeps: the updates that satisfy `pred`, and with them the
/// property that no key occurs twice.
pub(crate) proof fn lemma_filter_facts(
    s: Seq<TrieUpdateView>,
    pred: spec_fn(TrieUpdateView) -> bool,
)
    ensures
        forall|u: TrieUpdateView| #[trigger]
            s.filter(pred).contains(u) <==> (s.contains(u) && pred(u)),
        distinct_keys(s) ==> distinct_keys(s.filter(pred)),
    decreases s.len(),
{
    reveal(Seq::filter);
    if s.len() == 0 {
        assert(s.filter(pred) =~= Seq::empty());
    } else {
        let d = s.drop_last();
        let last = s.last();
        let fd = d.filter(pred);
        let f = s.filter(pred);
        lemma_filter_facts(d, pred);
        assert forall|u: TrieUpdateView| #[trigger]
            f.contains(u) <==> (s.contains(u) && pred(u)) by {
            if f.contains(u) {
                let i = choose|i: int| 0 <= i < f.len() && f[i] == u;
                if pred(last) && i == fd.len() {
                    assert(s[s.len() - 1] == u);
                } else {
                    assert(fd[i] == u);
                    assert(fd.contains(u));
                    let j = choose|j: int| 0 <= j < d.len() && d[j] == u;
                    assert(s[j] == u);
                }
            }
            if s.contains(u) && pred(u) {
                let j = choose|j: int| 0 <= j < s.len() && s[j] == u;
                if j == s.len() - 1 {
                    assert(f[f.len() - 1] == u);
                } else {
                    assert(d[j] == u);
                    assert(d.contains(u));
                    assert(fd.contains(u));
                    let i = choose|i: int| 0 <= i < fd.len() && fd[i] == u;
                    assert(f[i] == u);
                }
            }
        }
        if distinct_keys(s) {
            assert(distinct_keys(d)) by {
                assert forall|i: int, j: int| 0 <= i < j < d.len() implies d[i].key != d[j].key by {
                    assert(s[i].key != s[j].key);
                }
            }
            assert forall|i: int, j: int| 0 <= i < j < f.len() implies f[i].key != f[j].key by {
                if pred(last) && j == fd.len() {
                    assert(fd.contains(fd[i]));
                    assert(d.contains(fd[i]));
                    let k = choose|k: int| 0 <= k < d.len() && d[k] == fd[i];
                    assert(s[k].key != s[s.len() - 1].key);
                } else {
                    assert(fd[i].key != fd[j].key);
                }
            }
        }
    }
}

/// A key of 32 bytes is determined by its 64 nibbles.
pub(crate) proof fn lemma_key_from_nibbles(a: Seq<u8>, b: Seq<u8>, prefix: Seq<u8>)
    requires
        a.len() == 32,
        b.len() == 32,
        prefix.len() == 64,
        forall|d: int| 0 <= d < 64 ==> nibble_at(a, d) == #[trigger] prefix[d],
        forall|d: int| 0 <= d < 64 ==> nibble_at(b, d) == #[trigger] prefix[d],
    ensures
        a == b,
{
    assert forall|i: int| 0 <= i < 32 implies a[i] == b[i] by {
        assert(nibble_at(a, 2 * i) == prefix[2 * i]);
        assert(nibble_at(b, 2 * i) == prefix[2 * i]);
        assert(nibble_at(a, 2 * i + 1) == prefix[2 * i + 1]);
        assert(nibble_at(b, 2 * i + 1) == prefix[2 * i + 1]);
        assert((2 * i) / 2 == i && (2 * i) % 2 == 0);
        assert((2 * i + 1) / 2 == i && (2 * i + 1) % 2 == 1);
        assert(a[i] == (a[i] / 16) * 16 + a[i] % 16);
        assert(b[i] == (b[i] / 16) * 16 + b[i] % 16);
    }
    assert(a =~= b);
}

/// What a selection by the next nibble does to two listings of the same
/// updates: they stay listings of the same updates, one nibble further down.
proof fn lemma_select_step(
    a: Seq<TrieUpdateView>,
    b: Seq<TrieUpdateView>,
    prefix: Seq<u8>,
    nib: u8,
)
    requires
        same_entries(a, b),
        distinct_keys(a),
        distinct_keys(b),
        on_path(a, prefix),
    ensures
        same_entries(
            a.filter(at_nibble(prefix.len() as int, nib)),
            b.filter(at_nibble(prefix.len() as int, nib)),
        ),
        distinct_keys(a.filter(at_nibble(prefix.len() as int, nib))),
        distinct_keys(b.filter(at_nibble(prefix.len() as int, nib))),
        on_path(a.filter(at_nibble(prefix.len() as int, nib)), prefix.push(nib)),
{
    let pred = at_nibble(prefix.len() as int, nib);
    lemma_filter_facts(a, pred);
    lemma_filter_facts(b, pred);
    let fa = a.filter(pred);
    let fb = b.filter(pred);
    assert forall|u: TrieUpdateView| fa.contains(u) <==> fb.contains(u) by {
        assert(a.contains(u) <==> b.contains(u));
    }
    assert forall|u: TrieUpdateView| fa.contains(u) implies keyed(u, prefix.push(nib)) by {
        assert(a.contains(u) && pred(u));
        assert(keyed(u, prefix));
        assert forall|d: int| 0 <= d < prefix.push(nib).len() implies nibble_at(u.key, d)
            == #[trigger] prefix.push(nib)[d] by {
            if d < prefix.len() {
                assert(prefix.push(nib)[d] == prefix[d]);
            }
        }
    }
}

/// Two listings of the same updates, none with a key twice, change a subtree in
/// the same way.
proof fn lemma_update_ref_order(
    store: Seq<ProofNodeView>,
    r: RefView,
    depth: nat,
    a: Seq<TrieUpdateView>,
    b: Seq<TrieUpdateView>,
    prefix: Seq<u8>,
)
    requires
        same_entries(a, b),
        distinct_keys(a),
        distinct_keys(b),
        on_path(a, prefix),
        prefix.len() == depth,
        depth <= 64,
    ensures
        update_ref(store, r, depth, a) == update_ref(store, r, depth, b),
    decreases 64 - depth, 17nat,
{
    if a.len() == 0 {
        if b.len() > 0 {
            assert(b.contains(b[0]));
            assert(a.contains(b[0]));
        }
    } else if b.len() == 0 {
        assert(a.contains(a[0]));
        assert(b.contains(a[0]));
    } else if depth >= 64 {
        let x = a.last();
        let y = b.last();
        assert(a.contains(x));
        assert(b.contains(x));
        assert(b.contains(y));
        assert(a.contains(y));
        let j = choose|j: int| 0 <= j < b.len() && b[j] == x;
        lemma_key_from_nibbles(x.key, y.key, prefix);
        if j < b.len() - 1 {
            assert(b[j].key != b[b.len() - 1].key);
        }
        assert(x == y);
    } else {
        match children_of(store, r, depth) {
            Err(e) => {},
            Ok(children) => {
                lemma_update_slots_order(store, children, depth, a, b, prefix, 16);
            },
        }
    }
}

/// Two listings of the same updates, none with a key twice, change the slots
/// below a node in the same way.
proof fn lemma_update_slots_order(
    store: Seq<ProofNodeView>,
    children: Seq<RefView>,
    depth: nat,
    a: Seq<TrieUpdateView>,
    b: Seq<TrieUpdateView>,
    prefix: Seq<u8>,
    n: nat,
)
    requires
        same_entries(a, b),
        distinct_keys(a),
        distinct_keys(b),
        on_path(a, prefix),
        prefix.len() == depth,
        depth < 64,
        n <= 16,
    ensures
        update_slots(store, children, depth, a, n) == update_slots(store, children, depth, b, n),
    decreases 64 - depth, n,
{
    if n > 0 {
        lemma_update_slots_order(store, children, depth, a, b, prefix, (n - 1) as nat);
        let nib = (n - 1) as u8;
        lemma_select_step(a, b, prefix, nib);
        lemma_update_ref_order(
            store,
            children[n - 1],
            depth + 1,
            a.filter(at_nibble(depth as int, nib)),
            b.filter(at_nibble(depth as int, nib)),
            prefix.push(nib),
        );
    }
}

/// The order of the updates does not matter: two listings of the same set of
/// updates, in which no key occurs twice, give the same new root and the same
/// created nodes, or fail with the same error.
pub proof fn law_order_independent(
    store: Seq<ProofNodeView>,
    root: Seq<u8>,
    a: Seq<TrieUpdateView>,
    b: Seq<TrieUpdateView>,
)
    requires
        same_entries(a, b),
        distinct_keys(a),
        distinct_keys(b),
    ensures
        apply_updates(store, root, a) == apply_updates(store, root, b),
{
    if keys_well_sized(a) {
        assert forall|i: int| 0 <= i < b.len() implies (#[trigger] b[i]).key.len() == 32 by {
            assert(b.contains(b[i]));
            assert(a.contains(b[i]));
            let j = choose|j: int| 0 <= j < a.len() && a[j] == b[i];
            assert(a[j].key.len() == 32);
        }
        assert forall|u: TrieUpdateView| a.contains(u) implies keyed(u, Seq::empty()) by {
            let j = choose|j: int| 0 <= j < a.len() && a[j] == u;
            assert(a[j].key.len() == 32);
        }
        lemma_update_ref_order(store, root_ref(root), 0, a, b, Seq::empty());
    } else {
        let i = choose|i: int| 0 <= i < a.len() && (#[trigger] a[i]).key.len() != 32;
        assert(a.contains(a[i]));
        assert(b.contains(a[i]));
        let j = choose|j: int| 0 <= j < b.len() && b[j] == a[i];
        assert(b[j].key.len() != 32);
    }
}

/// The same, said of permutations: applying the entries of a set of updates, in
/// which no key occurs twice, in any other order gives the same new root and
/// the same created nodes, or the same error.
pub proof fn law_permutation_independent(
    store: Seq<ProofNodeView>,
    root: Seq<u8>,
    a: Seq<TrieUpdateView>,
    b: Seq<TrieUpdateView>,
)
    requires
        distinct_keys(a),
        a.to_multiset() == b.to_multiset(),
    ensures
        apply_updates(store, root, a) == apply_updates(store, root, b),
{
    a.to_multiset_ensures();
    b.to_multiset_ensures();
    assert(same_entries(a, b)) by {
        assert forall|u: TrieUpdateView| a.contains(u) <==> b.contains(u) by {
            assert(a.contains(u) <==> a.to_multiset().count(u) > 0);
            assert(b.contains(u) <==> b.to_multiset().count(u) > 0);
        }
    }
    assert(a.no_duplicates()) by {
        assert forall|i: int, j: int| 0 <= i < a.len() && 0 <= j < a.len() && i != j implies a[i]
            != a[j] by {
            if i < j {
                assert(a[i].key != a[j].key);
            } else {
                assert(a[j].key != a[i].key);
            }
        }
    }
    a.lemma_multiset_has_no_duplicates();
    b.lemma_multiset_has_no_duplicates_conv();
    assert(distinct_keys(b)) by {
        assert forall|i: int, j: int| 0 <= i < j < b.len() implies b[i].key != b[j].key by {
            assert(b[i] != b[j]);
            assert(b.contains(b[i]) && b.contains(b[j]));
            let p = choose|p: int| 0 <= p < a.len() && a[p] == b[i];
            let q = choose|q: int| 0 <= q < a.len() && a[q] == b[j];
            if p < q {
                assert(a[p].key != a[q].key);
            } else {
                assert(a[q].key != a[p].key);
            }
        }
    }
    law_order_independent(store, root, a, b);
}

/// Every update writes the value that the subtree already holds under its key.
pub open spec fn confirms(
    store: Seq<ProofNodeView>,
    r: RefView,
    depth: nat,
    ups: Seq<TrieUpdateView>,
) -> bool {
    forall|u: TrieUpdateView|
        ups.contains(u) ==> lookup_ref(store, r, depth, u.key) == Ok::<
            Option<Seq<u8>>,
            TrieErrorView,
        >(u.value)
}

proof fn lemma_noop_ref(
    store: Seq<ProofNodeView>,
    r: RefView,
    depth: nat,
    ups: Seq<TrieUpdateView>,
)
    requires
        confirms(store, r, depth, ups),
        depth <= 64,
    ensures
        update_ref(store, r, depth, ups) == Ok::<crate::trie::Outcome, TrieErrorView>(unchanged()),
    decreases 64 - depth, 17nat,
{
    if ups.len() == 0 {
    } else if depth >= 64 {
        assert(ups.contains(ups.last()));
    } else {
        assert(ups.contains(ups[0]));
        match children_of(store, r, depth) {
            Err(e) => {},
            Ok(children) => {
                lemma_noop_slots(store, r, children, depth, ups, 16);
            },
        }
    }
}

proof fn lemma_noop_slots(
    store: Seq<ProofNodeView>,
    r: RefView,
    children: Seq<RefView>,
    depth: nat,
    ups: Seq<TrieUpdateView>,
    n: nat,
)
    requires
        confirms(store, r, depth, ups),
        children_of(store, r, depth) == Ok::<Seq<RefView>, TrieErrorView>(children),
        depth < 64,
        n <= 16,
    ensures
        update_slots(store, children, depth, ups, n) == Ok::<Slots, TrieErrorView>(
            Slots { children, changed: false, emitted: Seq::empty() },
        ),
    decreases 64 - depth, n,
{
    if n > 0 {
        lemma_noop_slots(store, r, children, depth, ups, (n - 1) as nat);
        let nib = (n - 1) as u8;
        let pred = at_nibble(depth as int, nib);
        let f = ups.filter(pred);
        lemma_filter_facts(ups, pred);
        assert forall|u: TrieUpdateView| f.contains(u) implies lookup_ref(
            store,
            children[n - 1],
            depth + 1,
            u.key,
        ) == Ok::<Option<Seq<u8>>, TrieErrorView>(u.value) by {
            assert(ups.contains(u) && pred(u));
            assert(lookup_ref(store, r, depth, u.key) == Ok::<Option<Seq<u8>>, TrieErrorView>(
                u.value,
            ));
        }
        lemma_noop_ref(store, children[n - 1], depth + 1, f);
        assert(Seq::<ProofNodeView>::empty() + Seq::<ProofNodeView>::empty() =~= Seq::<
            ProofNodeView,
        >::empty());
    }
}

/// Writes that change nothing leave every hash as it is: where each update
/// gives its key the value that the trie already holds under it (or deletes a
/// key that the trie does not hold), the root stays and no node is created.
pub proof fn law_noop_writes(store: Seq<ProofNodeView>, root: Seq<u8>, ups: Seq<TrieUpdateView>)
    requires
        forall|u: TrieUpdateView|
            ups.contains(u) ==> lookup(store, root, u.key) == Ok::<
                Option<Seq<u8>>,
                TrieErrorView,
            >(u.value),
    ensures
        apply_updates(store, root, ups) == Ok::<(Seq<u8>, Seq<ProofNodeView>), TrieErrorView>(
            (root, Seq::empty()),
        ),
{
    assert forall|i: int| 0 <= i < ups.len() implies (#[trigger] ups[i]).key.len() == 32 by {
        assert(ups.contains(ups[i]));
    }
    assert forall|u: TrieUpdateView| ups.contains(u) implies lookup_ref(
        store,
        root_ref(root),
        0,
        u.key,
    ) == Ok::<Option<Seq<u8>>, TrieErrorView>(u.value) by {
        assert(lookup(store, root, u.key) == Ok::<Option<Seq<u8>>, TrieErrorView>(u.value));
        let j = choose|j: int| 0 <= j < ups.len() && ups[j] == u;
        assert(ups[j].key.len() == 32);
    }
    lemma_noop_ref(store, root_ref(root), 0, ups);
}

/// The 64 nibbles of a key.
pub open spec fn nibbles_of(key: Seq<u8>) -> Seq<u8> {
    Seq::new(64, |d: int| nibble_at(key, d))
}

proof fn lemma_none_occupied(refs: Seq<RefView>)
    requires
        forall|i: int| 0 <= i < refs.len() ==> refs[i] is Empty,
    ensures
        count_occupied(refs) == 0,
    decreases refs.len(),
{
    if refs.len() > 0 {
        assert(refs.last() is Empty);
        lemma_none_occupied(refs.drop_last());
    }
}

proof fn lemma_one_occupied(refs: Seq<RefView>, at: int)
    requires
        0 <= at < refs.len(),
        !(refs[at] is Empty),
        forall|i: int| 0 <= i < refs.len() && i != at ==> refs[i] is Empty,
    ensures
        count_occupied(refs) == 1,
        last_occupied(refs) == at,
    decreases refs.len(),
{
    if at == refs.len() - 1 {
        lemma_none_occupied(refs.drop_last());
    } else {
        assert(refs.last() is Empty);
        lemma_one_occupied(refs.drop_last(), at);
    }
}

/// The leaf that holds `value` under `key`, as it stands at `depth`.
pub open spec fn leaf_at(key: Seq<u8>, value: Seq<u8>, depth: nat) -> RefView {
    RefView::Inline(NodeView::Leaf { path: nibbles_of(key).skip(depth as int), value })
}

proof fn lemma_insert_below_empty(
    store: Seq<ProofNodeView>,
    key: Seq<u8>,
    value: Seq<u8>,
    depth: nat,
)
    requires
        depth <= 64,
    ensures
        update_ref(
            store,
            RefView::Empty,
            depth,
            seq![TrieUpdateView { key, value: Some(value) }],
        ) == Ok::<Outcome, TrieErrorView>(
            Outcome { node: Some(leaf_at(key, value, depth)), emitted: Seq::empty() },
        ),
    decreases 64 - depth, 17nat,
{
    let u = TrieUpdateView { key, value: Some(value) };
    let ups = seq![u];
    assert(ups.last() == u);
    if depth >= 64 {
        assert(nibbles_of(key).skip(64) =~= Seq::empty());
    } else {
        let nib = nibble_at(key, depth as int);
        assert(nib < 16) by {
            let b = key[depth as int / 2];
            assert(b / 16 < 16 && b % 16 < 16);
        }
        lemma_insert_slots(store, key, value, depth, 16);
        let below = leaf_at(key, value, depth + 1);
        let after = empty_slots().update(nib as int, below);
        lemma_one_occupied(after, nib as int);
        let path = nibbles_of(key).skip(depth as int + 1);
        assert(seq![nib] + path =~= nibbles_of(key).skip(depth as int));
        assert(last_occupied(after) as u8 == nib);
        assert(Seq::<ProofNodeView>::empty() + Seq::<ProofNodeView>::empty() =~= Seq::<
            ProofNodeView,
        >::empty());
    }
}

proof fn lemma_insert_slots(
    store: Seq<ProofNodeView>,
    key: Seq<u8>,
    value: Seq<u8>,
    depth: nat,
    n: nat,
)
    requires
        depth < 64,
        n <= 16,
    ensures
        update_slots(
            store,
            empty_slots(),
            depth,
            seq![TrieUpdateView { key, value: Some(value) }],
            n,
        ) == Ok::<Slots, TrieErrorView>(
            if n > nibble_at(key, depth as int) {
                Slots {
                    children: empty_slots().update(
                        nibble_at(key, depth as int) as int,
                        leaf_at(key, value, depth + 1),
                    ),
                    changed: true,
                    emitted: Seq::empty(),
                }
            } else {
                Slots { children: empty_slots(), changed: false, emitted: Seq::empty() }
            },
        ),
    decreases 64 - depth, n,
{
    let u = TrieUpdateView { key, value: Some(value) };
    let ups = seq![u];
    if n > 0 {
        lemma_insert_slots(store, key, value, depth, (n - 1) as nat);
        let pred = at_nibble(depth as int, (n - 1) as u8);
        let nib = nibble_at(key, depth as int);
        assert(pred(u) == (nib == (n - 1) as u8));
        assert(empty_slots()[n - 1] == RefView::Empty);
        assert(ups.drop_last() =~= Seq::empty());
        assert(ups.last() == u);
        assert(ups.drop_last().filter(pred) =~= Seq::empty()) by {
            reveal(Seq::filter);
        }
        let prev = update_slots(store, empty_slots(), depth, ups, (n - 1) as nat);
        let child = update_ref(store, empty_slots()[n - 1], depth + 1, ups.filter(pred));
        if pred(u) {
            assert(ups.filter(pred) =~= seq![u]) by {
                reveal(Seq::filter);
            }
            lemma_insert_below_empty(store, key, value, depth + 1);
            assert(n - 1 == nib as int);
            assert(child == Ok::<Outcome, TrieErrorView>(
                Outcome { node: Some(leaf_at(key, value, depth + 1)), emitted: Seq::empty() },
            ));
            assert(prev == Ok::<Slots, TrieErrorView>(
                Slots { children: empty_slots(), changed: false, emitted: Seq::empty() },
            ));
        } else {
            assert(ups.filter(pred) =~= Seq::empty()) by {
                reveal(Seq::filter);
            }
            assert(child == Ok::<Outcome, TrieErrorView>(unchanged()));
        }
        assert(Seq::<ProofNodeView>::empty() + Seq::<ProofNodeView>::empty() =~= Seq::<
            ProofNodeView,
        >::empty());
    }
}

/// Inserting into a trie without entries gives a single leaf as root: the leaf
/// holds all 64 nibbles of the key, the new root is its hash, and it is the one
/// node created.
pub proof fn law_insert_into_empty(store: Seq<ProofNodeView>, key: Seq<u8>, value: Seq<u8>)
    requires
        key.len() == 32,
    ensures
        apply_updates(store, empty_root(), seq![TrieUpdateView { key, value: Some(value) }])
            == Ok::<(Seq<u8>, Seq<ProofNodeView>), TrieErrorView>(
            (
                seal(NodeView::Leaf { path: nibbles_of(key), value }).hash,
                seq![seal(NodeView::Leaf { path: nibbles_of(key), value })],
            ),
        ),
{
    lemma_insert_below_empty(store, key, value, 0);
    assert(nibbles_of(key).skip(0) =~= nibbles_of(key));
    let leaf = NodeView::Leaf { path: nibbles_of(key), value };
    assert(Seq::<ProofNodeView>::empty().push(seal(leaf)) =~= seq![seal(leaf)]);
}

} // verus!
