//! The state-diff extractor: what a block's replay changed, as a canonical set
//! of updates.

use vstd::prelude::*;
use crate::bytes::{copy_bytes, lex_less};
use crate::overlay::{entries_view, sorted, OverlayCache, OverlayEntryView};
use crate::proofs::{trie_key, trie_key_of};
use crate::trie::{updates_view, value_view, TrieUpdate, TrieUpdateView};

verus! {

/// The new value of one state key: `None` where the key was deleted.
#[derive(Debug, Clone, PartialEq, Eq)]
pub struct StateUpdate {
    pub key: Vec<u8>,
    pub value: Option<Vec<u8>>,
}

/// The mathematical value of a [`StateUpdate`].
pub struct StateUpdateView {
    pub key: Seq<u8>,
    pub value: Option<Seq<u8>>,
}

impl View for StateUpdate {
    type V = StateUpdateView;

    open spec fn view(&self) -> StateUpdateView {
        StateUpdateView { key: self.key@, value: value_view(self.value) }
    }
}

/// The mathematical value of a list of updates.
pub open spec fn state_updates_view(updates: Seq<StateUpdate>) -> Seq<StateUpdateView> {
    Seq::new(updates.len(), |i: int| updates[i]@)
}

/// Selects the entries whose value is no longer the one they started with.
pub open spec fn is_changed() -> spec_fn(OverlayEntryView) -> bool {
    |e: OverlayEntryView| e.initial != e.current
}

/// The update that a changed entry stands for.
pub open spec fn as_update() -> spec_fn(OverlayEntryView) -> StateUpdateView {
    |e: OverlayEntryView| StateUpdateView { key: e.key, value: e.current }
}

/// The diff of an overlay: the changed entries, in the overlay's order, each
/// with its key and its last value.
pub open spec fn diff_of(entries: Seq<OverlayEntryView>) -> Seq<StateUpdateView> {
    entries.filter(is_changed()).map_values(as_update())
}

/// The keys come in strictly rising order, so none occurs twice.
pub open spec fn rising(updates: Seq<StateUpdateView>) -> bool {
    forall|i: int, j: int| 0 <= i < j < updates.len() ==> lex_less(updates[i].key, updates[j].key)
}

/// The canonical diff of one block: updates in strictly rising key order.
#[derive(Debug, Clone, PartialEq, Eq)]
pub struct PlainStateUpdate {
    entries: Vec<StateUpdate>,
}

impl View for PlainStateUpdate {
    type V = Seq<StateUpdateView>;

    closed spec fn view(&self) -> Seq<StateUpdateView> {
        state_updates_view(self.entries@)
    }
}

proof fn lemma_filter_members(s: Seq<OverlayEntryView>, pred: spec_fn(OverlayEntryView) -> bool)
    ensures
        forall|e: OverlayEntryView| #[trigger]
            s.filter(pred).contains(e) <==> (s.contains(e) && pred(e)),
        sorted(s) ==> sorted(s.filter(pred)),
    decreases s.len(),
{
    reveal(Seq::filter);
    if s.len() == 0 {
        assert(s.filter(pred) =~= Seq::empty());
    } else {
        let d = s.drop_last();
        let last = s.last();
        let fd = d.filter(pred);
        let f = s.filter(pred);
        lemma_filter_members(d, pred);
        assert forall|e: OverlayEntryView| #[trigger]
            f.contains(e) <==> (s.contains(e) && pred(e)) by {
            if f.contains(e) {
                let i = choose|i: int| 0 <= i < f.len() && f[i] == e;
                if pred(last) && i == fd.len() {
                    assert(s[s.len() - 1] == e);
                } else {
                    assert(fd[i] == e);
                    assert(fd.contains(e));
                    let j = choose|j: int| 0 <= j < d.len() && d[j] == e;
                    assert(s[j] == e);
                }
            }
            if s.contains(e) && pred(e) {
                let j = choose|j: int| 0 <= j < s.len() && s[j] == e;
                if j == s.len() - 1 {
                    assert(f[f.len() - 1] == e);
                } else {
                    assert(d[j] == e);
                    assert(d.contains(e));
                    assert(fd.contains(e));
                    let i = choose|i: int| 0 <= i < fd.len() && fd[i] == e;
                    assert(f[i] == e);
                }
            }
        }
        if sorted(s) {
            assert(sorted(d)) by {
                assert forall|i: int, j: int| 0 <= i < j < d.len() implies lex_less(
                    d[i].key,
                    d[j].key,
                ) by {
                    assert(lex_less(s[i].key, s[j].key));
                }
            }
            assert forall|i: int, j: int| 0 <= i < j < f.len() implies lex_less(
                f[i].key,
                f[j].key,
            ) by {
                if pred(last) && j == fd.len() {
                    assert(fd.contains(fd[i]));
                    assert(d.contains(fd[i]));
                    let k = choose|k: int| 0 <= k < d.len() && d[k] == fd[i];
                    assert(lex_less(s[k].key, s[s.len() - 1].key));
                } else {
                    assert(lex_less(fd[i].key, fd[j].key));
                }
            }
        }
    }
}

/// The diff is canonical: its keys rise strictly, so no key occurs twice.
pub proof fn law_diff_is_canonical(entries: Seq<OverlayEntryView>)
    requires
        sorted(entries),
    ensures
        rising(diff_of(entries)),
{
    lemma_filter_members(entries, is_changed());
    let f = entries.filter(is_changed());
    assert forall|i: int, j: int| 0 <= i < j < diff_of(entries).len() implies lex_less(
        diff_of(entries)[i].key,
        diff_of(entries)[j].key,
    ) by {
        assert(lex_less(f[i].key, f[j].key));
    }
}

/// The diff holds exactly the changes: an update is in it just when the overlay
/// has an entry with that key whose last value is the update's value and
/// differs from the value the key started with.
pub proof fn law_diff_holds_changes(entries: Seq<OverlayEntryView>, u: StateUpdateView)
    ensures
        diff_of(entries).contains(u) <==> exists|e: OverlayEntryView|
            entries.contains(e) && e.key == u.key && e.current == u.value && e.initial
                != e.current,
{
    lemma_filter_members(entries, is_changed());
    let f = entries.filter(is_changed());
    let d = diff_of(entries);
    if d.contains(u) {
        let i = choose|i: int| 0 <= i < d.len() && d[i] == u;
        assert(f.contains(f[i]));
        assert(entries.contains(f[i]) && f[i].key == u.key && f[i].current == u.value);
    }
    if exists|e: OverlayEntryView|
        entries.contains(e) && e.key == u.key && e.current == u.value && e.initial != e.current {
        let e = choose|e: OverlayEntryView|
            entries.contains(e) && e.key == u.key && e.current == u.value && e.initial
                != e.current;
        assert(f.contains(e));
        let i = choose|i: int| 0 <= i < f.len() && f[i] == e;
        assert(d[i] == u);
    }
}

fn copy_value(value: &Option<Vec<u8>>) -> (out: Option<Vec<u8>>)
    ensures
        value_view(out) == value_view(*value),
{
    match value {
        Some(v) => Some(copy_bytes(v.as_slice())),
        None => None,
    }
}

fn same_value(a: &Option<Vec<u8>>, b: &Option<Vec<u8>>) -> (same: bool)
    ensures
        same == (value_view(*a) == value_view(*b)),
{
    match (a, b) {
        (None, None) => true,
        (Some(x), Some(y)) => crate::bytes::bytes_eq(x.as_slice(), y.as_slice()),
        _ => false,
    }
}

/// The trie updates that a diff stands for: each key replaced by its trie key.
pub open spec fn trie_updates_of(updates: Seq<StateUpdateView>) -> Seq<TrieUpdateView> {
    Seq::new(
        updates.len(),
        |i: int| TrieUpdateView { key: trie_key(updates[i].key), value: updates[i].value },
    )
}

impl PlainStateUpdate {
    /// Number of updates.
    pub fn len(&self) -> (n: usize)
        ensures
            n == self@.len(),
    {
        self.entries.len()
    }

    /// The updates, in rising key order.
    pub fn entries(&self) -> (entries: &Vec<StateUpdate>)
        ensures
            state_updates_view(entries@) == self@,
    {
        &self.entries
    }

    /// The updates as the trie takes them: each key replaced by its trie key.
    pub fn to_trie_updates(&self) -> (out: Vec<TrieUpdate>)
        ensures
            updates_view(out@) == trie_updates_of(self@),
    {
        let mut out: Vec<TrieUpdate> = Vec::new();
        let mut i: usize = 0;
        while i < self.entries.len()
            invariant
                i <= self.entries@.len(),
                out@.len() == i,
                forall|j: int|
                    0 <= j < i ==> (#[trigger] out@[j])@ == (TrieUpdateView {
                        key: trie_key(self.entries@[j]@.key),
                        value: self.entries@[j]@.value,
                    }),
            decreases self.entries@.len() - i,
        {
            let key = trie_key_of(self.entries[i].key.as_slice());
            out.push(TrieUpdate { key, value: copy_value(&self.entries[i].value) });
            i += 1;
        }
        assert(updates_view(out@) =~= trie_updates_of(self@));
        out
    }
}

/// Turns the overlay of a replay into the diff of the block.
pub struct StateDiffExtractor;

impl StateDiffExtractor {
    /// The canonical diff of an overlay: one update for each key whose last
    /// value differs from the value it started with, be it changed, created or
    /// deleted, in strictly rising key order. Keys that were only read, or
    /// written back to their first value, are left out.
    pub fn extract(overlay: &OverlayCache) -> (diff: PlainStateUpdate)
        ensures
            diff@ == diff_of(overlay@),
            rising(diff@),
    {
        let entries = overlay.entries();
        let ghost ev = entries_view(entries@);
        let mut out: Vec<StateUpdate> = Vec::new();
        let mut i: usize = 0;
        proof {
            reveal(Seq::filter);
            assert(ev.take(0) =~= Seq::empty());
            assert(state_updates_view(out@) =~= diff_of(ev.take(0)));
        }
        while i < entries.len()
            invariant
                i <= entries@.len(),
                ev == entries_view(entries@),
                state_updates_view(out@) == diff_of(ev.take(i as int)),
            decreases entries@.len() - i,
        {
            let ghost before = state_updates_view(out@);
            let ghost s = ev.take(i + 1);
            proof {
                reveal(Seq::filter);
                assert(s.drop_last() =~= ev.take(i as int));
                assert(s.last() == entries@[i as int]@);
            }
            let entry = &entries[i];
            if !same_value(&entry.initial, &entry.current) {
                let update = StateUpdate {
                    key: copy_bytes(entry.key.as_slice()),
                    value: copy_value(&entry.current),
                };
                out.push(update);
                assert(state_updates_view(out@) =~= before.push(update@));
                assert(diff_of(s) =~= diff_of(ev.take(i as int)).push(as_update()(s.last())));
            } else {
                assert(diff_of(s) =~= diff_of(ev.take(i as int)));
            }
            i += 1;
        }
        assert(ev.take(i as int) =~= ev);
        proof {
            law_diff_is_canonical(ev);
        }
        PlainStateUpdate { entries: out }
    }
}

} // verus!
