//! The overlay of one block's replay: every state key that the replay touched,
//! with the value it had when it was first touched and the value it has now.
//!
//! Writes land in the overlay and never reach the provider or the witness. A
//! key enters the overlay with the value that the provider gives for it, so a
//! key that the provider cannot resolve never enters it.

use vstd::prelude::*;
use crate::bytes::{bytes_eq, copy_bytes, lemma_lex_total, lemma_lex_transitive, lex_less, lex_lt};
use crate::state::{
    resolve_key, Resolution, ResolutionView, StateError, StateProvider, StateProviderView,
};
use crate::trie::value_view;

verus! {

/// A touched state key.
#[derive(Debug, Clone, PartialEq, Eq)]
pub struct OverlayEntry {
    pub key: Vec<u8>,
    /// The value that the provider gave when the key was first touched.
    pub initial: Option<Vec<u8>>,
    /// The value after the writes so far.
    pub current: Option<Vec<u8>>,
}

/// The mathematical value of an [`OverlayEntry`].
pub struct OverlayEntryView {
    pub key: Seq<u8>,
    pub initial: Option<Seq<u8>>,
    pub current: Option<Seq<u8>>,
}

impl View for OverlayEntry {
    type V = OverlayEntryView;

    open spec fn view(&self) -> OverlayEntryView {
        OverlayEntryView {
            key: self.key@,
            initial: value_view(self.initial),
            current: value_view(self.current),
        }
    }
}

/// The mathematical value of the entries of an overlay.
pub open spec fn entries_view(entries: Seq<OverlayEntry>) -> Seq<OverlayEntryView> {
    Seq::new(entries.len(), |i: int| entries[i]@)
}

/// The keys come in strictly rising order, so none occurs twice.
pub open spec fn sorted(entries: Seq<OverlayEntryView>) -> bool {
    forall|i: int, j: int| 0 <= i < j < entries.len() ==> lex_less(entries[i].key, entries[j].key)
}

/// Number of entries at the front whose key comes before `key`: the place where
/// `key` stands, or would stand.
pub open spec fn rank(entries: Seq<OverlayEntryView>, key: Seq<u8>) -> int
    decreases entries.len(),
{
    if entries.len() == 0 {
        0
    } else if lex_less(entries[0].key, key) {
        1 + rank(entries.skip(1), key)
    } else {
        0
    }
}

/// Whether the overlay holds `key`.
pub open spec fn holds(entries: Seq<OverlayEntryView>, key: Seq<u8>) -> bool {
    rank(entries, key) < entries.len() && entries[rank(entries, key)].key == key
}

/// The overlay after a read of `key`, and the value read.
pub open spec fn read_spec(
    entries: Seq<OverlayEntryView>,
    p: StateProviderView,
    key: Seq<u8>,
) -> Result<(Seq<OverlayEntryView>, Option<Seq<u8>>), StateError> {
    let at = rank(entries, key);
    if holds(entries, key) {
        Ok((entries, entries[at].current))
    } else {
        match resolve_key(p, key) {
            ResolutionView::Found(v) => Ok(
                (entries.insert(at, OverlayEntryView { key, initial: v, current: v }), v),
            ),
            ResolutionView::Fetch => Err(StateError::FallbackNeeded),
            ResolutionView::Unresolved => Err(StateError::Unresolved),
        }
    }
}

/// The overlay after `value` was written under `key`.
pub open spec fn write_spec(
    entries: Seq<OverlayEntryView>,
    p: StateProviderView,
    key: Seq<u8>,
    value: Option<Seq<u8>>,
) -> Result<Seq<OverlayEntryView>, StateError> {
    let at = rank(entries, key);
    if holds(entries, key) {
        Ok(
            entries.update(
                at,
                OverlayEntryView { key, initial: entries[at].initial, current: value },
            ),
        )
    } else {
        match resolve_key(p, key) {
            ResolutionView::Found(v) => Ok(
                entries.insert(at, OverlayEntryView { key, initial: v, current: value }),
            ),
            ResolutionView::Fetch => Err(StateError::FallbackNeeded),
            ResolutionView::Unresolved => Err(StateError::Unresolved),
        }
    }
}

proof fn lemma_rank_bounds(entries: Seq<OverlayEntryView>, key: Seq<u8>)
    ensures
        0 <= rank(entries, key) <= entries.len(),
        forall|i: int| 0 <= i < rank(entries, key) ==> lex_less(#[trigger] entries[i].key, key),
        rank(entries, key) < entries.len() ==> !lex_less(entries[rank(entries, key)].key, key),
    decreases entries.len(),
{
    if entries.len() > 0 && lex_less(entries[0].key, key) {
        let rest = entries.skip(1);
        lemma_rank_bounds(rest, key);
        assert forall|i: int| 0 <= i < rank(entries, key) implies lex_less(
            #[trigger] entries[i].key,
            key,
        ) by {
            if i > 0 {
                assert(rest[i - 1] == entries[i]);
            }
        }
        if rank(entries, key) < entries.len() {
            assert(rest[rank(rest, key)] == entries[rank(entries, key)]);
        }
    }
}

/// In a sorted overlay a key is held exactly where some entry has it.
pub proof fn law_held_keys(entries: Seq<OverlayEntryView>, key: Seq<u8>)
    requires
        sorted(entries),
    ensures
        holds(entries, key) <==> exists|i: int| 0 <= i < entries.len() && entries[i].key == key,
{
    lemma_rank_bounds(entries, key);
    let at = rank(entries, key);
    if exists|i: int| 0 <= i < entries.len() && entries[i].key == key {
        let i = choose|i: int| 0 <= i < entries.len() && entries[i].key == key;
        crate::bytes::lemma_lex_irreflexive(key);
        if i < at {
            assert(lex_less(entries[i].key, key));
        } else if i > at {
            assert(lex_less(entries[at].key, entries[i].key));
        }
    }
}

proof fn lemma_insert_keeps_sorted(entries: Seq<OverlayEntryView>, e: OverlayEntryView)
    requires
        sorted(entries),
        !holds(entries, e.key),
    ensures
        sorted(entries.insert(rank(entries, e.key), e)),
{
    let at = rank(entries, e.key);
    lemma_rank_bounds(entries, e.key);
    let longer = entries.insert(at, e);
    if at < entries.len() {
        lemma_lex_total(entries[at].key, e.key);
    }
    assert forall|i: int, j: int| 0 <= i < j < longer.len() implies lex_less(
        longer[i].key,
        longer[j].key,
    ) by {
        if j < at {
            assert(longer[i] == entries[i] && longer[j] == entries[j]);
        } else if j == at {
            assert(longer[i] == entries[i]);
        } else if i < at {
            assert(longer[i] == entries[i] && longer[j] == entries[j - 1]);
            if j - 1 == at {
                lemma_lex_transitive(entries[i].key, e.key, entries[at].key);
            } else {
                assert(lex_less(entries[at].key, entries[j - 1].key));
                lemma_lex_transitive(e.key, entries[at].key, entries[j - 1].key);
                lemma_lex_transitive(entries[i].key, e.key, entries[j - 1].key);
            }
        } else if i == at {
            assert(longer[j] == entries[j - 1]);
            if j - 1 > at {
                assert(lex_less(entries[at].key, entries[j - 1].key));
                lemma_lex_transitive(e.key, entries[at].key, entries[j - 1].key);
            }
        } else {
            assert(longer[i] == entries[i - 1] && longer[j] == entries[j - 1]);
        }
    }
}

proof fn lemma_update_keeps_sorted(entries: Seq<OverlayEntryView>, at: int, e: OverlayEntryView)
    requires
        sorted(entries),
        0 <= at < entries.len(),
        entries[at].key == e.key,
    ensures
        sorted(entries.update(at, e)),
{
    let changed = entries.update(at, e);
    assert forall|i: int, j: int| 0 <= i < j < changed.len() implies lex_less(
        changed[i].key,
        changed[j].key,
    ) by {
        assert(lex_less(entries[i].key, entries[j].key));
    }
}

/// A read leaves a sorted overlay sorted, and so does a write.
pub proof fn lemma_ops_keep_sorted(
    entries: Seq<OverlayEntryView>,
    p: StateProviderView,
    key: Seq<u8>,
    value: Option<Seq<u8>>,
)
    requires
        sorted(entries),
    ensures
        read_spec(entries, p, key) matches Ok(r) ==> sorted(r.0),
        write_spec(entries, p, key, value) matches Ok(w) ==> sorted(w),
{
    lemma_rank_bounds(entries, key);
    let at = rank(entries, key);
    if holds(entries, key) {
        lemma_update_keeps_sorted(
            entries,
            at,
            OverlayEntryView { key, initial: entries[at].initial, current: value },
        );
    } else {
        match resolve_key(p, key) {
            ResolutionView::Found(v) => {
                lemma_insert_keeps_sorted(
                    entries,
                    OverlayEntryView { key, initial: v, current: v },
                );
                lemma_insert_keeps_sorted(
                    entries,
                    OverlayEntryView { key, initial: v, current: value },
                );
            },
            _ => {},
        }
    }
}

proof fn lemma_rank_is(entries: Seq<OverlayEntryView>, key: Seq<u8>, k: int)
    requires
        0 <= k <= entries.len(),
        forall|i: int| 0 <= i < k ==> lex_less(#[trigger] entries[i].key, key),
        k < entries.len() ==> !lex_less(entries[k].key, key),
    ensures
        rank(entries, key) == k,
    decreases entries.len(),
{
    if k > 0 {
        assert(lex_less(entries[0].key, key));
        let rest = entries.skip(1);
        assert forall|i: int| 0 <= i < k - 1 implies lex_less(#[trigger] rest[i].key, key) by {
            assert(rest[i] == entries[i + 1]);
        }
        if k - 1 < rest.len() {
            assert(rest[k - 1] == entries[k]);
        }
        lemma_rank_is(rest, key, k - 1);
    }
}

/// The last write for a key wins: after a write, a read of the same key gives
/// the value written and leaves the overlay as it is.
pub proof fn law_write_then_read(
    entries: Seq<OverlayEntryView>,
    p: StateProviderView,
    key: Seq<u8>,
    value: Option<Seq<u8>>,
)
    requires
        sorted(entries),
        write_spec(entries, p, key, value) is Ok,
    ensures
        read_spec(write_spec(entries, p, key, value)->Ok_0, p, key) == Ok::<
            (Seq<OverlayEntryView>, Option<Seq<u8>>),
            StateError,
        >((write_spec(entries, p, key, value)->Ok_0, value)),
{
    let at = rank(entries, key);
    let w = write_spec(entries, p, key, value)->Ok_0;
    lemma_rank_bounds(entries, key);
    crate::bytes::lemma_lex_irreflexive(key);
    assert forall|i: int| 0 <= i < at implies lex_less(#[trigger] w[i].key, key) by {
        assert(w[i] == entries[i]);
    }
    assert(w[at].key == key);
    lemma_rank_is(w, key, at);
}

/// A write touches one key only: every entry with another key stays as it is,
/// and no entry with another key appears.
pub proof fn law_write_keeps_others(
    entries: Seq<OverlayEntryView>,
    p: StateProviderView,
    key: Seq<u8>,
    value: Option<Seq<u8>>,
    e: OverlayEntryView,
)
    requires
        write_spec(entries, p, key, value) is Ok,
        e.key != key,
    ensures
        write_spec(entries, p, key, value)->Ok_0.contains(e) <==> entries.contains(e),
{
    let at = rank(entries, key);
    let w = write_spec(entries, p, key, value)->Ok_0;
    lemma_rank_bounds(entries, key);
    if entries.contains(e) {
        let i = choose|i: int| 0 <= i < entries.len() && entries[i] == e;
        if holds(entries, key) {
            assert(w[i] == e);
        } else if i < at {
            assert(w[i] == e);
        } else {
            assert(w[i + 1] == e);
        }
    }
    if w.contains(e) {
        let i = choose|i: int| 0 <= i < w.len() && w[i] == e;
        if holds(entries, key) {
            assert(entries[i] == e);
        } else if i < at {
            assert(entries[i] == e);
        } else {
            assert(entries[i - 1] == e);
        }
    }
}

fn copy_value(value: &Option<Vec<u8>>) -> (out: Option<Vec<u8>>)
    ensures
        value_view(out) == value_view(*value),
{
    match value {
        Some(v) => Some(copy_bytes(v.as_slice())),
        None => None,
    }
}

/// The write-capturing layer in front of a state provider.
#[derive(Debug, PartialEq, Eq)]
pub struct OverlayCache {
    entries: Vec<OverlayEntry>,
}

impl View for OverlayCache {
    type V = Seq<OverlayEntryView>;

    closed spec fn view(&self) -> Seq<OverlayEntryView> {
        entries_view(self.entries@)
    }
}

impl OverlayCache {
    /// The entries are sorted by key.
    #[verifier::type_invariant]
    spec fn wf(&self) -> bool {
        sorted(entries_view(self.entries@))
    }

    /// An overlay that nothing has touched.
    pub fn new() -> (overlay: OverlayCache)
        ensures
            overlay@ == Seq::<OverlayEntryView>::empty(),
    {
        let entries: Vec<OverlayEntry> = Vec::new();
        assert(entries_view(entries@) =~= Seq::empty());
        OverlayCache { entries }
    }

    /// Number of touched keys.
    pub fn len(&self) -> (n: usize)
        ensures
            n == self@.len(),
    {
        self.entries.len()
    }

    /// The touched keys with their values, in strictly rising key order.
    pub fn entries(&self) -> (entries: &Vec<OverlayEntry>)
        ensures
            entries_view(entries@) == self@,
            sorted(self@),
    {
        proof {
            use_type_invariant(self);
        }
        &self.entries
    }

    /// The place where `key` stands or would stand, and whether it stands
    /// there.
    fn search(&self, key: &[u8]) -> (found: (usize, bool))
        ensures
            found.0 == rank(self@, key@),
            found.1 == holds(self@, key@),
            found.0 <= self@.len(),
    {
        let ghost ev = entries_view(self.entries@);
        assert(ev.skip(0) =~= ev);
        let mut i: usize = 0;
        while i < self.entries.len()
            invariant
                i <= self.entries@.len(),
                ev == entries_view(self.entries@),
                rank(ev, key@) == i + rank(ev.skip(i as int), key@),
            decreases self.entries@.len() - i,
        {
            assert(ev.skip(i as int)[0] == self.entries@[i as int]@);
            assert(ev.skip(i as int).skip(1) =~= ev.skip(i + 1));
            if !lex_lt(self.entries[i].key.as_slice(), key) {
                let same = bytes_eq(self.entries[i].key.as_slice(), key);
                return (i, same);
            }
            i += 1;
        }
        assert(ev.skip(i as int).len() == 0);
        (i, false)
    }

    /// Reads `key` through the overlay: the value of the latest write, or,
    /// where the key was not touched before, the value that the provider gives,
    /// which the overlay then records. The provider is not changed.
    pub fn read(&mut self, provider: &StateProvider, key: &[u8]) -> (res: Result<
        Option<Vec<u8>>,
        StateError,
    >)
        ensures
            match res {
                Ok(v) => read_spec(old(self)@, provider@, key@) == Ok::<
                    (Seq<OverlayEntryView>, Option<Seq<u8>>),
                    StateError,
                >((final(self)@, value_view(v))),
                Err(e) => read_spec(old(self)@, provider@, key@) == Err::<
                    (Seq<OverlayEntryView>, Option<Seq<u8>>),
                    StateError,
                >(e) && final(self)@ == old(self)@,
            },
    {
        proof {
            use_type_invariant(&*self);
            lemma_ops_keep_sorted(self@, provider@, key@, None);
        }
        let (at, found) = self.search(key);
        if found {
            return Ok(copy_value(&self.entries[at].current));
        }
        match provider.resolve(key) {
            Resolution::Found(v) => {
                let ghost before = entries_view(self.entries@);
                let entry = OverlayEntry {
                    key: copy_bytes(key),
                    initial: copy_value(&v),
                    current: copy_value(&v),
                };
                let mut entries: Vec<OverlayEntry> = Vec::new();
                assert(sorted(entries_view(entries@)));
                std::mem::swap(&mut entries, &mut self.entries);
                entries.insert(at, entry);
                assert(entries_view(entries@) =~= before.insert(at as int, entry@));
                self.entries = entries;
                Ok(v)
            },
            Resolution::Fetch => Err(StateError::FallbackNeeded),
            Resolution::Unresolved => Err(StateError::Unresolved),
        }
    }

    /// Writes `value` under `key` into the overlay: `None` deletes the key. A
    /// key that was not touched before is first given the value that the
    /// provider has for it, so that a later comparison can tell a change from a
    /// write of the old value. The provider is not changed.
    pub fn write(&mut self, provider: &StateProvider, key: &[u8], value: Option<Vec<u8>>) -> (res:
        Result<(), StateError>)
        ensures
            match res {
                Ok(_) => write_spec(old(self)@, provider@, key@, value_view(value)) == Ok::<
                    Seq<OverlayEntryView>,
                    StateError,
                >(final(self)@),
                Err(e) => write_spec(old(self)@, provider@, key@, value_view(value)) == Err::<
                    Seq<OverlayEntryView>,
                    StateError,
                >(e) && final(self)@ == old(self)@,
            },
    {
        proof {
            use_type_invariant(&*self);
            lemma_ops_keep_sorted(self@, provider@, key@, value_view(value));
        }
        let (at, found) = self.search(key);
        let ghost before = entries_view(self.entries@);
        if found {
            let entry = OverlayEntry {
                key: copy_bytes(key),
                initial: copy_value(&self.entries[at].initial),
                current: value,
            };
            let mut entries: Vec<OverlayEntry> = Vec::new();
            assert(sorted(entries_view(entries@)));
            std::mem::swap(&mut entries, &mut self.entries);
            entries.set(at, entry);
            assert(entries_view(entries@) =~= before.update(at as int, entry@));
            self.entries = entries;
            return Ok(());
        }
        match provider.resolve(key) {
            Resolution::Found(v) => {
                let entry = OverlayEntry { key: copy_bytes(key), initial: v, current: value };
                let mut entries: Vec<OverlayEntry> = Vec::new();
                assert(sorted(entries_view(entries@)));
                std::mem::swap(&mut entries, &mut self.entries);
                entries.insert(at, entry);
                assert(entries_view(entries@) =~= before.insert(at as int, entry@));
                self.entries = entries;
                Ok(())
            },
            Resolution::Fetch => Err(StateError::FallbackNeeded),
            Resolution::Unresolved => Err(StateError::Unresolved),
        }
    }
}

} // verus!
