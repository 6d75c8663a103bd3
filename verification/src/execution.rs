//! The execution adapter: applies what the execution engine did, transaction by
//! transaction, to an overlay in front of the state provider.
//!
//! The engine itself is not part of this library. For each transaction it
//! reports either that it rejected the transaction, or the state accesses that
//! the transaction made, in the order in which it made them.

use vstd::prelude::*;
use crate::overlay::{read_spec, write_spec, OverlayCache, OverlayEntryView};
use crate::state::{resolve_key, StateError, StateProvider, StateProviderView};
use crate::trie::value_view;

verus! {

/// One access of a transaction to the state.
#[derive(Debug, Clone, PartialEq, Eq)]
pub enum Access {
    Read { key: Vec<u8> },
    /// `None` deletes the key.
    Write { key: Vec<u8>, value: Option<Vec<u8>> },
}

/// The mathematical value of an [`Access`].
pub enum AccessView {
    Read { key: Seq<u8> },
    Write { key: Seq<u8>, value: Option<Seq<u8>> },
}

impl View for Access {
    type V = AccessView;

    open spec fn view(&self) -> AccessView {
        match *self {
            Access::Read { key } => AccessView::Read { key: key@ },
            Access::Write { key, value } => AccessView::Write {
                key: key@,
                value: value_view(value),
            },
        }
    }
}

/// The mathematical value of a list of accesses.
pub open spec fn accesses_view(accesses: Seq<Access>) -> Seq<AccessView> {
    Seq::new(accesses.len(), |i: int| accesses[i]@)
}

/// What the engine reports of one transaction.
#[derive(Debug, Clone, PartialEq, Eq)]
pub enum TxResult {
    /// The transaction ran and made these accesses.
    Executed { accesses: Vec<Access> },
    /// The engine rejected the transaction, with its own code for the reason.
    Rejected { code: u32 },
}

/// The mathematical value of a [`TxResult`].
pub enum TxResultView {
    Executed { accesses: Seq<AccessView> },
    Rejected { code: u32 },
}

impl View for TxResult {
    type V = TxResultView;

    open spec fn view(&self) -> TxResultView {
        match *self {
            TxResult::Executed { accesses } => TxResultView::Executed {
                accesses: accesses_view(accesses@),
            },
            TxResult::Rejected { code } => TxResultView::Rejected { code },
        }
    }
}

/// The mathematical value of the reports of a block's transactions.
pub open spec fn txs_view(txs: Seq<TxResult>) -> Seq<TxResultView> {
    Seq::new(txs.len(), |i: int| txs[i]@)
}

/// Why the replay of a block was given up.
#[derive(Debug, Clone, Copy, PartialEq, Eq, Structural)]
pub enum ExecutionError {
    /// The engine rejected the transaction at `index`.
    Transaction { index: usize, code: u32 },
    /// The transaction at `index` touched a key that the provider could not
    /// resolve.
    State { index: usize, error: StateError },
}

/// The key that an access touches.
pub open spec fn access_key(a: AccessView) -> Seq<u8> {
    match a {
        AccessView::Read { key } => key,
        AccessView::Write { key, value } => key,
    }
}

/// The overlay after one access.
pub open spec fn apply_access(
    entries: Seq<OverlayEntryView>,
    p: StateProviderView,
    a: AccessView,
) -> Result<
    Seq<OverlayEntryView>,
    StateError,
> {
    match a {
        AccessView::Read { key } => match read_spec(entries, p, key) {
            Ok(r) => Ok(r.0),
            Err(e) => Err(e),
        },
        AccessView::Write { key, value } => write_spec(entries, p, key, value),
    }
}

/// The overlay after the first `n` of `accesses`, in order.
pub open spec fn run_accesses(
    entries: Seq<OverlayEntryView>,
    p: StateProviderView,
    accesses: Seq<AccessView>,
    n: nat,
) -> Result<Seq<OverlayEntryView>, StateError>
    decreases n,
{
    if n == 0 {
        Ok(entries)
    } else {
        match run_accesses(entries, p, accesses, (n - 1) as nat) {
            Err(e) => Err(e),
            Ok(before) => apply_access(before, p, accesses[n - 1]),
        }
    }
}

/// The overlay after the transaction at `index`.
pub open spec fn apply_tx(
    entries: Seq<OverlayEntryView>,
    p: StateProviderView,
    tx: TxResultView,
    index: nat,
) -> Result<Seq<OverlayEntryView>, ExecutionError> {
    match tx {
        TxResultView::Rejected { code } => Err(
            ExecutionError::Transaction { index: index as usize, code },
        ),
        TxResultView::Executed { accesses } => match run_accesses(
            entries,
            p,
            accesses,
            accesses.len(),
        ) {
            Ok(after) => Ok(after),
            Err(error) => Err(ExecutionError::State { index: index as usize, error }),
        },
    }
}

/// The overlay after the first `n` transactions of a block, in the block's
/// order, starting from an overlay that nothing has touched. The first
/// transaction that fails ends the replay.
pub open spec fn replay_spec(p: StateProviderView, txs: Seq<TxResultView>, n: nat) -> Result<
    Seq<OverlayEntryView>,
    ExecutionError,
>
    decreases n,
{
    if n == 0 {
        Ok(Seq::empty())
    } else {
        match replay_spec(p, txs, (n - 1) as nat) {
            Err(e) => Err(e),
            Ok(before) => apply_tx(before, p, txs[n - 1], (n - 1) as nat),
        }
    }
}

proof fn lemma_run_fails(
    entries: Seq<OverlayEntryView>,
    p: StateProviderView,
    accesses: Seq<AccessView>,
    k: nat,
    n: nat,
)
    requires
        k <= n,
        run_accesses(entries, p, accesses, k) is Err,
    ensures
        run_accesses(entries, p, accesses, n) == run_accesses(entries, p, accesses, k),
    decreases n,
{
    if k < n {
        lemma_run_fails(entries, p, accesses, k, (n - 1) as nat);
    }
}

proof fn lemma_replay_fails(p: StateProviderView, txs: Seq<TxResultView>, k: nat, n: nat)
    requires
        k <= n,
        replay_spec(p, txs, k) is Err,
    ensures
        replay_spec(p, txs, n) == replay_spec(p, txs, k),
    decreases n,
{
    if k < n {
        lemma_replay_fails(p, txs, k, (n - 1) as nat);
    }
}

/// Applies the accesses of one transaction to the overlay.
fn run(overlay: &mut OverlayCache, provider: &StateProvider, accesses: &Vec<Access>) -> (res:
    Result<(), StateError>)
    ensures
        match res {
            Ok(_) => run_accesses(
                old(overlay)@,
                provider@,
                accesses_view(accesses@),
                accesses@.len(),
            ) == Ok::<Seq<OverlayEntryView>, StateError>(final(overlay)@),
            Err(e) => run_accesses(
                old(overlay)@,
                provider@,
                accesses_view(accesses@),
                accesses@.len(),
            ) == Err::<Seq<OverlayEntryView>, StateError>(e),
        },
{
    let ghost start = overlay@;
    let ghost av = accesses_view(accesses@);
    let mut i: usize = 0;
    while i < accesses.len()
        invariant
            i <= accesses@.len(),
            av == accesses_view(accesses@),
            start == old(overlay)@,
            run_accesses(start, provider@, av, i as nat) == Ok::<
                Seq<OverlayEntryView>,
                StateError,
            >(overlay@),
        decreases accesses@.len() - i,
    {
        let outcome = match &accesses[i] {
            Access::Read { key } => match overlay.read(provider, key.as_slice()) {
                Ok(_) => Ok(()),
                Err(e) => Err(e),
            },
            Access::Write { key, value } => {
                let copy = match value {
                    Some(v) => Some(crate::bytes::copy_bytes(v.as_slice())),
                    None => None,
                };
                overlay.write(provider, key.as_slice(), copy)
            },
        };
        match outcome {
            Ok(_) => {},
            Err(e) => {
                proof {
                    assert(run_accesses(start, provider@, av, (i + 1) as nat) == Err::<
                        Seq<OverlayEntryView>,
                        StateError,
                    >(e));
                    lemma_run_fails(start, provider@, av, (i + 1) as nat, av.len());
                }
                return Err(e);
            },
        }
        i += 1;
    }
    Ok(())
}

/// Replays a block against a state provider.
pub struct ExecutionAdapter;

impl ExecutionAdapter {
    /// Applies the transactions of a block, in the block's order, to a fresh
    /// overlay in front of `provider`, and returns the overlay: every key that
    /// was read or written, with its first and its last value. The replay ends
    /// with an error at the first transaction that the engine rejected or that
    /// touched a key the provider cannot resolve. The provider is not changed.
    pub fn replay(provider: &StateProvider, txs: &Vec<TxResult>) -> (res: Result<
        OverlayCache,
        ExecutionError,
    >)
        ensures
            match res {
                Ok(overlay) => replay_spec(provider@, txs_view(txs@), txs@.len()) == Ok::<
                    Seq<OverlayEntryView>,
                    ExecutionError,
                >(overlay@),
                Err(e) => replay_spec(provider@, txs_view(txs@), txs@.len()) == Err::<
                    Seq<OverlayEntryView>,
                    ExecutionError,
                >(e),
            },
    {
        let ghost tv = txs_view(txs@);
        let mut overlay = OverlayCache::new();
        let mut i: usize = 0;
        while i < txs.len()
            invariant
                i <= txs@.len(),
                tv == txs_view(txs@),
                replay_spec(provider@, tv, i as nat) == Ok::<
                    Seq<OverlayEntryView>,
                    ExecutionError,
                >(overlay@),
            decreases txs@.len() - i,
        {
            let failure = match &txs[i] {
                TxResult::Rejected { code } => Some(
                    ExecutionError::Transaction { index: i, code: *code },
                ),
                TxResult::Executed { accesses } => match run(&mut overlay, provider, accesses) {
                    Ok(_) => None,
                    Err(error) => Some(ExecutionError::State { index: i, error }),
                },
            };
            match failure {
                None => {},
                Some(e) => {
                    proof {
                        assert(replay_spec(provider@, tv, (i + 1) as nat) == Err::<
                            Seq<OverlayEntryView>,
                            ExecutionError,
                        >(e));
                        lemma_replay_fails(provider@, tv, (i + 1) as nat, tv.len());
                    }
                    return Err(e);
                },
            }
            i += 1;
        }
        Ok(overlay)
    }
}

/// The accesses that a transaction made: none where it was rejected.
pub open spec fn tx_accesses(tx: TxResultView) -> Seq<AccessView> {
    match tx {
        TxResultView::Executed { accesses } => accesses,
        TxResultView::Rejected { code } => Seq::empty(),
    }
}

/// Whether some transaction touches `key`.
pub open spec fn touches(txs: Seq<TxResultView>, key: Seq<u8>) -> bool {
    exists|i: int, j: int|
        0 <= i < txs.len() && 0 <= j < tx_accesses(txs[i]).len() && access_key(
            #[trigger] tx_accesses(txs[i])[j],
        ) == key
}

proof fn lemma_run_same(
    entries: Seq<OverlayEntryView>,
    p: StateProviderView,
    q: StateProviderView,
    accesses: Seq<AccessView>,
    n: nat,
)
    requires
        n <= accesses.len(),
        forall|j: int|
            0 <= j < accesses.len() ==> resolve_key(p, access_key(#[trigger] accesses[j]))
                == resolve_key(q, access_key(accesses[j])),
    ensures
        run_accesses(entries, p, accesses, n) == run_accesses(entries, q, accesses, n),
    decreases n,
{
    if n > 0 {
        lemma_run_same(entries, p, q, accesses, (n - 1) as nat);
        let a = accesses[n - 1];
        assert(resolve_key(p, access_key(a)) == resolve_key(q, access_key(a)));
    }
}

/// Two providers that know the same of every key that the transactions touch
/// give the same overlay, or the same failure. So a replay against a witness
/// that covers the touched keys cannot be told from a replay against the full
/// state.
pub proof fn law_replay_equivalence(
    p: StateProviderView,
    q: StateProviderView,
    txs: Seq<TxResultView>,
    n: nat,
)
    requires
        n <= txs.len(),
        forall|key: Seq<u8>| touches(txs, key) ==> resolve_key(p, key) == resolve_key(q, key),
    ensures
        replay_spec(p, txs, n) == replay_spec(q, txs, n),
    decreases n,
{
    if n > 0 {
        law_replay_equivalence(p, q, txs, (n - 1) as nat);
        match txs[n - 1] {
            TxResultView::Rejected { code } => {},
            TxResultView::Executed { accesses } => {
                assert forall|j: int| 0 <= j < accesses.len() implies resolve_key(
                    p,
                    access_key(#[trigger] accesses[j]),
                ) == resolve_key(q, access_key(accesses[j])) by {
                    assert(tx_accesses(txs[n - 1])[j] == accesses[j]);
                    assert(touches(txs, access_key(accesses[j])));
                }
                match replay_spec(p, txs, (n - 1) as nat) {
                    Ok(before) => {
                        lemma_run_same(before, p, q, accesses, accesses.len());
                    },
                    Err(_) => {},
                }
            },
        }
    }
}

} // verus!
