//! The read-only view of the state that a witness backs.
//!
//! A lookup is answered from the leaves of the witness. A key that the witness
//! does not hold is never given a made-up value: it is unresolved, or, where
//! the provider allows it, is to be fetched from elsewhere and handed in, after
//! which the provider keeps answering with the value it was first given.

use vstd::prelude::*;
use vstd::bytes::*;
use vstd::slice::slice_subrange;
use crate::bytes::{append_bytes, bytes_eq, copy_bytes, copy_range};
use crate::hash::{hash_bytes, keccak256};
use crate::trie::value_view;
use crate::witness::{leaves_view, WitnessLeaf, WitnessLeafView};

verus! {

/// Why a lookup gave no answer.
#[derive(Debug, Clone, Copy, PartialEq, Eq, Structural)]
pub enum StateError {
    /// The witness does not hold the key and nothing else may be asked.
    Unresolved,
    /// The witness does not hold the key; its value is to be fetched and handed
    /// to the provider.
    FallbackNeeded,
    /// The value under the key is not of the form that was asked for.
    MalformedValue,
    /// An address is not 20 bytes or a slot is not 32 bytes long.
    KeyLength,
    /// The bytecode table holds no code for the hash.
    UnknownCode,
    /// The bytecode in the table does not hash to the hash it is filed under.
    CodeMismatch,
}

/// An account as the state holds it.
#[derive(Debug, Clone, PartialEq, Eq)]
pub struct Account {
    pub nonce: u64,
    /// 32 bytes, big-endian.
    pub balance: Vec<u8>,
    pub code_hash: Vec<u8>,
    pub storage_root: Vec<u8>,
}

/// The mathematical value of an [`Account`].
pub struct AccountView {
    pub nonce: u64,
    pub balance: Seq<u8>,
    pub code_hash: Seq<u8>,
    pub storage_root: Seq<u8>,
}

impl View for Account {
    type V = AccountView;

    open spec fn view(&self) -> AccountView {
        AccountView {
            nonce: self.nonce,
            balance: self.balance@,
            code_hash: self.code_hash@,
            storage_root: self.storage_root@,
        }
    }
}

/// The shape of an account that can be encoded: three fields of 32 bytes.
pub open spec fn wf_account(a: AccountView) -> bool {
    a.balance.len() == 32 && a.code_hash.len() == 32 && a.storage_root.len() == 32
}

/// The value that stands for an account: the nonce as 8 little-endian bytes,
/// the balance, the code hash and the storage root.
pub open spec fn ser_account(a: AccountView) -> Seq<u8> {
    spec_u64_to_le_bytes(a.nonce) + a.balance + a.code_hash + a.storage_root
}

/// The account that a value stands for.
pub open spec fn parse_account(b: Seq<u8>) -> Option<AccountView> {
    if b.len() != 104 {
        None
    } else {
        Some(
            AccountView {
                nonce: spec_u64_from_le_bytes(b.subrange(0, 8)),
                balance: b.subrange(8, 40),
                code_hash: b.subrange(40, 72),
                storage_root: b.subrange(72, 104),
            },
        )
    }
}

/// Encoding an account and decoding the value gives the account back.
pub proof fn law_account_encode_then_decode(a: AccountView)
    requires
        wf_account(a),
    ensures
        parse_account(ser_account(a)) == Some(a),
{
    lemma_auto_spec_u64_to_from_le_bytes();
    let b = ser_account(a);
    assert(b.subrange(0, 8) =~= spec_u64_to_le_bytes(a.nonce));
    assert(b.subrange(8, 40) =~= a.balance);
    assert(b.subrange(40, 72) =~= a.code_hash);
    assert(b.subrange(72, 104) =~= a.storage_root);
}

/// A value that decodes to an account is the encoding of that account.
pub proof fn law_account_decode_then_encode(b: Seq<u8>, a: AccountView)
    requires
        parse_account(b) == Some(a),
    ensures
        ser_account(a) == b,
        wf_account(a),
{
    lemma_auto_spec_u64_to_from_le_bytes();
    assert(spec_u64_to_le_bytes(spec_u64_from_le_bytes(b.subrange(0, 8))) == b.subrange(0, 8));
    assert(ser_account(a) =~= b);
}

/// The mathematical value of an account that may be missing.
pub open spec fn account_option_view(a: Option<Account>) -> Option<AccountView> {
    match a {
        Some(a) => Some(a@),
        None => None,
    }
}

/// Decodes the value of an account.
pub fn decode_account(bytes: &[u8]) -> (account: Option<Account>)
    ensures
        account_option_view(account) == parse_account(bytes@),
{
    if bytes.len() != 104 {
        return None;
    }
    let nonce = u64_from_le_bytes(slice_subrange(bytes, 0, 8));
    Some(
        Account {
            nonce,
            balance: copy_range(bytes, 8, 40),
            code_hash: copy_range(bytes, 40, 72),
            storage_root: copy_range(bytes, 72, 104),
        },
    )
}

/// Encodes an account as a value.
pub fn encode_account(account: &Account) -> (bytes: Vec<u8>)
    ensures
        bytes@ == ser_account(account@),
{
    let mut out = u64_to_le_bytes(account.nonce);
    append_bytes(&mut out, account.balance.as_slice());
    append_bytes(&mut out, account.code_hash.as_slice());
    append_bytes(&mut out, account.storage_root.as_slice());
    out
}

/// The state key of an account.
pub open spec fn account_key(address: Seq<u8>) -> Seq<u8> {
    address
}

/// The state key of a storage slot.
pub open spec fn storage_key(address: Seq<u8>, slot: Seq<u8>) -> Seq<u8> {
    address + slot
}

/// The state key of the storage slot `slot` of the account at `address`.
pub fn storage_key_of(address: &[u8], slot: &[u8]) -> (key: Vec<u8>)
    ensures
        key@ == storage_key(address@, slot@),
{
    let mut key = copy_bytes(address);
    append_bytes(&mut key, slot);
    key
}

/// The bytecode of a contract, filed under its hash.
#[derive(Debug, Clone, PartialEq, Eq)]
pub struct Contract {
    pub code_hash: Vec<u8>,
    pub code: Vec<u8>,
}

/// The mathematical value of a [`Contract`].
pub struct ContractView {
    pub code_hash: Seq<u8>,
    pub code: Seq<u8>,
}

impl View for Contract {
    type V = ContractView;

    open spec fn view(&self) -> ContractView {
        ContractView { code_hash: self.code_hash@, code: self.code@ }
    }
}

/// The mathematical value of a bytecode table.
pub open spec fn contracts_view(contracts: Seq<Contract>) -> Seq<ContractView> {
    Seq::new(contracts.len(), |i: int| contracts[i]@)
}

/// The value of the first leaf with key `key`.
pub open spec fn find_leaf(leaves: Seq<WitnessLeafView>, key: Seq<u8>) -> Option<Option<Seq<u8>>>
    decreases leaves.len(),
{
    if leaves.len() == 0 {
        None
    } else if leaves[0].key == key {
        Some(leaves[0].value)
    } else {
        find_leaf(leaves.skip(1), key)
    }
}

/// The code of the first contract filed under `code_hash`.
pub open spec fn find_code(contracts: Seq<ContractView>, code_hash: Seq<u8>) -> Option<Seq<u8>>
    decreases contracts.len(),
{
    if contracts.len() == 0 {
        None
    } else if contracts[0].code_hash == code_hash {
        Some(contracts[0].code)
    } else {
        find_code(contracts.skip(1), code_hash)
    }
}

/// What a provider knows of a key.
#[derive(Debug, Clone, PartialEq, Eq)]
pub enum Resolution {
    /// The value under the key: `None` where the state holds no such key.
    Found(Option<Vec<u8>>),
    /// The provider does not know the key and allows its value to be fetched.
    Fetch,
    /// The provider does not know the key and nothing else may be asked.
    Unresolved,
}

/// The mathematical value of a [`Resolution`].
pub enum ResolutionView {
    Found(Option<Seq<u8>>),
    Fetch,
    Unresolved,
}

impl View for Resolution {
    type V = ResolutionView;

    open spec fn view(&self) -> ResolutionView {
        match *self {
            Resolution::Found(v) => ResolutionView::Found(value_view(v)),
            Resolution::Fetch => ResolutionView::Fetch,
            Resolution::Unresolved => ResolutionView::Unresolved,
        }
    }
}

/// The read-only state view of one block's replay.
#[derive(Debug, Clone, PartialEq, Eq)]
pub struct StateProvider {
    /// The leaves of the witness.
    pub leaves: Vec<WitnessLeaf>,
    /// The bytecode table.
    pub contracts: Vec<Contract>,
    /// Whether values that the witness lacks may be fetched from elsewhere.
    pub allow_fallback: bool,
    /// The values that were fetched, each kept as it was first handed in.
    pub fetched: Vec<WitnessLeaf>,
}

/// The mathematical value of a [`StateProvider`].
pub struct StateProviderView {
    pub leaves: Seq<WitnessLeafView>,
    pub contracts: Seq<ContractView>,
    pub allow_fallback: bool,
    pub fetched: Seq<WitnessLeafView>,
}

impl View for StateProvider {
    type V = StateProviderView;

    open spec fn view(&self) -> StateProviderView {
        StateProviderView {
            leaves: leaves_view(self.leaves@),
            contracts: contracts_view(self.contracts@),
            allow_fallback: self.allow_fallback,
            fetched: leaves_view(self.fetched@),
        }
    }
}

/// What the provider knows of `key`: the witness first, then what was fetched.
pub open spec fn resolve_key(p: StateProviderView, key: Seq<u8>) -> ResolutionView {
    match find_leaf(p.leaves, key) {
        Some(v) => ResolutionView::Found(v),
        None => match find_leaf(p.fetched, key) {
            Some(v) => ResolutionView::Found(v),
            None => if p.allow_fallback {
                ResolutionView::Fetch
            } else {
                ResolutionView::Unresolved
            },
        },
    }
}

/// The provider after `value` was handed in for `key`: it is kept only where
/// the provider asked for it.
pub open spec fn supplied(
    p: StateProviderView,
    key: Seq<u8>,
    value: Option<Seq<u8>>,
) -> StateProviderView {
    if resolve_key(p, key) is Fetch {
        StateProviderView {
            leaves: p.leaves,
            contracts: p.contracts,
            allow_fallback: p.allow_fallback,
            fetched: p.fetched.push(WitnessLeafView { key, value }),
        }
    } else {
        p
    }
}

/// The account at `address`.
pub open spec fn account_of(p: StateProviderView, address: Seq<u8>) -> Result<
    Option<AccountView>,
    StateError,
> {
    if address.len() != 20 {
        Err(StateError::KeyLength)
    } else {
        match resolve_key(p, account_key(address)) {
            ResolutionView::Unresolved => Err(StateError::Unresolved),
            ResolutionView::Fetch => Err(StateError::FallbackNeeded),
            ResolutionView::Found(None) => Ok(None),
            ResolutionView::Found(Some(b)) => match parse_account(b) {
                None => Err(StateError::MalformedValue),
                Some(a) => Ok(Some(a)),
            },
        }
    }
}

/// The value in slot `slot` of the account at `address`.
pub open spec fn storage_of(p: StateProviderView, address: Seq<u8>, slot: Seq<u8>) -> Result<
    Option<Seq<u8>>,
    StateError,
> {
    if address.len() != 20 || slot.len() != 32 {
        Err(StateError::KeyLength)
    } else {
        match resolve_key(p, storage_key(address, slot)) {
            ResolutionView::Unresolved => Err(StateError::Unresolved),
            ResolutionView::Fetch => Err(StateError::FallbackNeeded),
            ResolutionView::Found(None) => Ok(None),
            ResolutionView::Found(Some(b)) => if b.len() != 32 {
                Err(StateError::MalformedValue)
            } else {
                Ok(Some(b))
            },
        }
    }
}

/// The bytecode with hash `code_hash`.
pub open spec fn code_of(p: StateProviderView, code_hash: Seq<u8>) -> Result<Seq<u8>, StateError> {
    match find_code(p.contracts, code_hash) {
        None => Err(StateError::UnknownCode),
        Some(code) => if keccak256(code) != code_hash {
            Err(StateError::CodeMismatch)
        } else {
            Ok(code)
        },
    }
}

/// Index of the first leaf with key `key`.
fn find_leaf_index(leaves: &Vec<WitnessLeaf>, key: &[u8]) -> (found: Option<usize>)
    ensures
        match found {
            Some(i) => i < leaves@.len() && find_leaf(leaves_view(leaves@), key@) == Some(
                value_view(leaves@[i as int].value),
            ),
            None => find_leaf(leaves_view(leaves@), key@) is None,
        },
{
    let ghost lv = leaves_view(leaves@);
    assert(lv.skip(0) =~= lv);
    let mut i: usize = 0;
    while i < leaves.len()
        invariant
            i <= leaves@.len(),
            lv == leaves_view(leaves@),
            find_leaf(lv, key@) == find_leaf(lv.skip(i as int), key@),
        decreases leaves@.len() - i,
    {
        assert(lv.skip(i as int)[0] == leaves@[i as int]@);
        assert(lv.skip(i as int).skip(1) =~= lv.skip(i + 1));
        if bytes_eq(leaves[i].key.as_slice(), key) {
            return Some(i);
        }
        i += 1;
    }
    assert(lv.skip(i as int).len() == 0);
    None
}

fn copy_value(value: &Option<Vec<u8>>) -> (out: Option<Vec<u8>>)
    ensures
        value_view(out) == value_view(*value),
{
    match value {
        Some(v) => Some(copy_bytes(v.as_slice())),
        None => None,
    }
}

impl StateProvider {
    /// A provider over the leaves of a witness and a bytecode table.
    pub fn new(leaves: Vec<WitnessLeaf>, contracts: Vec<Contract>, allow_fallback: bool) -> (p:
        StateProvider)
        ensures
            p@.leaves == leaves_view(leaves@),
            p@.contracts == contracts_view(contracts@),
            p@.allow_fallback == allow_fallback,
            p@.fetched == Seq::<WitnessLeafView>::empty(),
    {
        let fetched: Vec<WitnessLeaf> = Vec::new();
        assert(leaves_view(fetched@) =~= Seq::empty());
        StateProvider { leaves, contracts, allow_fallback, fetched }
    }

    /// What the provider knows of `key`.
    pub fn resolve(&self, key: &[u8]) -> (r: Resolution)
        ensures
            r@ == resolve_key(self@, key@),
    {
        match find_leaf_index(&self.leaves, key) {
            Some(i) => Resolution::Found(copy_value(&self.leaves[i].value)),
            None => match find_leaf_index(&self.fetched, key) {
                Some(i) => Resolution::Found(copy_value(&self.fetched[i].value)),
                None => if self.allow_fallback {
                    Resolution::Fetch
                } else {
                    Resolution::Unresolved
                },
            },
        }
    }

    /// Hands the provider the value that was fetched for `key`. It is kept only
    /// where the provider would ask for it: a key that the witness holds, or
    /// that was handed in before, keeps its value.
    pub fn supply(&mut self, key: &[u8], value: Option<Vec<u8>>)
        ensures
            final(self)@ == supplied(old(self)@, key@, value_view(value)),
    {
        let ghost before = leaves_view(self.fetched@);
        match self.resolve(key) {
            Resolution::Fetch => {
                let leaf = WitnessLeaf { key: copy_bytes(key), value };
                self.fetched.push(leaf);
                assert(leaves_view(self.fetched@) =~= before.push(leaf@));
            },
            _ => {},
        }
    }

    /// The account at `address`: `Ok(None)` where the state holds none.
    pub fn get_account(&self, address: &[u8]) -> (res: Result<Option<Account>, StateError>)
        ensures
            match res {
                Ok(a) => account_of(self@, address@) == Ok::<Option<AccountView>, StateError>(
                    account_option_view(a),
                ),
                Err(e) => account_of(self@, address@) == Err::<Option<AccountView>, StateError>(e),
            },
    {
        if address.len() != 20 {
            return Err(StateError::KeyLength);
        }
        match self.resolve(address) {
            Resolution::Unresolved => Err(StateError::Unresolved),
            Resolution::Fetch => Err(StateError::FallbackNeeded),
            Resolution::Found(None) => Ok(None),
            Resolution::Found(Some(b)) => match decode_account(b.as_slice()) {
                None => Err(StateError::MalformedValue),
                Some(a) => Ok(Some(a)),
            },
        }
    }

    /// The value in slot `slot` of the account at `address`: `Ok(None)` where
    /// the state holds nothing in that slot.
    pub fn get_storage(&self, address: &[u8], slot: &[u8]) -> (res: Result<
        Option<Vec<u8>>,
        StateError,
    >)
        ensures
            match res {
                Ok(v) => storage_of(self@, address@, slot@) == Ok::<Option<Seq<u8>>, StateError>(
                    value_view(v),
                ),
                Err(e) => storage_of(self@, address@, slot@) == Err::<Option<Seq<u8>>, StateError>(
                    e,
                ),
            },
    {
        if address.len() != 20 || slot.len() != 32 {
            return Err(StateError::KeyLength);
        }
        let key = storage_key_of(address, slot);
        match self.resolve(key.as_slice()) {
            Resolution::Unresolved => Err(StateError::Unresolved),
            Resolution::Fetch => Err(StateError::FallbackNeeded),
            Resolution::Found(None) => Ok(None),
            Resolution::Found(Some(b)) => if b.len() != 32 {
                Err(StateError::MalformedValue)
            } else {
                Ok(Some(b))
            },
        }
    }

    /// The bytecode with hash `code_hash`, checked against that hash.
    pub fn get_code(&self, code_hash: &[u8]) -> (res: Result<Vec<u8>, StateError>)
        ensures
            match res {
                Ok(code) => code_of(self@, code_hash@) == Ok::<Seq<u8>, StateError>(code@),
                Err(e) => code_of(self@, code_hash@) == Err::<Seq<u8>, StateError>(e),
            },
    {
        let ghost cv = contracts_view(self.contracts@);
        assert(cv.skip(0) =~= cv);
        let mut i: usize = 0;
        while i < self.contracts.len()
            invariant
                i <= self.contracts@.len(),
                cv == contracts_view(self.contracts@),
                find_code(cv, code_hash@) == find_code(cv.skip(i as int), code_hash@),
            decreases self.contracts@.len() - i,
        {
            assert(cv.skip(i as int)[0] == self.contracts@[i as int]@);
            assert(cv.skip(i as int).skip(1) =~= cv.skip(i + 1));
            if bytes_eq(self.contracts[i].code_hash.as_slice(), code_hash) {
                let digest = hash_bytes(self.contracts[i].code.as_slice());
                if !bytes_eq(digest.as_slice(), code_hash) {
                    return Err(StateError::CodeMismatch);
                }
                return Ok(copy_bytes(self.contracts[i].code.as_slice()));
            }
            i += 1;
        }
        assert(cv.skip(i as int).len() == 0);
        Err(StateError::UnknownCode)
    }
}

proof fn lemma_find_leaf_push(leaves: Seq<WitnessLeafView>, leaf: WitnessLeafView, key: Seq<u8>)
    ensures
        find_leaf(leaves.push(leaf), key) == match find_leaf(leaves, key) {
            Some(v) => Some(v),
            None => if leaf.key == key {
                Some(leaf.value)
            } else {
                None
            },
        },
    decreases leaves.len(),
{
    let longer = leaves.push(leaf);
    if leaves.len() == 0 {
        assert(longer[0] == leaf);
        assert(longer.skip(1).len() == 0);
        assert(find_leaf(longer.skip(1), key) is None);
    } else {
        assert(longer[0] == leaves[0]);
        assert(longer.skip(1) =~= leaves.skip(1).push(leaf));
        lemma_find_leaf_push(leaves.skip(1), leaf, key);
    }
}

/// A consistent snapshot: once a provider knows a value for a key it keeps
/// answering with that value, whatever is handed in afterwards; and a value
/// that was asked for is the answer from then on.
pub proof fn law_supply_is_stable(
    p: StateProviderView,
    key: Seq<u8>,
    value: Option<Seq<u8>>,
    other: Seq<u8>,
)
    ensures
        resolve_key(p, other) is Found ==> resolve_key(supplied(p, key, value), other)
            == resolve_key(p, other),
        resolve_key(p, key) is Fetch ==> resolve_key(supplied(p, key, value), key)
            == ResolutionView::Found(value),
        other != key ==> resolve_key(supplied(p, key, value), other) == resolve_key(p, other),
        supplied(p, key, value).leaves == p.leaves,
{
    lemma_find_leaf_push(p.fetched, WitnessLeafView { key, value }, other);
    lemma_find_leaf_push(p.fetched, WitnessLeafView { key, value }, key);
}

} // verus!
