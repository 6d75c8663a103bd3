use stateless_validator::hash::hash_bytes;
use stateless_validator::state::{
    decode_account, encode_account, storage_key_of, Account, Contract, Resolution, StateError,
    StateProvider,
};
use stateless_validator::witness::WitnessLeaf;

fn account(nonce: u64, balance: u8, code: &[u8]) -> Account {
    let mut b = vec![0u8; 32];
    b[31] = balance;
    Account { nonce, balance: b, code_hash: hash_bytes(code), storage_root: vec![0; 32] }
}

fn provider(allow_fallback: bool) -> StateProvider {
    let a = vec![0xa1; 20];
    let b = vec![0xb2; 20];
    let slot = vec![0x01; 32];
    let leaves = vec![
        WitnessLeaf { key: a.clone(), value: Some(encode_account(&account(3, 100, b"code"))) },
        WitnessLeaf { key: b, value: None },
        WitnessLeaf { key: storage_key_of(&a, &slot), value: Some(vec![0x77; 32]) },
        WitnessLeaf { key: storage_key_of(&a, &[0x02; 32]), value: None },
        WitnessLeaf { key: vec![0xc3; 20], value: Some(vec![1, 2, 3]) },
        WitnessLeaf { key: storage_key_of(&a, &[0x03; 32]), value: Some(vec![1]) },
    ];
    let contracts = vec![
        Contract { code_hash: hash_bytes(b"code"), code: b"code".to_vec() },
        Contract { code_hash: vec![0xee; 32], code: b"other".to_vec() },
    ];
    StateProvider::new(leaves, contracts, allow_fallback)
}

#[test]
fn account_encoding_is_exact() {
    let a = Account {
        nonce: 0x0102,
        balance: vec![1; 32],
        code_hash: vec![2; 32],
        storage_root: vec![3; 32],
    };
    let mut expected = vec![0x02u8, 0x01, 0, 0, 0, 0, 0, 0];
    expected.extend([1u8; 32]);
    expected.extend([2u8; 32]);
    expected.extend([3u8; 32]);
    assert_eq!(encode_account(&a), expected);
    assert_eq!(decode_account(&expected), Some(a));
    assert_eq!(decode_account(&expected[..103]), None);
    assert_eq!(decode_account(&[]), None);
}

#[test]
fn storage_key_is_address_then_slot() {
    let key = storage_key_of(&[1; 20], &[2; 32]);
    let mut expected = vec![1u8; 20];
    expected.extend([2u8; 32]);
    assert_eq!(key, expected);
}

#[test]
fn account_lookups() {
    let p = provider(false);
    assert_eq!(p.get_account(&[0xa1; 20]), Ok(Some(account(3, 100, b"code"))));
    assert_eq!(p.get_account(&[0xb2; 20]), Ok(None));
    assert_eq!(p.get_account(&[0xc3; 20]), Err(StateError::MalformedValue));
    assert_eq!(p.get_account(&[0xd4; 20]), Err(StateError::Unresolved));
    assert_eq!(p.get_account(&[0xa1; 19]), Err(StateError::KeyLength));
}

#[test]
fn storage_lookups() {
    let p = provider(false);
    assert_eq!(p.get_storage(&[0xa1; 20], &[0x01; 32]), Ok(Some(vec![0x77; 32])));
    assert_eq!(p.get_storage(&[0xa1; 20], &[0x02; 32]), Ok(None));
    assert_eq!(p.get_storage(&[0xa1; 20], &[0x03; 32]), Err(StateError::MalformedValue));
    assert_eq!(p.get_storage(&[0xa1; 20], &[0x04; 32]), Err(StateError::Unresolved));
    assert_eq!(p.get_storage(&[0xa1; 20], &[0x01; 31]), Err(StateError::KeyLength));
    assert_eq!(p.get_storage(&[0xa1; 21], &[0x01; 32]), Err(StateError::KeyLength));
}

#[test]
fn code_lookups() {
    let p = provider(false);
    assert_eq!(p.get_code(&hash_bytes(b"code")), Ok(b"code".to_vec()));
    assert_eq!(p.get_code(&[0xee; 32]), Err(StateError::CodeMismatch));
    assert_eq!(p.get_code(&[0x00; 32]), Err(StateError::UnknownCode));
}

#[test]
fn unresolved_key_without_fallback_is_fatal() {
    let mut p = provider(false);
    assert_eq!(p.resolve(&[0xd4; 20]), Resolution::Unresolved);
    p.supply(&[0xd4; 20], Some(vec![1]));
    assert_eq!(p.resolve(&[0xd4; 20]), Resolution::Unresolved);
}

#[test]
fn fallback_value_is_kept_as_first_supplied() {
    let mut p = provider(true);
    let key = vec![0xd4; 20];
    assert_eq!(p.resolve(&key), Resolution::Fetch);
    assert_eq!(p.get_account(&key), Err(StateError::FallbackNeeded));
    p.supply(&key, Some(encode_account(&account(1, 1, b""))));
    assert_eq!(p.get_account(&key), Ok(Some(account(1, 1, b""))));
    p.supply(&key, None);
    assert_eq!(p.get_account(&key), Ok(Some(account(1, 1, b""))));
}

#[test]
fn fallback_never_overrides_the_witness() {
    let mut p = provider(true);
    let before = p.clone();
    p.supply(&[0xa1; 20], None);
    p.supply(&[0xb2; 20], Some(vec![1, 2, 3]));
    assert_eq!(p, before);
    assert_eq!(p.get_account(&[0xb2; 20]), Ok(None));
}
