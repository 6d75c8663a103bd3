use stateless_validator::naming::{
    block_file_name, contracts_file_name, hash_from_witness_file_name, hex_string,
    witness_file_name,
};

#[test]
fn contracts_file_has_fixed_name() {
    assert_eq!(contracts_file_name(), "contracts.txt");
}

#[test]
fn block_file_name_is_number_hash_suffix() {
    let mut hash = [0u8; 32];
    hash[0] = 0xb3;
    hash[1] = 0xbd;
    hash[31] = 0xfc;
    let expected = format!("8.0xb3bd{}fc.block.json", "00".repeat(29));
    assert_eq!(block_file_name(8, &hash), expected);
}

#[test]
fn block_file_name_matches_display_of_b256() {
    let hash = alloy_primitives::keccak256(b"block");
    for n in [0u64, 7, 10, 19, 12345678901234567890, u64::MAX] {
        assert_eq!(block_file_name(n, &hash.0), format!("{}.{}.block.json", n, hash));
        assert_eq!(witness_file_name(n, &hash.0), format!("{}.{}.w", n, hash));
    }
}

#[test]
fn witness_file_name_is_number_hash_w() {
    let hash = [0xabu8; 32];
    assert_eq!(witness_file_name(9, &hash), format!("9.0x{}.w", "ab".repeat(32)));
}

#[test]
fn hash_is_read_back_from_witness_file_name() {
    let hash = alloy_primitives::keccak256(b"block").0.to_vec();
    for n in [0u64, 8, 19, u64::MAX] {
        let name = witness_file_name(n, &hash);
        assert_eq!(hash_from_witness_file_name(n, &name), Some(hash.clone()));
    }
    let name = "8.0xb3bda63a35f00b666dc7dcb3542ebd4d2755ecbbb97d5b5b312b57b5124658fc.w";
    let read = hash_from_witness_file_name(8, name).unwrap();
    assert_eq!(read[0], 0xb3);
    assert_eq!(read[31], 0xfc);
    assert_eq!(witness_file_name(8, &read), name);
}

#[test]
fn other_names_are_not_witness_file_names() {
    let hash = [0x5au8; 32];
    let name = witness_file_name(8, &hash);
    assert_eq!(hash_from_witness_file_name(9, &name), None);
    assert_eq!(hash_from_witness_file_name(8, &block_file_name(8, &hash)), None);
    assert_eq!(hash_from_witness_file_name(8, &name.to_uppercase()), None);
    assert_eq!(hash_from_witness_file_name(8, &format!("0{}", name)), None);
    assert_eq!(hash_from_witness_file_name(8, &name.replace("0x", "")), None);
    assert_eq!(hash_from_witness_file_name(8, &name[..name.len() - 1]), None);
    assert_eq!(hash_from_witness_file_name(8, ""), None);
    assert_eq!(hash_from_witness_file_name(8, "contracts.txt"), None);
    assert_eq!(hash_from_witness_file_name(8, &name.replace('5', "g")), None);
    assert_eq!(hash_from_witness_file_name(8, &format!("8.0x{}é.w", "5a".repeat(31))), None);
}

#[test]
fn hex_string_has_two_lower_case_digits_per_byte() {
    assert_eq!(hex_string(&[]), "");
    assert_eq!(hex_string(&[0x00, 0x0f, 0xa0, 0xff, 0x5b]), "000fa0ff5b");
}
