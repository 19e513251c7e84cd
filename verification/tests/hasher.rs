use multi_machine_dedup::hasher::hash;

#[test]
fn checksum_of_the_catalogue_check_string() {
    assert_eq!(hash(b"123456789"), 0xe306_9283);
}

#[test]
fn checksum_of_nothing_is_zero() {
    assert_eq!(hash(b""), 0);
}

#[test]
fn checksum_of_thirty_two_zero_bytes() {
    assert_eq!(hash(&[0u8; 32]), 0x8a91_36aa);
}

#[test]
fn checksum_of_thirty_two_one_bytes() {
    assert_eq!(hash(&[0xffu8; 32]), 0x62a8_ab43);
}

#[test]
fn checksum_of_rising_bytes() {
    let bytes: Vec<u8> = (0u8..32).collect();
    assert_eq!(hash(&bytes), 0x46dd_794e);
}

#[test]
fn checksum_of_falling_bytes() {
    let bytes: Vec<u8> = (0u8..32).rev().collect();
    assert_eq!(hash(&bytes), 0x113f_db5c);
}

#[test]
fn hashing_twice_gives_the_same_checksum() {
    let bytes = b"the same bytes, hashed twice".to_vec();
    let copy = bytes.clone();
    assert_eq!(hash(&bytes), hash(&bytes));
    assert_eq!(hash(&bytes), hash(&copy));
}

#[test]
fn checksum_is_not_the_input_handed_back() {
    let bytes = [1u8, 0, 0, 0];
    assert_ne!(hash(&bytes), u32::from_le_bytes(bytes));
    assert_ne!(hash(&bytes), u32::from_be_bytes(bytes));
    assert_ne!(hash(b"a"), hash(b"b"));
}

#[test]
fn checksum_agrees_with_a_digest_fed_in_chunks() {
    let bytes: Vec<u8> = (0..10_000u32).map(|n| (n * 31 % 251) as u8).collect();
    let engine = crc::Crc::<u32>::new(&crc::CRC_32_ISCSI);
    for chunk in [1usize, 7, 64, 4096, 10_000, 20_000] {
        let mut digest = engine.digest();
        for part in bytes.chunks(chunk) {
            digest.update(part);
        }
        assert_eq!(digest.finalize(), hash(&bytes));
    }
}
