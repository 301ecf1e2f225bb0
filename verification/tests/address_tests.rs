use base58::{FromBase58, ToBase58};
use find_pazl::address::{address_hash, found_record, get_legacy, AddressDb, AddressError};
use find_pazl::hashing::sha256d;
use sha2::{Digest, Sha256};

fn hex_bytes(s: &str) -> Vec<u8> {
    (0..s.len() / 2).map(|i| u8::from_str_radix(&s[2 * i..2 * i + 2], 16).unwrap()).collect()
}

fn h20(s: &str) -> [u8; 20] {
    let v = hex_bytes(s);
    let mut a = [0u8; 20];
    a.copy_from_slice(&v);
    a
}

const KEY1_HASH: &str = "751e76e8199196d454941c45d1b3a323f1433bd6";
const KEY1_ADDRESS: &str = "1BgGZ9tcN4rm9KBzDn7KprQz87SZ26SAMH";

#[test]
fn sha256d_is_sha256_twice() {
    let once = Sha256::digest(b"hello");
    let twice = Sha256::digest(once);
    assert_eq!(sha256d(b"hello"), twice.to_vec());
    assert_eq!(
        sha256d(b"hello"),
        hex_bytes("9595c9df90075148eb06860365df33584b75bff782a510c6cd4883a419833d50")
    );
}

#[test]
fn get_legacy_known_address() {
    assert_eq!(get_legacy(h20(KEY1_HASH), 0), KEY1_ADDRESS);
}

#[test]
fn get_legacy_builds_version_hash_checksum() {
    let h = h20("20d45a6a762535700ce9e0b216e31994335db8a5");
    let mut payload = vec![5u8];
    payload.extend_from_slice(&h);
    let chk = sha256d(&payload);
    payload.extend_from_slice(&chk[0..4]);
    assert_eq!(get_legacy(h, 5), payload.to_base58());
}

#[test]
fn address_hash_reads_back_the_hash() {
    assert_eq!(address_hash(KEY1_ADDRESS), Ok(h20(KEY1_HASH)));
    let h = h20("00000000000000000000000000000000000000ff");
    assert_eq!(address_hash(&get_legacy(h, 0)), Ok(h));
    assert_eq!(address_hash(&get_legacy(h, 0x6f)), Ok(h));
}

#[test]
fn legacy_address_of_version_zero_starts_with_one() {
    let h = h20("ffffffffffffffffffffffffffffffffffffffff");
    assert!(get_legacy(h, 0).starts_with('1'));
}

#[test]
fn address_hash_errors() {
    assert_eq!(address_hash("1BgGZ9tcN4rm9KBzDn7KprQz87SZ26SAM0"), Err(AddressError::Invalid));
    assert_eq!(address_hash("1BgGZ9tcN4rm9KBzDn7KprQz87SZ26SAMl"), Err(AddressError::Invalid));
    assert_eq!(address_hash("1"), Err(AddressError::TooShort));
    assert_eq!(address_hash(""), Err(AddressError::TooShort));
    assert_eq!(address_hash(&"1".repeat(133)), Err(AddressError::Overflow));
    assert_eq!(address_hash(&format!("{}{}", "1".repeat(110), "2".repeat(33))), Err(AddressError::Overflow));
}

#[test]
fn address_hash_of_long_text_like_the_decoder() {
    let text = format!("{}{}", "1".repeat(100), "2".repeat(33));
    let decoded = text.from_base58().unwrap();
    assert_eq!(decoded.len(), 124);
    let mut h = [0u8; 20];
    h.copy_from_slice(&decoded[1..21]);
    assert_eq!(address_hash(&text), Ok(h));
    let text2 = format!("{}{}", "1".repeat(5), "2".repeat(120));
    let decoded2 = text2.from_base58().unwrap();
    let mut h2 = [0u8; 20];
    h2.copy_from_slice(&decoded2[1..21]);
    assert_eq!(address_hash(&text2), Ok(h2));
}

#[test]
fn database_from_addresses() {
    let a2 = get_legacy(h20("20d45a6a762535700ce9e0b216e31994335db8a5"), 0);
    let lines = vec![KEY1_ADDRESS.to_string(), a2.clone(), KEY1_ADDRESS.to_string()];
    let db = AddressDb::from_addresses(&lines).ok().unwrap();
    assert_eq!(db.len(), 2);
    assert!(db.contains(&h20(KEY1_HASH)));
    assert!(db.contains(&h20("20d45a6a762535700ce9e0b216e31994335db8a5")));
    assert!(!db.contains(&h20("00000000000000000000000000000000000000ff")));
}

#[test]
fn database_stops_at_first_bad_line() {
    let lines = vec![KEY1_ADDRESS.to_string(), "1".to_string(), "0OIl".to_string()];
    assert!(matches!(AddressDb::from_addresses(&lines), Err(AddressError::TooShort)));
}

#[test]
fn database_insert_and_contains() {
    let mut db = AddressDb::new();
    assert_eq!(db.len(), 0);
    assert!(db.insert(h20(KEY1_HASH)));
    assert!(!db.insert(h20(KEY1_HASH)));
    assert!(db.contains(&h20(KEY1_HASH)));
    assert_eq!(db.len(), 1);
}

#[test]
fn found_address_only_for_known_hashes() {
    let mut db = AddressDb::new();
    db.insert(h20(KEY1_HASH));
    assert_eq!(db.found_address(h20(KEY1_HASH)), Some(KEY1_ADDRESS.to_string()));
    assert_eq!(db.found_address(h20("00000000000000000000000000000000000000ff")), None);
}

#[test]
fn found_record_text() {
    assert_eq!(found_record("00ab", KEY1_ADDRESS), format!("HEX:00ab\nADDRESS {}\n", KEY1_ADDRESS));
}
