use find_pazl::keys::{candidate_public_key, key_hex, secret_from_hex, KeyError};

fn hex_bytes(s: &str) -> Vec<u8> {
    (0..s.len() / 2).map(|i| u8::from_str_radix(&s[2 * i..2 * i + 2], 16).unwrap()).collect()
}

const G_COMPRESSED: &str = "0279be667ef9dcbbac55a06295ce870b07029bfcdb2dce28d959f2815b16f81798";

#[test]
fn key_hex_pads_to_64() {
    assert_eq!(key_hex("1a"), format!("{}1a", "0".repeat(62)));
    assert_eq!(key_hex("1A838B13505B26867").len(), 64);
}

#[test]
fn secret_from_hex_reads_pairs() {
    let hex: Vec<char> = key_hex("1aF").chars().collect();
    let s = secret_from_hex(&hex).unwrap();
    assert_eq!(s[31], 0xaf);
    assert_eq!(s[30], 0x01);
    assert!(s[..30].iter().all(|b| *b == 0));
    let short: Vec<char> = "1a".chars().collect();
    assert_eq!(secret_from_hex(&short), None);
}

#[test]
fn public_key_of_one_is_the_generator() {
    let pk = candidate_public_key("1").unwrap();
    assert_eq!(pk.to_vec(), hex_bytes(G_COMPRESSED));
    let pk2 = candidate_public_key("0000000000000001").unwrap();
    assert_eq!(pk2.to_vec(), hex_bytes(G_COMPRESSED));
}

#[test]
fn public_key_errors() {
    assert_eq!(candidate_public_key("0"), Err(KeyError::OutOfRange));
    assert_eq!(candidate_public_key(""), Err(KeyError::OutOfRange));
    assert_eq!(candidate_public_key("G1"), Err(KeyError::NotHex));
    assert_eq!(candidate_public_key(&"1".repeat(65)), Err(KeyError::NotHex));
    assert_eq!(
        candidate_public_key("FFFFFFFFFFFFFFFFFFFFFFFFFFFFFFFEBAAEDCE6AF48A03BBFD25E8CD0364141"),
        Err(KeyError::OutOfRange)
    );
    assert!(candidate_public_key("FFFFFFFFFFFFFFFFFFFFFFFFFFFFFFFEBAAEDCE6AF48A03BBFD25E8CD0364140").is_ok());
}
