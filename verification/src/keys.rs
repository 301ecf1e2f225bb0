//! Private keys from hex candidates and their compressed public keys
//! (secp256k1, through the `secp256k1` crate).

use vstd::prelude::*;
use vstd::arithmetic::power::pow;
use crate::base58::{byte_digits, digit_bytes, zero_bytes};
use crate::digits::{
    digits_value, lemma_to_digits, lemma_to_digits_len, lemma_value_bounds, lemma_value_injective,
    lemma_value_zero_prefix, to_digits, zero_digits,
};
use crate::text::{chars_vec, push_char, repeat_char, start_zero, zero_pad_len};

verus! {

/// The order of the secp256k1 group.
pub open spec fn secp256k1_order() -> int {
    0xFFFFFFFFFFFFFFFFFFFFFFFFFFFFFFFEBAAEDCE6AF48A03BBFD25E8CD0364141int
}

/// A private key: 32 big-endian bytes of a number in `1 .. order`.
pub open spec fn valid_secret(b: Seq<u8>) -> bool {
    b.len() == 32 && 0 < digits_value(byte_digits(b), 256) < secp256k1_order()
}

/// The 33-byte compressed public key of private key `secret`.
pub uninterp spec fn spec_compressed_pubkey(secret: Seq<u8>) -> Seq<u8>;

/// `secp256k1::SecretKey::from_slice`, `secp256k1::PublicKey::from_secret_key`
/// (with a signing context made by `secp256k1::Secp256k1::signing_only`)
/// and `secp256k1::PublicKey::serialize`: the key is accepted exactly when
/// it is 32 bytes of a number in `1 .. order` (the check of
/// `secp256k1_ec_seckey_verify`), and then the result is its compressed
/// public key, a function of the key alone.
#[verifier::external_body]
fn compressed_public_key(secret: &[u8; 32]) -> (res: Option<[u8; 33]>)
    ensures
        res is Some <==> valid_secret(secret@),
        res matches Some(pk) ==> pk@ == spec_compressed_pubkey(secret@),
{
    match secp256k1::SecretKey::from_slice(secret) {
        Ok(sk) => {
            let ctx = secp256k1::Secp256k1::signing_only();
            Some(secp256k1::PublicKey::from_secret_key(&ctx, &sk).serialize())
        },
        Err(_) => None,
    }
}

/// The value of hex digit `c` (either case), or -1.
pub open spec fn hex_digit(c: char) -> int {
    if '0' <= c <= '9' {
        c as int - '0' as int
    } else if 'A' <= c <= 'F' {
        c as int - 'A' as int + 10
    } else if 'a' <= c <= 'f' {
        c as int - 'a' as int + 10
    } else {
        -1
    }
}

/// The 32 bytes that 64 hex digits spell, two digits a byte.
pub open spec fn secret_of_hex(s: Seq<char>) -> Option<Seq<u8>> {
    if s.len() == 64 && forall|i: int| 0 <= i < 64 ==> #[trigger] hex_digit(s[i]) >= 0 {
        Some(Seq::new(32, |i: int| (16 * hex_digit(s[2 * i]) + hex_digit(s[2 * i + 1])) as u8))
    } else {
        None
    }
}

/// A candidate left-padded with zeros to 64 hex digits.
pub open spec fn key_hex_spec(candidate: Seq<char>) -> Seq<char> {
    repeat_char('0', zero_pad_len(candidate.len() as int) as nat) + candidate
}

/// A candidate of at most 64 digits pads to exactly 64.
pub proof fn lemma_key_hex_len(candidate: Seq<char>)
    requires
        candidate.len() <= 64,
    ensures
        key_hex_spec(candidate).len() == 64,
{
}

/// Why a candidate gives no public key.
#[derive(Debug, Clone, Copy, PartialEq, Eq, Structural)]
pub enum KeyError {
    /// The padded candidate is not 64 hex digits.
    NotHex,
    /// The number is zero or not below the group order.
    OutOfRange,
}

/// The value of a hex digit.
fn hex_value(c: char) -> (res: Option<u8>)
    ensures
        res is Some <==> hex_digit(c) >= 0,
        res matches Some(v) ==> v as int == hex_digit(c),
{
    if '0' <= c && c <= '9' {
        Some((c as u32 - '0' as u32) as u8)
    } else if 'A' <= c && c <= 'F' {
        Some((c as u32 - 'A' as u32 + 10) as u8)
    } else if 'a' <= c && c <= 'f' {
        Some((c as u32 - 'a' as u32 + 10) as u8)
    } else {
        None
    }
}

/// The candidate left-padded with zeros to 64 hex digits.
pub fn key_hex(candidate: &str) -> (res: String)
    ensures
        res@ == key_hex_spec(candidate@),
        candidate@.len() <= 64 ==> res@.len() == 64 && res@.subrange(64 - candidate@.len(), 64)
            == candidate@ && forall|i: int| 0 <= i < 64 - candidate@.len() ==> #[trigger] res@[i] == '0',
        candidate@.len() > 64 ==> res@ == candidate@,
{
    let chars = chars_vec(candidate);
    let mut res = start_zero(chars.len());
    let mut i: usize = 0;
    let ghost pad = res@;
    while i < chars.len()
        invariant
            i <= chars@.len(),
            chars@ == candidate@,
            res@ == pad + chars@.take(i as int),
        decreases chars@.len() - i,
    {
        push_char(&mut res, chars[i]);
        i = i + 1;
        assert(res@ =~= pad + chars@.take(i as int));
    }
    assert(chars@.take(chars@.len() as int) =~= chars@);
    proof {
        let n = zero_pad_len(candidate@.len() as int) as nat;
        if candidate@.len() <= 64 {
            assert(res@.subrange(64 - candidate@.len(), 64) =~= candidate@);
        } else {
            assert(res@ =~= candidate@);
        }
    }
    res
}

/// The 32 bytes that 64 hex digits spell.
pub fn secret_from_hex(hex: &Vec<char>) -> (res: Option<[u8; 32]>)
    ensures
        match secret_of_hex(hex@) {
            Some(b) => res matches Some(r) && r@ == b,
            None => res is None,
        },
{
    if hex.len() != 64 {
        return None;
    }
    let mut out: [u8; 32] = [0u8; 32];
    let mut i: usize = 0;
    while i < 32
        invariant
            i <= 32,
            hex@.len() == 64,
            forall|k: int| 0 <= k < 2 * i ==> #[trigger] hex_digit(hex@[k]) >= 0,
            forall|k: int|
                0 <= k < i ==> out@[k] == (16 * hex_digit(hex@[2 * k]) + hex_digit(hex@[2 * k + 1])) as u8,
        decreases 32 - i,
    {
        let hi = hex_value(hex[2 * i]);
        let lo = hex_value(hex[2 * i + 1]);
        match (hi, lo) {
            (Some(h), Some(l)) => {
                out[i] = h * 16 + l;
                assert(out@[i as int] == (16 * hex_digit(hex@[2 * i]) + hex_digit(hex@[2 * i + 1])) as u8);
                i = i + 1;
            },
            _ => {
                return None;
            },
        }
    }
    let ghost b = Seq::new(32, |i: int| (16 * hex_digit(hex@[2 * i]) + hex_digit(hex@[2 * i + 1])) as u8);
    assert(out@ =~= b);
    Some(out)
}

/// The public key that a search candidate stands for: the candidate
/// padded to 64 hex digits is the private key.
pub open spec fn candidate_key_spec(candidate: Seq<char>) -> Result<Seq<u8>, KeyError> {
    match secret_of_hex(key_hex_spec(candidate)) {
        None => Err(KeyError::NotHex),
        Some(sk) => if valid_secret(sk) {
            Ok(spec_compressed_pubkey(sk))
        } else {
            Err(KeyError::OutOfRange)
        },
    }
}

/// The compressed public key of the private key that `candidate` spells.
pub fn candidate_public_key(candidate: &str) -> (res: Result<[u8; 33], KeyError>)
    ensures
        match candidate_key_spec(candidate@) {
            Ok(pk) => res matches Ok(r) && r@ == pk,
            Err(e) => res == Err::<[u8; 33], KeyError>(e),
        },
        candidate@.len() <= 64 && hex_chars(candidate@) ==> {
            &&& (res is Ok <==> 0 < hex_number(candidate@) < secp256k1_order())
            &&& res matches Ok(pk) ==> pk@ == spec_compressed_pubkey(key_bytes(hex_number(candidate@) as nat))
        },
{
    proof {
        if candidate@.len() <= 64 && hex_chars(candidate@) {
            lemma_candidate_key(candidate@);
        }
    }
    let padded = key_hex(candidate);
    let hex = chars_vec(padded.as_str());
    match secret_from_hex(&hex) {
        None => Err(KeyError::NotHex),
        Some(secret) => match compressed_public_key(&secret) {
            Some(pk) => Ok(pk),
            None => Err(KeyError::OutOfRange),
        },
    }
}

} // verus!

verus! {

/// The lowercase hex digits, in order of value.
pub open spec fn hex_lower() -> Seq<char> {
    seq!['0', '1', '2', '3', '4', '5', '6', '7', '8', '9', 'a', 'b', 'c', 'd', 'e', 'f']
}

/// The uppercase hex digits, in order of value.
pub open spec fn hex_upper() -> Seq<char> {
    seq!['0', '1', '2', '3', '4', '5', '6', '7', '8', '9', 'A', 'B', 'C', 'D', 'E', 'F']
}

/// A hex digit of either case has its place in the digit tables as its
/// value; every other character has none.
pub proof fn lemma_hex_digit_table()
    ensures
        forall|i: int| 0 <= i < 16 ==> #[trigger] hex_digit(hex_lower()[i]) == i,
        forall|i: int| 0 <= i < 16 ==> #[trigger] hex_digit(hex_upper()[i]) == i,
        forall|c: char|
            #[trigger] hex_digit(c) >= 0 ==> hex_lower()[hex_digit(c)] == c || hex_upper()[hex_digit(c)] == c,
        forall|c: char| #[trigger] hex_digit(c) < 16,
{
    assert forall|i: int| 0 <= i < 16 implies #[trigger] hex_digit(hex_lower()[i]) == i by {
        if i < 10 {
            assert(hex_lower()[i] == (48 + i) as char);
        } else {
            assert(hex_lower()[i] == (97 + i - 10) as char);
        }
    }
    assert forall|i: int| 0 <= i < 16 implies #[trigger] hex_digit(hex_upper()[i]) == i by {
        if i < 10 {
            assert(hex_upper()[i] == (48 + i) as char);
        } else {
            assert(hex_upper()[i] == (65 + i - 10) as char);
        }
    }
    assert forall|c: char| #[trigger] hex_digit(c) >= 0 implies hex_lower()[hex_digit(c)] == c
        || hex_upper()[hex_digit(c)] == c by {
        let v = hex_digit(c);
        if '0' <= c <= '9' {
            assert(hex_lower()[v] == (48 + v) as char);
        } else if 'A' <= c <= 'F' {
            assert(hex_upper()[v] == (65 + v - 10) as char);
        } else {
            assert(hex_lower()[v] == (97 + v - 10) as char);
        }
    }
}

} // verus!

verus! {

/// Every character of `c` is a hex digit.
pub open spec fn hex_chars(c: Seq<char>) -> bool {
    forall|i: int| 0 <= i < c.len() ==> #[trigger] hex_digit(c[i]) >= 0
}

/// The number that the hex digits `c` spell.
pub open spec fn hex_number(c: Seq<char>) -> int {
    digits_value(c.map_values(|ch: char| hex_digit(ch)), 16)
}

/// The 32 big-endian bytes of `v`.
pub open spec fn key_bytes(v: nat) -> Seq<u8> {
    zero_bytes((32 - to_digits(v, 256).len()) as nat) + digit_bytes(to_digits(v, 256))
}

/// The first `k` bytes that 64 hex digits give spell what their first
/// `2k` digits spell.
proof fn lemma_secret_prefix(s: Seq<char>, k: int)
    requires
        s.len() == 64,
        hex_chars(s),
        0 <= k <= 32,
    ensures
        digits_value(byte_digits(secret_of_hex(s).unwrap().take(k)), 256) == digits_value(
            s.map_values(|ch: char| hex_digit(ch)).take(2 * k),
            16,
        ),
    decreases k,
{
    lemma_hex_digit_table();
    let b = secret_of_hex(s).unwrap();
    let hd = s.map_values(|ch: char| hex_digit(ch));
    if k == 0 {
        assert(byte_digits(b.take(0)) =~= Seq::<int>::empty());
        assert(hd.take(0) =~= Seq::<int>::empty());
    } else {
        lemma_secret_prefix(s, k - 1);
        let j = k - 1;
        assert(byte_digits(b.take(k)).drop_last() =~= byte_digits(b.take(j)));
        assert(hd.take(2 * k).drop_last() =~= hd.take(2 * j + 1));
        assert(hd.take(2 * j + 1).drop_last() =~= hd.take(2 * j));
        let hi = hex_digit(s[2 * j]);
        let lo = hex_digit(s[2 * j + 1]);
        assert(0 <= hi < 16 && 0 <= lo < 16);
        assert(b[j] == (16 * hi + lo) as u8);
        assert(byte_digits(b.take(k)).last() == b[j] as int);
        assert(hd.take(2 * k).last() == lo);
        assert(hd.take(2 * j + 1).last() == hi);
        let bv = (16 * hi + lo) as u8;
        assert(bv as int == 16 * hi + lo);
        let vb = digits_value(byte_digits(b.take(j)), 256);
        let vh = digits_value(hd.take(2 * j), 16);
        assert(vb == vh);
        assert(digits_value(byte_digits(b.take(k)), 256) == vb * 256 + (16 * hi + lo));
        assert(digits_value(hd.take(2 * j + 1), 16) == vh * 16 + hi);
        assert(digits_value(hd.take(2 * k), 16) == (vh * 16 + hi) * 16 + lo);
        assert((vh * 16 + hi) * 16 + lo == vh * 256 + (16 * hi + lo)) by (nonlinear_arith);
    }
}

/// The 32 bytes that 64 hex digits give spell the number the digits spell.
pub proof fn lemma_secret_value(s: Seq<char>)
    requires
        s.len() == 64,
        hex_chars(s),
    ensures
        secret_of_hex(s) is Some,
        secret_of_hex(s).unwrap().len() == 32,
        digits_value(byte_digits(secret_of_hex(s).unwrap()), 256) == hex_number(s),
{
    lemma_secret_prefix(s, 32);
    assert(secret_of_hex(s).unwrap().take(32) =~= secret_of_hex(s).unwrap());
    assert(s.map_values(|ch: char| hex_digit(ch)).take(64) =~= s.map_values(|ch: char| hex_digit(ch)));
}

/// Padding a hex candidate with leading zeros keeps it hex and keeps its
/// number.
pub proof fn lemma_key_hex_value(c: Seq<char>)
    requires
        c.len() <= 64,
        hex_chars(c),
    ensures
        key_hex_spec(c).len() == 64,
        hex_chars(key_hex_spec(c)),
        hex_number(key_hex_spec(c)) == hex_number(c),
{
    let n = zero_pad_len(c.len() as int) as nat;
    let p = key_hex_spec(c);
    assert forall|i: int| 0 <= i < p.len() implies #[trigger] hex_digit(p[i]) >= 0 by {
        if i >= n {
            assert(p[i] == c[i - n]);
        }
    }
    assert(p.map_values(|ch: char| hex_digit(ch)) =~= zero_digits(n) + c.map_values(
        |ch: char| hex_digit(ch),
    ));
    lemma_value_zero_prefix(n, c.map_values(|ch: char| hex_digit(ch)), 16);
}

/// `key_bytes` gives 32 bytes that spell the number.
pub proof fn lemma_key_bytes(v: nat)
    requires
        v < pow(256, 32),
    ensures
        key_bytes(v).len() == 32,
        digits_value(byte_digits(key_bytes(v)), 256) == v,
{
    lemma_to_digits(v, 256);
    lemma_to_digits_len(v, 256, 32);
    let d = to_digits(v, 256);
    let n = (32 - d.len()) as nat;
    assert(byte_digits(key_bytes(v)) =~= zero_digits(n) + d) by {
        assert forall|i: int| 0 <= i < d.len() implies (d[i] as u8) as int == d[i] by {
            assert(0 <= d[i] < 256);
        }
    }
    lemma_value_zero_prefix(n, d, 256);
}

/// 32 bytes are the `key_bytes` of the number they spell.
pub proof fn lemma_bytes_are_key_bytes(b: Seq<u8>)
    requires
        b.len() == 32,
    ensures
        0 <= digits_value(byte_digits(b), 256) < pow(256, 32),
        b == key_bytes(digits_value(byte_digits(b), 256) as nat),
{
    lemma_value_bounds(byte_digits(b), 256);
    let v = digits_value(byte_digits(b), 256) as nat;
    lemma_key_bytes(v);
    lemma_value_injective(byte_digits(b), byte_digits(key_bytes(v)), 256);
    assert forall|i: int| 0 <= i < 32 implies b[i] == key_bytes(v)[i] by {
        assert(byte_digits(b)[i] == byte_digits(key_bytes(v))[i]);
    }
    assert(b =~= key_bytes(v));
}

/// A hex candidate of at most 64 digits stands for the private key whose
/// number it spells: its public key is that of the 32 big-endian bytes of
/// its number when the number lies in `1 .. order`, and it is out of range
/// otherwise.
pub proof fn lemma_candidate_key(c: Seq<char>)
    requires
        c.len() <= 64,
        hex_chars(c),
    ensures
        0 <= hex_number(c),
        candidate_key_spec(c) == (if 0 < hex_number(c) < secp256k1_order() {
            Ok::<Seq<u8>, KeyError>(spec_compressed_pubkey(key_bytes(hex_number(c) as nat)))
        } else {
            Err::<Seq<u8>, KeyError>(KeyError::OutOfRange)
        }),
{
    lemma_key_hex_value(c);
    let p = key_hex_spec(c);
    lemma_secret_value(p);
    let b = secret_of_hex(p).unwrap();
    lemma_bytes_are_key_bytes(b);
}

} // verus!
