//! Legacy (pay-to-public-key-hash) addresses: building them from a
//! 20-byte key hash, reading the key hash back out of one, and the set of
//! key hashes that the search looks for.

use vstd::prelude::*;
use std::collections::HashMap;
use crate::base58::{
    base58_decode, base58_encode, decode_base58, encode_base58, lemma_decode_encode,
    lemma_decode_fits, lemma_encode_len, lemma_number_fits, lemma_strip_ones, lemma_leading_ones_of, leading_zero_bytes,
    b58_valid, b58_number, b58_decode_overflows, byte_digits, zero_bytes, digit_bytes,
};
use crate::digits::{digits_below, digits_value, lemma_value_bounds, lemma_value_injective, to_digits};
use vstd::arithmetic::power::{lemma_pow_increases, pow};
use vstd::arithmetic::power2::pow2;
use crate::hashing::{sha256d, spec_sha256d};
use crate::text::{chars_vec, push_char, push_str, repeat_char};

verus! {

/// Why a text line is not a usable address.
#[derive(Debug, Clone, Copy, PartialEq, Eq, Structural)]
pub enum AddressError {
    /// A character is outside the base58 alphabet.
    Invalid,
    /// The decoded bytes are fewer than the 21 that hold the version byte
    /// and the key hash.
    TooShort,
    /// The decoder's 132-byte buffer cannot hold the leading zero bytes
    /// and the number together, on which the decoder panics.
    Overflow,
}

/// The bytes that a legacy address encodes: version byte, key hash,
/// checksum.
pub open spec fn legacy_payload(coin: u8, hash: Seq<u8>, checksum: Seq<u8>) -> Seq<u8> {
    seq![coin] + hash + checksum
}

/// The legacy address of key hash `hash` for version byte `coin`: the
/// base58 text of version byte, hash, and the first four bytes of the
/// double SHA-256 of the two.
pub open spec fn legacy_address(coin: u8, hash: Seq<u8>) -> Seq<char> {
    base58_encode(
        legacy_payload(coin, hash, spec_sha256d(seq![coin] + hash).take(4)),
    )
}

/// The key hash held in address text `s`: bytes 1 to 20 of what it
/// decodes to.
pub open spec fn address_hash_spec(s: Seq<char>) -> Result<Seq<u8>, AddressError> {
    if !(b58_valid(s) && b58_number(s) < pow2(1056)) {
        Err(AddressError::Invalid)
    } else if b58_decode_overflows(s) {
        Err(AddressError::Overflow)
    } else {
        let b = base58_decode(s).unwrap();
        if b.len() < 21 {
            Err(AddressError::TooShort)
        } else {
            Ok(b.subrange(1, 21))
        }
    }
}

/// Base58Check bytes of a legacy address: 25 bytes whose last four are
/// the first four bytes of the double SHA-256 of the first 21.
pub open spec fn checksum_ok(d: Seq<u8>) -> bool {
    &&& d.len() == 25
    &&& forall|i: int| 0 <= i < 4 ==> #[trigger] d[21 + i] == spec_sha256d(d.subrange(0, 21))[i]
}

/// A legacy address decodes to its version byte, the key hash, and a
/// checksum that is the first four bytes of the double SHA-256 of the
/// two.
pub proof fn lemma_legacy_checksum(coin: u8, hash: Seq<u8>)
    requires
        hash.len() == 20,
        spec_sha256d(seq![coin] + hash).len() == 32,
    ensures
        base58_decode(legacy_address(coin, hash)) is Some,
        checksum_ok(base58_decode(legacy_address(coin, hash)).unwrap()),
        base58_decode(legacy_address(coin, hash)).unwrap()[0] == coin,
        base58_decode(legacy_address(coin, hash)).unwrap().subrange(1, 21) == hash,
{
    let chk = spec_sha256d(seq![coin] + hash).take(4);
    let p = legacy_payload(coin, hash, chk);
    lemma_decode_encode(p);
    assert(p.subrange(0, 21) =~= seq![coin] + hash);
    assert(p.subrange(1, 21) =~= hash);
    assert forall|i: int| 0 <= i < 4 implies #[trigger] p[21 + i] == spec_sha256d(p.subrange(0, 21))[i] by {
        assert(p[21 + i] == chk[i]);
    }
}

/// The legacy address of a 20-byte key hash.
pub fn get_legacy(hash160: [u8; 20], coin: u8) -> (res: String)
    ensures
        spec_sha256d(seq![coin] + hash160@).len() == 32,
        res@ == legacy_address(coin, hash160@),
        base58_decode(res@) is Some,
        checksum_ok(base58_decode(res@).unwrap()),
        base58_decode(res@).unwrap()[0] == coin,
        base58_decode(res@).unwrap().subrange(1, 21) == hash160@,
{
    let mut v: Vec<u8> = Vec::new();
    v.push(coin);
    let mut i: usize = 0;
    while i < 20
        invariant
            i <= 20,
            v@ == seq![coin] + hash160@.take(i as int),
        decreases 20 - i,
    {
        v.push(hash160[i]);
        i = i + 1;
        assert(v@ =~= seq![coin] + hash160@.take(i as int));
    }
    assert(hash160@.take(20) =~= hash160@);
    let ghost body = v@;
    let checksum = sha256d(v.as_slice());
    let mut j: usize = 0;
    while j < 4
        invariant
            j <= 4,
            checksum@.len() == 32,
            v@ == body + checksum@.take(j as int),
        decreases 4 - j,
    {
        v.push(checksum[j]);
        j = j + 1;
        assert(v@ =~= body + checksum@.take(j as int));
    }
    assert(v@ =~= legacy_payload(coin, hash160@, spec_sha256d(body).take(4)));
    let res = encode_base58(v.as_slice());
    proof {
        lemma_legacy_checksum(coin, hash160@);
    }
    res
}

/// The key hash held in an address.
pub fn address_hash(address: &str) -> (res: Result<[u8; 20], AddressError>)
    ensures
        match address_hash_spec(address@) {
            Ok(h) => res matches Ok(r) && r@ == h,
            Err(e) => res == Err::<[u8; 20], AddressError>(e),
        },
{
    let chars = chars_vec(address);
    let mut z: usize = 0;
    while z < chars.len() && chars[z] == '1'
        invariant
            z <= chars@.len(),
            chars@ == address@,
            forall|k: int| 0 <= k < z ==> chars@[k] == '1',
        decreases chars@.len() - z,
    {
        z = z + 1;
    }
    let ghost s = address@;
    proof {
        lemma_strip_ones(s);
        assert(s.take(z as int) =~= repeat_char('1', z as nat)) by {
            assert forall|k: int| 0 <= k < z implies s.take(z as int)[k] == '1' by {
                assert(s.take(z as int)[k] == chars@[k]);
            }
        }
        assert(s =~= repeat_char('1', z as nat) + s.skip(z as int));
        if z < chars.len() {
            assert(s.skip(z as int)[0] == chars@[z as int]);
        }
        lemma_leading_ones_of(z as nat, s.skip(z as int));
    }
    let mut rest = String::new();
    let mut i: usize = z;
    while i < chars.len()
        invariant
            z <= i <= chars@.len(),
            chars@ == address@,
            rest@ == address@.subrange(z as int, i as int),
        decreases chars@.len() - i,
    {
        push_char(&mut rest, chars[i]);
        i = i + 1;
        assert(rest@ =~= address@.subrange(z as int, i as int));
    }
    assert(rest@ =~= s.skip(z as int));
    match decode_base58(rest.as_str()) {
        Err(_) => Err(AddressError::Invalid),
        Ok(b) => {
            proof {
                assert(b@ == base58_decode(s.skip(z as int)).unwrap());
                assert(base58_decode(s) == Some(zero_bytes(z as nat) + b@));
                assert(b@ == digit_bytes(to_digits(b58_number(s), 256)));
            }
            if b.len() > 132 || z > 132 - b.len() {
                return Err(AddressError::Overflow);
            }
            let total = z + b.len();
            if total < 21 {
                return Err(AddressError::TooShort);
            }
            let ghost full = zero_bytes(z as nat) + b@;
            let mut h: [u8; 20] = [0u8; 20];
            let mut k: usize = 0;
            while k < 20
                invariant
                    k <= 20,
                    total == z + b@.len(),
                    total >= 21,
                    full == zero_bytes(z as nat) + b@,
                    forall|m: int| 0 <= m < k ==> h@[m] == full[m + 1],
                decreases 20 - k,
            {
                if k + 1 < z {
                    h[k] = 0;
                } else {
                    h[k] = b[k + 1 - z];
                }
                k = k + 1;
            }
            assert(h@ =~= full.subrange(1, 21));
            Ok(h)
        },
    }
}

/// The key hash read back out of a legacy address is the hash the
/// address was made from, whatever the version byte and checksum.
pub proof fn lemma_legacy_address_hash(coin: u8, hash: Seq<u8>, checksum: Seq<u8>)
    requires
        hash.len() == 20,
        checksum.len() == 4,
    ensures
        address_hash_spec(base58_encode(legacy_payload(coin, hash, checksum))) == Ok::<Seq<u8>, AddressError>(hash),
{
    let p = legacy_payload(coin, hash, checksum);
    lemma_encode_len(p);
    lemma_decode_encode(p);
    lemma_decode_fits(base58_encode(p));
    lemma_number_fits(base58_encode(p));
    assert(p.subrange(1, 21) =~= hash);
}

/// A legacy address with version byte 0 starts with `1`.
pub proof fn lemma_legacy_address_starts_with_one(hash: Seq<u8>, checksum: Seq<u8>)
    ensures
        base58_encode(legacy_payload(0u8, hash, checksum)).len() > 0,
        base58_encode(legacy_payload(0u8, hash, checksum))[0] == '1',
{
    let p = legacy_payload(0u8, hash, checksum);
    assert(p[0] == 0u8);
    assert(leading_zero_bytes(p) >= 1);
    let e = base58_encode(p);
    assert(e[0] == repeat_char('1', leading_zero_bytes(p))[0]);
}

/// The record kept of a hit: the key and the address.
pub open spec fn found_record_spec(hex: Seq<char>, address: Seq<char>) -> Seq<char> {
    "HEX:"@ + hex + "\nADDRESS "@ + address + "\n"@
}

/// The record kept of a hit: the key and the address, one per line.
pub fn found_record(hex: &str, address: &str) -> (res: String)
    ensures
        res@ == found_record_spec(hex@, address@),
{
    let mut s = String::new();
    push_str(&mut s, "HEX:");
    push_str(&mut s, hex);
    push_str(&mut s, "\nADDRESS ");
    push_str(&mut s, address);
    push_str(&mut s, "\n");
    assert(s@ =~= found_record_spec(hex@, address@));
    s
}

/// The number that the first 16 bytes of a key hash spell.
pub open spec fn hash_hi(h: Seq<u8>) -> int {
    digits_value(byte_digits(h.subrange(0, 16)), 256)
}

/// The number that the last 4 bytes of a key hash spell.
pub open spec fn hash_lo(h: Seq<u8>) -> int {
    digits_value(byte_digits(h.subrange(16, 20)), 256)
}

/// The two numbers fit in 128 and 32 bits.
proof fn lemma_hash_key_bounds(h: Seq<u8>)
    requires
        h.len() == 20,
    ensures
        0 <= hash_hi(h) <= u128::MAX,
        0 <= hash_lo(h) <= u32::MAX,
{
    lemma_value_bounds(byte_digits(h.subrange(0, 16)), 256);
    lemma_value_bounds(byte_digits(h.subrange(16, 20)), 256);
    assert(pow(256, 16) == 0x1_0000_0000_0000_0000_0000_0000_0000_0000int) by {
        reveal_with_fuel(pow, 17);
    }
    assert(pow(256, 4) == 0x1_0000_0000int) by {
        reveal_with_fuel(pow, 5);
    }
}

/// A key hash is fixed by its two numbers.
proof fn lemma_hash_keys_injective(h: Seq<u8>, g: Seq<u8>)
    requires
        h.len() == 20,
        g.len() == 20,
        hash_hi(h) == hash_hi(g),
        hash_lo(h) == hash_lo(g),
    ensures
        h == g,
{
    lemma_value_injective(byte_digits(h.subrange(0, 16)), byte_digits(g.subrange(0, 16)), 256);
    lemma_value_injective(byte_digits(h.subrange(16, 20)), byte_digits(g.subrange(16, 20)), 256);
    assert forall|i: int| 0 <= i < 20 implies h[i] == g[i] by {
        if i < 16 {
            assert(byte_digits(h.subrange(0, 16))[i] == byte_digits(g.subrange(0, 16))[i]);
        } else {
            assert(byte_digits(h.subrange(16, 20))[i - 16] == byte_digits(g.subrange(16, 20))[i - 16]);
        }
    }
    assert(h =~= g);
}

/// The number that bytes `from .. to` (at most 16 of them) of a key hash
/// spell.
fn bytes_number_at(h: &[u8; 20], from: usize, to: usize) -> (res: u128)
    requires
        from <= to <= 20,
        to - from <= 16,
    ensures
        res as int == digits_value(byte_digits(h@.subrange(from as int, to as int)), 256),
{
    let mut v: u128 = 0;
    let mut i: usize = from;
    assert(pow(256, 16) == 0x1_0000_0000_0000_0000_0000_0000_0000_0000int) by {
        reveal_with_fuel(pow, 17);
    }
    assert(byte_digits(h@.subrange(from as int, from as int)) =~= Seq::<int>::empty());
    while i < to
        invariant
            from <= i <= to,
            to <= 20,
            to - from <= 16,
            pow(256, 16) == 0x1_0000_0000_0000_0000_0000_0000_0000_0000int,
            v as int == digits_value(byte_digits(h@.subrange(from as int, i as int)), 256),
        decreases to - i,
    {
        let ghost d = byte_digits(h@.subrange(from as int, i as int));
        let ghost d2 = byte_digits(h@.subrange(from as int, i + 1));
        assert(d2.drop_last() =~= d);
        assert(d2.last() == h@[i as int] as int);
        let ghost p = pow(256, (i - from) as nat);
        proof {
            assert(digits_below(d, 256));
            lemma_value_bounds(d, 256);
            lemma_pow_increases(256, (i - from) as nat, 15);
            assert(pow(256, 16) == 256 * pow(256, 15)) by {
                reveal_with_fuel(pow, 2);
            }
        }
        let b = h[i] as u128;
        assert(v * 256 + b < 0x1_0000_0000_0000_0000_0000_0000_0000_0000int) by (nonlinear_arith)
            requires
                v < p,
                p <= pow(256, 15),
                pow(256, 16) == 256 * pow(256, 15),
                pow(256, 16) == 0x1_0000_0000_0000_0000_0000_0000_0000_0000int,
                b < 256,
        ;
        v = v * 256 + b;
        i = i + 1;
    }
    v
}

/// The two numbers of a key hash.
fn hash_keys(h: &[u8; 20]) -> (res: (u128, u32))
    ensures
        res.0 as int == hash_hi(h@),
        res.1 as int == hash_lo(h@),
{
    let hi = bytes_number_at(h, 0, 16);
    let lo = bytes_number_at(h, 16, 20);
    proof {
        lemma_hash_key_bounds(h@);
    }
    (hi, lo as u32)
}

/// The index entry of key hash `h`: the bucket of its first 16 bytes
/// lists its last 4 bytes.
pub open spec fn indexed(index: Map<u128, Vec<u32>>, h: Seq<u8>) -> bool {
    &&& index.contains_key(hash_hi(h) as u128)
    &&& index[hash_hi(h) as u128]@.contains(hash_lo(h) as u32)
}

/// The set of key hashes that the search looks for: the hashes in the
/// order they were added, and a hash index from the first 16 bytes of a
/// hash to the last 4 bytes of the hashes that start so.
pub struct AddressDb {
    hashes: Vec<[u8; 20]>,
    index: HashMap<u128, Vec<u32>>,
}

impl AddressDb {
    /// The stored hashes, in the order they were added.
    pub closed spec fn entries(&self) -> Seq<Seq<u8>> {
        self.hashes@.map_values(|h: [u8; 20]| h@)
    }

    /// No hash is stored twice, every stored hash is in the index, and the
    /// index lists nothing else.
    #[verifier::type_invariant]
    closed spec fn well_formed(&self) -> bool {
        &&& self.entries().no_duplicates()
        &&& forall|i: int| 0 <= i < self.hashes@.len() ==> indexed(self.index@, #[trigger] self.hashes@[i]@)
        &&& forall|k: u128, l: u32|
            self.index@.contains_key(k) && #[trigger] self.index@[k]@.contains(l) ==> exists|i: int|
                0 <= i < self.hashes@.len() && hash_hi(#[trigger] self.hashes@[i]@) == k && hash_lo(
                    self.hashes@[i]@,
                ) == l
    }

    /// The key hashes in the set.
    pub closed spec fn hash_set(&self) -> Set<Seq<u8>> {
        self.entries().to_set()
    }

    /// An empty set.
    pub fn new() -> (db: AddressDb)
        ensures
            db.hash_set() == Set::<Seq<u8>>::empty(),
    {
        broadcast use vstd::std_specs::hash::group_hash_axioms;
        let db = AddressDb { hashes: Vec::new(), index: HashMap::new() };
        assert(db.entries() =~= Seq::<Seq<u8>>::empty());
        db
    }

    /// Whether `hash` is in the set.
    pub fn contains(&self, hash: &[u8; 20]) -> (res: bool)
        ensures
            res == self.hash_set().contains(hash@),
    {
        broadcast use vstd::std_specs::hash::group_hash_axioms;
        proof {
            use_type_invariant(self);
            lemma_hash_key_bounds(hash@);
        }
        let (k, l) = hash_keys(hash);
        match self.index.get(&k) {
            None => {
                proof {
                    if self.hash_set().contains(hash@) {
                        let i = choose|i: int| 0 <= i < self.entries().len() && self.entries()[i] == hash@;
                        assert(indexed(self.index@, self.hashes@[i]@));
                    }
                }
                false
            },
            Some(bucket) => {
                let mut j: usize = 0;
                #[verifier::loop_isolation(false)]
                while j < bucket.len()
                    invariant
                        j <= bucket@.len(),
                        forall|m: int| 0 <= m < j ==> bucket@[m] != l,
                    decreases bucket@.len() - j,
                {
                    if bucket[j] == l {
                        proof {
                            assert(self.index@[k]@.contains(l));
                            let i = choose|i: int|
                                0 <= i < self.hashes@.len() && hash_hi(#[trigger] self.hashes@[i]@) == k
                                    && hash_lo(self.hashes@[i]@) == l;
                            lemma_hash_keys_injective(self.hashes@[i]@, hash@);
                            assert(self.entries()[i] == hash@);
                        }
                        return true;
                    }
                    j = j + 1;
                }
                proof {
                    if self.hash_set().contains(hash@) {
                        let i = choose|i: int| 0 <= i < self.entries().len() && self.entries()[i] == hash@;
                        assert(indexed(self.index@, self.hashes@[i]@));
                        let m = choose|m: int| 0 <= m < bucket@.len() && bucket@[m] == l;
                        assert(bucket@[m] != l);
                    }
                }
                false
            },
        }
    }

    /// Adds `hash`; tells whether it was new.
    #[verifier::spinoff_prover]
    #[verifier::rlimit(40)]
    pub fn insert(&mut self, hash: [u8; 20]) -> (res: bool)
        ensures
            final(self).hash_set() == old(self).hash_set().insert(hash@),
            res == !old(self).hash_set().contains(hash@),
    {
        broadcast use vstd::std_specs::hash::group_hash_axioms;
        if self.contains(&hash) {
            proof {
                assert(self.hash_set().insert(hash@) =~= self.hash_set());
            }
            return false;
        }
        let mut taken = AddressDb::new();
        std::mem::swap(self, &mut taken);
        proof {
            use_type_invariant(&taken);
            lemma_hash_key_bounds(hash@);
        }
        let ghost old_entries = taken.entries();
        let AddressDb { hashes: mut hashes, index: mut index } = taken;
        let ghost old_hashes = hashes@;
        let ghost old_index = index@;
        let (k, l) = hash_keys(&hash);
        let mut bucket: Vec<u32> = match index.get(&k) {
            Some(b) => vstd::slice::slice_to_vec(b.as_slice()),
            None => Vec::new(),
        };
        let ghost old_bucket = bucket@;
        bucket.push(l);
        index.insert(k, bucket);
        hashes.push(hash);
        let ghost new_entries = hashes@.map_values(|h: [u8; 20]| h@);
        proof {
            assert(new_entries =~= old_entries.push(hash@));
            old_entries.lemma_push_to_set_commute(hash@);
            assert(new_entries.no_duplicates()) by {
                assert forall|a: int, b: int|
                    0 <= a < new_entries.len() && 0 <= b < new_entries.len() && a != b
                    implies new_entries[a] != new_entries[b] by {
                    if a < old_entries.len() && b < old_entries.len() {
                        assert(new_entries[a] == old_entries[a]);
                        assert(new_entries[b] == old_entries[b]);
                    } else if a < old_entries.len() {
                        assert(new_entries[a] == old_entries[a]);
                        assert(old_entries.contains(old_entries[a]));
                    } else if b < old_entries.len() {
                        assert(new_entries[b] == old_entries[b]);
                        assert(old_entries.contains(old_entries[b]));
                    }
                }
            }
            assert forall|i: int| 0 <= i < hashes@.len() implies indexed(index@, #[trigger] hashes@[i]@) by {
                if i < old_hashes.len() {
                    assert(hashes@[i] == old_hashes[i]);
                    assert(indexed(old_index, old_hashes[i]@));
                    lemma_hash_key_bounds(old_hashes[i]@);
                    if hash_hi(old_hashes[i]@) as u128 == k {
                        assert(old_bucket == old_index[k]@);
                        assert(index@[k]@ == old_bucket.push(l));
                        let m = choose|m: int| 0 <= m < old_bucket.len() && old_bucket[m] == hash_lo(old_hashes[i]@) as u32;
                        assert(index@[k]@[m] == old_bucket[m]);
                    }
                } else {
                    assert(hashes@[i]@ == hash@);
                    assert(index@[k]@[old_bucket.len() as int] == l);
                }
            }
            assert forall|kk: u128, ll: u32|
                index@.contains_key(kk) && #[trigger] index@[kk]@.contains(ll) implies exists|i: int|
                    0 <= i < hashes@.len() && hash_hi(#[trigger] hashes@[i]@) == kk && hash_lo(hashes@[i]@) == ll by {
                if kk == k && ll == l {
                    assert(hashes@[old_hashes.len() as int]@ == hash@);
                } else if kk == k {
                    let m = choose|m: int| 0 <= m < index@[kk]@.len() && index@[kk]@[m] == ll;
                    if m == old_bucket.len() {
                        assert(index@[kk]@[m] == l);
                    }
                    assert(index@[kk]@[m] == old_bucket[m]);
                    assert(old_index.contains_key(kk));
                    assert(old_index[kk]@.contains(ll));
                    let i = choose|i: int|
                        0 <= i < old_hashes.len() && hash_hi(#[trigger] old_hashes[i]@) == kk && hash_lo(old_hashes[i]@) == ll;
                    assert(hashes@[i] == old_hashes[i]);
                } else {
                    assert(old_index.contains_key(kk));
                    assert(old_index[kk]@.contains(ll));
                    let i = choose|i: int|
                        0 <= i < old_hashes.len() && hash_hi(#[trigger] old_hashes[i]@) == kk && hash_lo(old_hashes[i]@) == ll;
                    assert(hashes@[i] == old_hashes[i]);
                }
            }
        }
        let db = AddressDb { hashes, index };
        assert(db.entries() == new_entries);
        *self = db;
        true
    }

    /// The set of the key hashes of `addresses`; the first line that is
    /// not a usable address stops the building with its error.
    pub fn from_addresses(addresses: &Vec<String>) -> (res: Result<AddressDb, AddressError>)
        ensures
            res is Ok <==> forall|i: int|
                0 <= i < addresses@.len() ==> #[trigger] address_hash_spec(addresses@[i]@) is Ok,
            res matches Ok(db) ==> forall|h: Seq<u8>|
                db.hash_set().contains(h) <==> exists|i: int|
                    0 <= i < addresses@.len() && #[trigger] address_hash_spec(addresses@[i]@)
                        == Ok::<Seq<u8>, AddressError>(h),
            res matches Err(e) ==> exists|i: int|
                0 <= i < addresses@.len() && #[trigger] address_hash_spec(addresses@[i]@)
                    == Err::<Seq<u8>, AddressError>(e) && forall|j: int|
                    0 <= j < i ==> #[trigger] address_hash_spec(addresses@[j]@) is Ok,
    {
        let mut db = AddressDb::new();
        let mut i: usize = 0;
        while i < addresses.len()
            invariant
                i <= addresses@.len(),
                forall|j: int| 0 <= j < i ==> #[trigger] address_hash_spec(addresses@[j]@) is Ok,
                forall|h: Seq<u8>|
                    db.hash_set().contains(h) <==> exists|j: int|
                        0 <= j < i && #[trigger] address_hash_spec(addresses@[j]@)
                            == Ok::<Seq<u8>, AddressError>(h),
            decreases addresses@.len() - i,
        {
            match address_hash(addresses[i].as_str()) {
                Ok(h) => {
                    let ghost before = db.hash_set();
                    db.insert(h);
                    assert forall|g: Seq<u8>|
                        db.hash_set().contains(g) <==> exists|j: int|
                            0 <= j < i + 1 && #[trigger] address_hash_spec(addresses@[j]@)
                                == Ok::<Seq<u8>, AddressError>(g) by {
                        if db.hash_set().contains(g) && g != h@ {
                            assert(before.contains(g));
                        }
                        if g == h@ {
                            assert(address_hash_spec(addresses@[i as int]@) == Ok::<Seq<u8>, AddressError>(g));
                        }
                        if exists|j: int|
                            0 <= j < i + 1 && #[trigger] address_hash_spec(addresses@[j]@)
                                == Ok::<Seq<u8>, AddressError>(g) {
                            let j = choose|j: int|
                                0 <= j < i + 1 && #[trigger] address_hash_spec(addresses@[j]@)
                                    == Ok::<Seq<u8>, AddressError>(g);
                            if j < i {
                                assert(before.contains(g));
                            }
                        }
                    }
                    i = i + 1;
                },
                Err(e) => {
                    return Err(e);
                },
            }
        }
        Ok(db)
    }

    /// The legacy address (version byte 0) of `hash` when the set holds
    /// it.
    pub fn found_address(&self, hash: [u8; 20]) -> (res: Option<String>)
        ensures
            res is Some <==> self.hash_set().contains(hash@),
            res matches Some(a) ==> a@ == legacy_address(0u8, hash@),
            res matches Some(a) ==> address_hash_spec(a@) == Ok::<Seq<u8>, AddressError>(hash@),
    {
        if self.contains(&hash) {
            let a = get_legacy(hash, 0u8);
            proof {
                lemma_legacy_address_hash(0u8, hash@, spec_sha256d(seq![0u8] + hash@).take(4));
            }
            Some(a)
        } else {
            None
        }
    }

    /// After adding a hash the set holds it, and holds any other hash
    /// exactly when it held it before.
    pub proof fn lemma_insert_then_contains(
        before: AddressDb,
        after: AddressDb,
        added: Seq<u8>,
        other: Seq<u8>,
    )
        requires
            after.hash_set() == before.hash_set().insert(added),
        ensures
            after.hash_set().contains(added),
            other != added ==> after.hash_set().contains(other) == before.hash_set().contains(other),
    {
    }

    /// The number of key hashes in the set.
    pub fn len(&self) -> (res: usize)
        ensures
            res == self.hash_set().len(),
    {
        proof {
            use_type_invariant(self);
            self.entries().unique_seq_to_set();
        }
        self.hashes.len()
    }
}

} // verus!
