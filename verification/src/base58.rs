//! Base58 text (Bitcoin alphabet): the exact meaning of the encoder and
//! decoder of the `base58` crate, and the round trip between them.

use vstd::prelude::*;
use vstd::arithmetic::power::*;
use vstd::arithmetic::power2::*;
use base58::{FromBase58, ToBase58};
use crate::digits::{
    lemma_pow_base_le,
    digits_below, digits_value, lemma_digits_of_value, lemma_to_digits, lemma_to_digits_len,
    lemma_value_bounds, to_digits,
};
use crate::text::repeat_char;

verus! {

/// The character of base58 digit `d` (`0 <= d < 58`) in the alphabet
/// `123456789ABCDEFGHJKLMNPQRSTUVWXYZabcdefghijkmnopqrstuvwxyz`.
pub open spec fn b58_char(d: int) -> char {
    if d < 9 {
        (49 + d) as char
    } else if d < 17 {
        (65 + d - 9) as char
    } else if d < 22 {
        (74 + d - 17) as char
    } else if d < 33 {
        (80 + d - 22) as char
    } else if d < 44 {
        (97 + d - 33) as char
    } else {
        (109 + d - 44) as char
    }
}

/// The digit that character `c` stands for, or -1 when `c` is not in the
/// alphabet.
pub open spec fn b58_digit(c: char) -> int {
    let x = c as int;
    if 49 <= x <= 57 {
        x - 49
    } else if 65 <= x <= 72 {
        x - 65 + 9
    } else if 74 <= x <= 78 {
        x - 74 + 17
    } else if 80 <= x <= 90 {
        x - 80 + 22
    } else if 97 <= x <= 107 {
        x - 97 + 33
    } else if 109 <= x <= 122 {
        x - 109 + 44
    } else {
        -1
    }
}

/// Every character of `s` is in the base58 alphabet.
pub open spec fn b58_valid(s: Seq<char>) -> bool {
    forall|i: int| 0 <= i < s.len() ==> #[trigger] b58_digit(s[i]) >= 0
}

/// The number of leading zero bytes of `b`.
pub open spec fn leading_zero_bytes(b: Seq<u8>) -> nat
    decreases b.len(),
{
    if b.len() > 0 && b[0] == 0 {
        1 + leading_zero_bytes(b.drop_first())
    } else {
        0
    }
}

/// The number of leading `'1'` characters of `s`.
pub open spec fn leading_ones(s: Seq<char>) -> nat
    decreases s.len(),
{
    if s.len() > 0 && s[0] == '1' {
        1 + leading_ones(s.drop_first())
    } else {
        0
    }
}

/// Bytes read as base-256 digits.
pub open spec fn byte_digits(b: Seq<u8>) -> Seq<int> {
    b.map_values(|x: u8| x as int)
}

/// Base-256 digits written as bytes.
pub open spec fn digit_bytes(d: Seq<int>) -> Seq<u8> {
    d.map_values(|x: int| x as u8)
}

/// Base58 characters read as digits.
pub open spec fn char_digits(s: Seq<char>) -> Seq<int> {
    s.map_values(|c: char| b58_digit(c))
}

/// Digits written as base58 characters.
pub open spec fn digit_chars(d: Seq<int>) -> Seq<char> {
    d.map_values(|x: int| b58_char(x))
}

/// `n` zero bytes.
pub open spec fn zero_bytes(n: nat) -> Seq<u8> {
    Seq::new(n, |_i: int| 0u8)
}

/// The big-endian number that the bytes after the leading zeros spell.
pub open spec fn bytes_number(b: Seq<u8>) -> nat {
    digits_value(byte_digits(b.skip(leading_zero_bytes(b) as int)), 256) as nat
}

/// The number that the characters after the leading `'1'`s spell.
pub open spec fn b58_number(s: Seq<char>) -> nat {
    digits_value(char_digits(s.skip(leading_ones(s) as int)), 58) as nat
}

/// Base58 text of `b`: one `'1'` per leading zero byte, then the shortest
/// base58 numeral of the number that the rest spells.
pub open spec fn base58_encode(b: Seq<u8>) -> Seq<char> {
    repeat_char('1', leading_zero_bytes(b)) + digit_chars(to_digits(bytes_number(b), 58))
}

/// The bytes that base58 text `s` stands for: one zero byte per leading
/// `'1'`, then the shortest big-endian bytes of the number that the rest
/// spells; `None` when a character is outside the alphabet.
pub open spec fn base58_decode(s: Seq<char>) -> Option<Seq<u8>> {
    if b58_valid(s) {
        Some(zero_bytes(leading_ones(s)) + digit_bytes(to_digits(b58_number(s), 256)))
    } else {
        None
    }
}

/// The decoder of the `base58` crate works in a buffer of 132 bytes:
/// it panics when valid text needs more than that for its leading zeros
/// and its number together.
pub open spec fn b58_decode_overflows(s: Seq<char>) -> bool {
    &&& b58_valid(s)
    &&& b58_number(s) < pow2(1056)
    &&& leading_ones(s) + to_digits(b58_number(s), 256).len() > 132
}

#[verifier::external_type_specification]
#[verifier::external_body]
pub struct ExFromBase58Error(base58::FromBase58Error);

/// `<[u8] as base58::ToBase58>::to_base58`: the crate's encoder (which
/// its documentation limits to 128 bytes) returns exactly the base58
/// text that `base58_encode` describes.
#[verifier::external_body]
pub(crate) fn encode_base58(data: &[u8]) -> (res: String)
    requires
        data@.len() <= 128,
    ensures
        res@ == base58_encode(data@),
{
    data.to_base58()
}

/// `<str as base58::FromBase58>::from_base58`: the crate's decoder
/// succeeds exactly on text of alphabet characters whose number fits in
/// 1056 bits, and then returns the bytes that `base58_decode` describes.
/// It panics on the inputs that `b58_decode_overflows` names.
#[verifier::external_body]
pub(crate) fn decode_base58(s: &str) -> (res: Result<Vec<u8>, base58::FromBase58Error>)
    requires
        !b58_decode_overflows(s@),
    ensures
        res is Ok <==> (b58_valid(s@) && b58_number(s@) < pow2(1056)),
        res matches Ok(v) ==> base58_decode(s@) == Some(v@),
{
    s.from_base58()
}

/// Digit and character of the alphabet are inverse to each other.
pub proof fn lemma_b58_char_digit()
    ensures
        forall|d: int| 0 <= d < 58 ==> #[trigger] b58_digit(b58_char(d)) == d,
        forall|c: char| b58_digit(c) >= 0 ==> b58_char(#[trigger] b58_digit(c)) == c,
        forall|c: char| b58_digit(c) < 58,
        forall|c: char| #[trigger] b58_digit(c) == 0 <==> c == '1',
{
}

/// What `leading_zero_bytes` counts: a prefix of zeros followed by a
/// non-zero byte or the end.
pub proof fn lemma_leading_zero_bytes(b: Seq<u8>)
    ensures
        leading_zero_bytes(b) <= b.len(),
        b.take(leading_zero_bytes(b) as int) == zero_bytes(leading_zero_bytes(b)),
        leading_zero_bytes(b) < b.len() ==> b[leading_zero_bytes(b) as int] != 0,
    decreases b.len(),
{
    if b.len() > 0 && b[0] == 0 {
        let t = b.drop_first();
        lemma_leading_zero_bytes(t);
        let z = leading_zero_bytes(b);
        assert(b.take(z as int) =~= zero_bytes(z)) by {
            assert forall|i: int| 0 <= i < z implies b.take(z as int)[i] == 0u8 by {
                if i > 0 {
                    assert(b[i] == t[i - 1]);
                    assert(t.take((z - 1) as int)[i - 1] == zero_bytes((z - 1) as nat)[i - 1]);
                }
            }
        }
        if z < b.len() {
            assert(b[z as int] == t[z - 1]);
        }
    } else {
        assert(b.take(0) =~= zero_bytes(0));
    }
}

/// What `leading_ones` counts: a prefix of `'1'`s followed by another
/// character or the end.
pub proof fn lemma_leading_ones(s: Seq<char>)
    ensures
        leading_ones(s) <= s.len(),
        s.take(leading_ones(s) as int) == repeat_char('1', leading_ones(s)),
        leading_ones(s) < s.len() ==> s[leading_ones(s) as int] != '1',
    decreases s.len(),
{
    if s.len() > 0 && s[0] == '1' {
        let t = s.drop_first();
        lemma_leading_ones(t);
        let z = leading_ones(s);
        assert(s.take(z as int) =~= repeat_char('1', z)) by {
            assert forall|i: int| 0 <= i < z implies s.take(z as int)[i] == '1' by {
                if i > 0 {
                    assert(s[i] == t[i - 1]);
                    assert(t.take((z - 1) as int)[i - 1] == repeat_char('1', (z - 1) as nat)[i - 1]);
                }
            }
        }
        if z < s.len() {
            assert(s[z as int] == t[z - 1]);
        }
    } else {
        assert(s.take(0) =~= repeat_char('1', 0));
    }
}

/// `z` zero bytes in front of bytes that start with a non-zero byte are
/// exactly the leading zeros.
pub proof fn lemma_leading_zero_bytes_of(z: nat, t: Seq<u8>)
    requires
        t.len() == 0 || t[0] != 0,
    ensures
        leading_zero_bytes(zero_bytes(z) + t) == z,
    decreases z,
{
    let b = zero_bytes(z) + t;
    if z > 0 {
        assert(b[0] == 0);
        assert(b.drop_first() =~= zero_bytes((z - 1) as nat) + t);
        lemma_leading_zero_bytes_of((z - 1) as nat, t);
    } else {
        assert(b =~= t);
        if t.len() > 0 {
            assert(b[0] == t[0]);
        }
    }
}

/// `z` ones in front of text that starts with another character are
/// exactly the leading ones.
pub proof fn lemma_leading_ones_of(z: nat, t: Seq<char>)
    requires
        t.len() == 0 || t[0] != '1',
    ensures
        leading_ones(repeat_char('1', z) + t) == z,
    decreases z,
{
    let s = repeat_char('1', z) + t;
    if z > 0 {
        assert(s[0] == '1');
        assert(s.drop_first() =~= repeat_char('1', (z - 1) as nat) + t);
        lemma_leading_ones_of((z - 1) as nat, t);
    } else {
        assert(s =~= t);
        if t.len() > 0 {
            assert(s[0] == t[0]);
        }
    }
}

/// Decoding the base58 text of any bytes gives those bytes back.
pub proof fn lemma_decode_encode(b: Seq<u8>)
    ensures
        base58_decode(base58_encode(b)) == Some(b),
{
    lemma_b58_char_digit();
    lemma_leading_zero_bytes(b);
    let z = leading_zero_bytes(b);
    let rest = b.skip(z as int);
    let rd = byte_digits(rest);
    let v = bytes_number(b);
    lemma_to_digits(v, 58);
    let d = to_digits(v, 58);
    let t = digit_chars(d);
    let s = base58_encode(b);
    assert(s == repeat_char('1', z) + t);
    assert(b58_valid(s)) by {
        assert forall|i: int| 0 <= i < s.len() implies #[trigger] b58_digit(s[i]) >= 0 by {
            if i >= z {
                assert(s[i] == t[i - z]);
                assert(0 <= d[i - z] < 58);
            }
        }
    }
    if t.len() > 0 {
        assert(b58_digit(t[0]) == d[0]);
    }
    lemma_leading_ones_of(z, t);
    assert(s.skip(z as int) =~= t);
    assert(char_digits(t) =~= d) by {
        assert forall|i: int| 0 <= i < d.len() implies char_digits(t)[i] == d[i] by {
            assert(0 <= d[i] < 58);
        }
    }
    assert(b58_number(s) == v);
    assert(digits_below(rd, 256));
    if rd.len() > 0 {
        assert(rd[0] == rest[0] as int);
        assert(rest[0] == b[z as int]);
    }
    lemma_digits_of_value(rd, 256);
    assert(to_digits(v, 256) == rd);
    assert(digit_bytes(rd) =~= rest);
    assert(zero_bytes(z) + rest =~= b) by {
        assert(b =~= b.take(z as int) + b.skip(z as int));
    }
}

/// Encoding the bytes that valid base58 text stands for gives that text
/// back.
pub proof fn lemma_encode_decode(s: Seq<char>)
    requires
        base58_decode(s) is Some,
    ensures
        base58_encode(base58_decode(s).unwrap()) == s,
{
    lemma_b58_char_digit();
    lemma_leading_ones(s);
    let z = leading_ones(s);
    let rest = s.skip(z as int);
    let cd = char_digits(rest);
    let n = b58_number(s);
    lemma_to_digits(n, 256);
    let bd = to_digits(n, 256);
    let tb = digit_bytes(bd);
    let b = zero_bytes(z) + tb;
    assert(base58_decode(s) == Some(b));
    assert(byte_digits(tb) =~= bd) by {
        assert forall|i: int| 0 <= i < bd.len() implies byte_digits(tb)[i] == bd[i] by {
            assert(0 <= bd[i] < 256);
        }
    }
    if tb.len() > 0 {
        assert(tb[0] == bd[0] as u8);
        assert(0 < bd[0] < 256);
    }
    lemma_leading_zero_bytes_of(z, tb);
    assert(b.skip(z as int) =~= tb);
    assert(bytes_number(b) == n);
    assert(digits_below(cd, 58)) by {
        assert forall|i: int| 0 <= i < cd.len() implies 0 <= #[trigger] cd[i] < 58 by {
            assert(cd[i] == b58_digit(s[i + z]));
        }
    }
    if cd.len() > 0 {
        assert(cd[0] == b58_digit(s[z as int]));
    }
    lemma_digits_of_value(cd, 58);
    assert(to_digits(n, 58) == cd);
    assert(digit_chars(cd) =~= rest) by {
        assert forall|i: int| 0 <= i < rest.len() implies digit_chars(cd)[i] == rest[i] by {
            assert(rest[i] == s[i + z]);
            assert(b58_digit(s[i + z]) >= 0);
        }
    }
    assert(repeat_char('1', z) + rest =~= s) by {
        assert(s =~= s.take(z as int) + s.skip(z as int));
    }
}

/// Base58 text is at most twice as long as the bytes it encodes.
pub proof fn lemma_encode_len(b: Seq<u8>)
    ensures
        base58_encode(b).len() <= 2 * b.len(),
{
    lemma_leading_zero_bytes(b);
    let z = leading_zero_bytes(b);
    let rd = byte_digits(b.skip(z as int));
    let m = rd.len();
    let v = bytes_number(b);
    lemma_value_bounds(rd, 256);
    lemma_pow_base_le(256, 3364, m);
    lemma_pow_multiplies(58, 2, m);
    reveal(pow);
    assert(pow(58, 2) == 3364) by {
        reveal_with_fuel(pow, 3);
    }
    lemma_to_digits_len(v, 58, 2 * m);
    assert(base58_encode(b).len() == z + to_digits(v, 58).len());
}

/// The crate's decoder cannot overflow its buffer on text of at most 132
/// characters.
pub proof fn lemma_decode_fits(s: Seq<char>)
    requires
        s.len() <= 132,
    ensures
        !b58_decode_overflows(s),
{
    if b58_valid(s) {
        lemma_b58_char_digit();
        lemma_leading_ones(s);
        let z = leading_ones(s);
        let cd = char_digits(s.skip(z as int));
        assert(digits_below(cd, 58)) by {
            assert forall|i: int| 0 <= i < cd.len() implies 0 <= #[trigger] cd[i] < 58 by {
                assert(cd[i] == b58_digit(s[i + z]));
            }
        }
        lemma_value_bounds(cd, 58);
        lemma_pow_base_le(58, 256, cd.len());
        lemma_to_digits_len(b58_number(s), 256, cd.len());
    }
}

/// Valid text of at most 132 characters spells a number below `2^1056`.
pub proof fn lemma_number_fits(s: Seq<char>)
    requires
        s.len() <= 132,
    ensures
        b58_valid(s) ==> b58_number(s) < pow2(1056),
{
    if b58_valid(s) {
        lemma_b58_char_digit();
        lemma_leading_ones(s);
        let z = leading_ones(s);
        let cd = char_digits(s.skip(z as int));
        assert(digits_below(cd, 58)) by {
            assert forall|i: int| 0 <= i < cd.len() implies 0 <= #[trigger] cd[i] < 58 by {
                assert(cd[i] == b58_digit(s[i + z]));
            }
        }
        lemma_value_bounds(cd, 58);
        lemma_pow_base_le(58, 256, cd.len());
        lemma_pow_increases(256, cd.len(), 132);
        lemma_pow_multiplies(2, 8, 132);
        assert(pow(2, 8) == 256) by {
            reveal_with_fuel(pow, 9);
        }
        lemma_pow2(1056);
    }
}

/// Text without its leading `'1'`s spells the same number, is valid
/// exactly when the whole text is, never overflows the decoder, and
/// decodes to what the whole text decodes to after its leading zeros.
pub proof fn lemma_strip_ones(s: Seq<char>)
    ensures
        ({
            let z = leading_ones(s);
            let r = s.skip(z as int);
            &&& z <= s.len()
            &&& s == repeat_char('1', z) + r
            &&& leading_ones(r) == 0
            &&& b58_number(r) == b58_number(s)
            &&& b58_valid(r) == b58_valid(s)
            &&& !b58_decode_overflows(r)
            &&& b58_valid(s) ==> base58_decode(s) == Some(
                zero_bytes(z) + base58_decode(r).unwrap(),
            )
        }),
{
    lemma_b58_char_digit();
    lemma_leading_ones(s);
    let z = leading_ones(s);
    let r = s.skip(z as int);
    assert(s =~= s.take(z as int) + r);
    if r.len() > 0 {
        assert(r[0] == s[z as int]);
    }
    lemma_leading_ones_of(0, r);
    assert(repeat_char('1', 0) + r =~= r);
    assert(r.skip(0) =~= r);
    assert(b58_valid(r) == b58_valid(s)) by {
        if b58_valid(s) {
            assert forall|i: int| 0 <= i < r.len() implies #[trigger] b58_digit(r[i]) >= 0 by {
                assert(r[i] == s[i + z]);
            }
        }
        if b58_valid(r) {
            assert forall|i: int| 0 <= i < s.len() implies #[trigger] b58_digit(s[i]) >= 0 by {
                if i >= z {
                    assert(s[i] == r[i - z]);
                } else {
                    assert(s[i] == s.take(z as int)[i]);
                }
            }
        }
    }
    if b58_valid(r) && b58_number(r) < pow2(1056) {
        lemma_pow_multiplies(2, 8, 132);
        assert(pow(2, 8) == 256) by {
            reveal_with_fuel(pow, 9);
        }
        lemma_pow2(1056);
        lemma_to_digits_len(b58_number(r), 256, 132);
    }
    assert(zero_bytes(0) + digit_bytes(to_digits(b58_number(r), 256)) =~= digit_bytes(
        to_digits(b58_number(r), 256),
    ));
}

} // verus!
