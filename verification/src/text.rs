//! Plain text helpers: padding, words, decimal numbers.

use vstd::prelude::*;
use crate::digits::{digits_value, lemma_value_prefix_le};

verus! {

/// Appends one character to a `String` (`String::push`).
#[verifier::external_body]
pub(crate) fn push_char(s: &mut String, c: char)
    ensures
        final(s)@ == old(s)@.push(c),
{
    s.push(c);
}

/// The number of zero digits that pad a key of `p` hex digits to 64 digits.
pub open spec fn zero_pad_len(p: int) -> int {
    if p >= 64 { 0 } else { 64 - p }
}

/// A string of `n` copies of `c`.
pub open spec fn repeat_char(c: char, n: nat) -> Seq<char> {
    Seq::new(n, |_i: int| c)
}

/// The zeros that left-pad a `p`-digit hex key to 64 digits:
/// `64 - p` zeros, or none when `p >= 64`.
pub fn start_zero(p: usize) -> (res: String)
    ensures
        res@ == repeat_char('0', zero_pad_len(p as int) as nat),
{
    let mut res = String::new();
    if p >= 64 {
        return res;
    }
    let n: usize = 64 - p;
    let mut i: usize = 0;
    while i < n
        invariant
            i <= n,
            n == 64 - p,
            res@ == repeat_char('0', i as nat),
        decreases n - i,
    {
        push_char(&mut res, '0');
        i = i + 1;
        assert(res@ =~= repeat_char('0', i as nat));
    }
    res
}

} // verus!

verus! {

/// The characters of `s`, in order.
pub fn chars_vec(s: &str) -> (v: Vec<char>)
    ensures
        v@ == s@,
{
    let mut v: Vec<char> = Vec::new();
    for c in it: s.chars()
        invariant
            v@ == it.seq().take(it.index() as int),
    {
        v.push(c);
    }
    v
}

} // verus!

verus! {

/// Appends text to a `String` (`String::push_str`).
#[verifier::external_body]
pub(crate) fn push_str(s: &mut String, t: &str)
    ensures
        final(s)@ == old(s)@ + t@,
{
    s.push_str(t);
}

/// The character of decimal digit `d` (`0 <= d < 10`).
pub open spec fn digit_char(d: int) -> char {
    (48 + d) as char
}

/// The decimal numeral of `n`, without leading zeros.
pub open spec fn decimal_digits(n: nat) -> Seq<char>
    decreases n,
{
    if n < 10 {
        seq![digit_char(n as int)]
    } else {
        decimal_digits(n / 10).push(digit_char((n % 10) as int))
    }
}

/// The decimal numeral of `n`.
pub fn decimal_string(n: usize) -> (res: String)
    ensures
        res@ == decimal_digits(n as nat),
    decreases n,
{
    if n < 10 {
        let mut s = String::new();
        push_char(&mut s, ((48 + n) as u8) as char);
        assert(s@ =~= decimal_digits(n as nat));
        s
    } else {
        let mut s = decimal_string(n / 10);
        push_char(&mut s, ((48 + n % 10) as u8) as char);
        s
    }
}

/// The configuration text up to the processor count.
pub const CONF_HEAD: &'static str = "1   -КОЛИЧЕСТВО ПОТОКОВ ПРОЦЕССОРА 1/";

/// The configuration text after the processor count.
pub const CONF_TAIL: &'static str = "\n\
            17  -ДЛИННА ПАЗЛА(17-40). 66,67,68 ПАЗЛ = 17 ЗНАКОВ\n\
            1a838b13505b26867 -НАЧАЛЬНОЕ ЗНАЧЕНИЕ(0123456789ABCDEF)(для теста 65 пазл 1a838b13505b26867)\n\
            7   -КОЛИЧЕСТВО СИМВОЛОВ ПОСЛЕДОВАТЕЛЬНОГО ПЕРЕБОРА СЛЕВА\n\
            0123456789ABCDEF -АЛФАВИТ(0123456789ABCDEF)\n\
            1   -ОТОБРАЖЕНИЕ СКОРОСТИ И ТЕКУЩЕГО ПОДБОРА(0-выкл, 1-включенно) \n\n
            Найденное сохраниться в  FOUND_PAZL.txt\n\
            ---Задонатить:------\n\
            (BTC)              bc1qg89l3580w7zgqkc54kufgpdyk3ur88d772l9y0\n\
            (KASPA)            kaspa:qpjmst279twpa48yyql3frxk8k2fsa6sh2pky7szv27s9ftq0wwssaffg58up\n\
            (TONCOIN telegram) UQD4ULmR2ddYigLQ82D-_MPbSXkIzasHA73JFg1-hY4l-Ft4";

/// The default configuration text for a machine with `cpus` processors.
pub open spec fn conf_text_spec(cpus: nat) -> Seq<char> {
    CONF_HEAD@ + decimal_digits(cpus) + CONF_TAIL@
}

/// The default configuration text for a machine with `cpus` processors.
pub fn conf_text(cpus: usize) -> (res: String)
    ensures
        res@ == conf_text_spec(cpus as nat),
{
    let mut s = String::new();
    push_str(&mut s, CONF_HEAD);
    let n = decimal_string(cpus);
    push_str(&mut s, n.as_str());
    push_str(&mut s, CONF_TAIL);
    assert(s@ =~= conf_text_spec(cpus as nat));
    s
}

/// `num_cpus::get`: the number of logical processors, which the crate
/// documents as never below 1; which number it is depends on the machine.
#[verifier::external_body]
fn cpu_count() -> (res: usize)
    ensures
        res >= 1,
{
    num_cpus::get()
}

/// The default configuration text for this machine.
pub fn get_conf_text() -> (res: String)
    ensures
        exists|n: nat| n >= 1 && res@ == conf_text_spec(n),
{
    let n = cpu_count();
    conf_text(n)
}

} // verus!

verus! {

/// White space as `char::is_whitespace` defines it: the characters of
/// the Unicode `White_Space` property.
pub open spec fn is_space(c: char) -> bool {
    let x = c as int;
    (0x9 <= x <= 0xD) || x == 0x20 || x == 0x85 || x == 0xA0 || x == 0x1680 || (0x2000 <= x
        <= 0x200A) || x == 0x2028 || x == 0x2029 || x == 0x202F || x == 0x205F || x == 0x3000
}

/// Whether `c` is white space.
pub fn is_space_char(c: char) -> (res: bool)
    ensures
        res == is_space(c),
{
    let x = c as u32;
    (0x9 <= x && x <= 0xD) || x == 0x20 || x == 0x85 || x == 0xA0 || x == 0x1680 || (0x2000 <= x
        && x <= 0x200A) || x == 0x2028 || x == 0x2029 || x == 0x202F || x == 0x205F || x == 0x3000
}

/// `s` without its leading white space.
pub open spec fn skip_space(s: Seq<char>) -> Seq<char>
    decreases s.len(),
{
    if s.len() > 0 && is_space(s[0]) {
        skip_space(s.drop_first())
    } else {
        s
    }
}

/// The characters of `s` before its first white space.
pub open spec fn take_word(s: Seq<char>) -> Seq<char>
    decreases s.len(),
{
    if s.len() > 0 && !is_space(s[0]) {
        seq![s[0]] + take_word(s.drop_first())
    } else {
        seq![]
    }
}

/// The first word of `s`: its first run of characters that are not
/// white space, or nothing.
pub open spec fn first_word_spec(s: Seq<char>) -> Seq<char> {
    take_word(skip_space(s))
}

/// The first whitespace-separated word of a line, or the empty string.
pub fn first_word(s: &String) -> (res: String)
    ensures
        res@ == first_word_spec(s@),
{
    let cs = chars_vec(s.as_str());
    let n = cs.len();
    let mut i: usize = 0;
    assert(cs@.skip(0) =~= cs@);
    while i < n && is_space_char(cs[i])
        invariant
            i <= n,
            n == cs@.len(),
            skip_space(cs@) == skip_space(cs@.skip(i as int)),
        decreases n - i,
    {
        assert(cs@.skip(i as int).drop_first() =~= cs@.skip(i + 1));
        i = i + 1;
    }
    assert(skip_space(cs@.skip(i as int)) == cs@.skip(i as int)) by {
        if i < n {
            assert(cs@.skip(i as int)[0] == cs@[i as int]);
        }
    }
    let mut res = String::new();
    let mut j: usize = i;
    while j < n && !is_space_char(cs[j])
        invariant
            i <= j <= n,
            n == cs@.len(),
            take_word(cs@.skip(i as int)) == res@ + take_word(cs@.skip(j as int)),
        decreases n - j,
    {
        assert(cs@.skip(j as int).drop_first() =~= cs@.skip(j + 1));
        assert(cs@.skip(j as int)[0] == cs@[j as int]);
        push_char(&mut res, cs[j]);
        j = j + 1;
        assert(take_word(cs@.skip(i as int)) =~= res@ + take_word(cs@.skip(j as int)));
    }
    assert(take_word(cs@.skip(j as int)) =~= Seq::<char>::empty()) by {
        if j < n {
            assert(cs@.skip(j as int)[0] == cs@[j as int]);
        }
    }
    assert(res@ =~= first_word_spec(s@));
    res
}

} // verus!

verus! {

/// The value of decimal digit `c`, or -1.
pub open spec fn dec_digit(c: char) -> int {
    if '0' <= c <= '9' {
        c as int - 48
    } else {
        -1
    }
}

/// `s` is one or more decimal digits.
pub open spec fn all_decimal(s: Seq<char>) -> bool {
    s.len() > 0 && forall|i: int| 0 <= i < s.len() ==> #[trigger] dec_digit(s[i]) >= 0
}

/// The number that decimal digits `s` spell.
pub open spec fn decimal_value(s: Seq<char>) -> int {
    digits_value(s.map_values(|c: char| dec_digit(c)), 10)
}

/// What `str::parse` gives for an unsigned integer type whose largest
/// value is `max`: an optional `+`, then decimal digits, of a value up
/// to `max`.
pub open spec fn parse_unsigned(s: Seq<char>, max: int) -> Option<int> {
    let b = if s.len() > 0 && s[0] == '+' {
        s.drop_first()
    } else {
        s
    };
    if all_decimal(b) && decimal_value(b) <= max {
        Some(decimal_value(b))
    } else {
        None
    }
}

/// What `str::parse` gives for a signed integer type of range
/// `min ..= max`: a `-` and decimal digits for a negative value, otherwise
/// as for an unsigned type.
pub open spec fn parse_signed(s: Seq<char>, min: int, max: int) -> Option<int> {
    if s.len() > 0 && s[0] == '-' {
        let b = s.drop_first();
        if all_decimal(b) && -decimal_value(b) >= min {
            Some(-decimal_value(b))
        } else {
            None
        }
    } else {
        parse_unsigned(s, max)
    }
}

/// The number that the digits of `cs` from `from` on spell, if all are
/// decimal digits, there is at least one, and the number is at most `max`.
fn magnitude(cs: &Vec<char>, from: usize, max: u64) -> (res: Option<u64>)
    requires
        from <= cs@.len(),
        max >= 9,
    ensures
        res is Some <==> (all_decimal(cs@.skip(from as int)) && decimal_value(cs@.skip(from as int)) <= max),
        res matches Some(v) ==> v == decimal_value(cs@.skip(from as int)),
{
    let ghost b = cs@.skip(from as int);
    let ghost bd = b.map_values(|c: char| dec_digit(c));
    if from == cs.len() {
        return None;
    }
    let mut v: u64 = 0;
    let mut i: usize = from;
    while i < cs.len()
        invariant
            from <= i <= cs@.len(),
            max >= 9,
            b == cs@.skip(from as int),
            bd == b.map_values(|c: char| dec_digit(c)),
            forall|k: int| 0 <= k < i - from ==> #[trigger] dec_digit(b[k]) >= 0,
            v == digits_value(bd.take(i - from), 10),
            v <= max,
        decreases cs@.len() - i,
    {
        let c = cs[i];
        assert(b[i - from] == c);
        if !('0' <= c && c <= '9') {
            assert(dec_digit(b[i - from]) < 0);
            return None;
        }
        let d: u64 = (c as u32 - 48) as u64;
        assert(bd.take(i - from + 1).drop_last() =~= bd.take(i - from));
        assert(bd[i - from] == d);
        if v > (max - d) / 10 {
            proof {
                assert(v * 10 + d > max) by (nonlinear_arith)
                    requires
                        v > (max - d) / 10,
                        d <= 9,
                        max >= 9,
                ;
                if all_decimal(b) {
                    assert forall|k: int| 0 <= k < bd.len() implies #[trigger] bd[k] >= 0 by {
                        assert(dec_digit(b[k]) >= 0);
                    }
                    lemma_value_prefix_le(bd, 10, i - from + 1);
                }
            }
            return None;
        }
        assert(v * 10 + d <= max) by (nonlinear_arith)
            requires
                v <= (max - d) / 10,
                d <= 9,
                max >= 9,
        ;
        v = v * 10 + d;
        i = i + 1;
    }
    assert(bd.take(i - from) =~= bd);
    Some(v)
}

/// A decimal `usize`, as `str::parse::<usize>` reads it.
pub fn parse_usize(s: &str) -> (res: Option<usize>)
    ensures
        res is Some <==> parse_unsigned(s@, usize::MAX as int) is Some,
        res matches Some(r) ==> r as int == parse_unsigned(s@, usize::MAX as int).unwrap(),
{
    let cs = chars_vec(s);
    let from: usize = if cs.len() > 0 && cs[0] == '+' {
        1
    } else {
        0
    };
    assert(from == 1 ==> cs@.skip(1) =~= s@.drop_first());
    assert(from == 0 ==> cs@.skip(0) =~= s@);
    match magnitude(&cs, from, usize::MAX as u64) {
        Some(v) => Some(v as usize),
        None => None,
    }
}

/// A decimal `i8`, as `str::parse::<i8>` reads it.
pub fn parse_i8(s: &str) -> (res: Option<i8>)
    ensures
        res is Some <==> parse_signed(s@, -128, 127) is Some,
        res matches Some(r) ==> r as int == parse_signed(s@, -128, 127).unwrap(),
{
    let cs = chars_vec(s);
    if cs.len() > 0 && cs[0] == '-' {
        assert(cs@.skip(1) =~= s@.drop_first());
        match magnitude(&cs, 1, 128) {
            Some(v) => {
                let neg: i16 = 0 - (v as i16);
                Some(neg as i8)
            },
            None => None,
        }
    } else {
        let from: usize = if cs.len() > 0 && cs[0] == '+' {
            1
        } else {
            0
        };
        assert(from == 1 ==> cs@.skip(1) =~= s@.drop_first());
        assert(from == 0 ==> cs@.skip(0) =~= s@);
        match magnitude(&cs, from, 127) {
            Some(v) => Some(v as i8),
            None => None,
        }
    }
}

} // verus!

verus! {

/// The decimal numeral of `n` is all digits and spells `n`.
pub proof fn lemma_decimal_digits(n: nat)
    ensures
        all_decimal(decimal_digits(n)),
        decimal_value(decimal_digits(n)) == n,
    decreases n,
{
    let s = decimal_digits(n);
    if n < 10 {
        assert(s.map_values(|c: char| dec_digit(c)) =~= seq![n as int]);
        assert(seq![n as int].drop_last() =~= Seq::<int>::empty());
        assert(digits_value(seq![n as int], 10) == digits_value(Seq::<int>::empty(), 10) * 10 + n);
    } else {
        let q = n / 10;
        lemma_decimal_digits(q);
        let t = decimal_digits(q);
        assert(s == t.push(digit_char((n % 10) as int)));
        let sd = s.map_values(|c: char| dec_digit(c));
        assert(sd.drop_last() =~= t.map_values(|c: char| dec_digit(c)));
        assert(sd.last() == n % 10);
        assert(n == q * 10 + n % 10);
        assert(digits_value(sd, 10) == digits_value(sd.drop_last(), 10) * 10 + sd.last());
        assert forall|i: int| 0 <= i < s.len() implies #[trigger] dec_digit(s[i]) >= 0 by {
            if i < t.len() {
                assert(s[i] == t[i]);
            }
        }
    }
}

/// Reading back the decimal numeral of a number gives the number.
pub proof fn lemma_parse_decimal(n: nat, max: int)
    requires
        n <= max,
    ensures
        parse_unsigned(decimal_digits(n), max) == Some(n as int),
{
    lemma_decimal_digits(n);
    let s = decimal_digits(n);
    assert(dec_digit(s[0]) >= 0);
}

} // verus!
