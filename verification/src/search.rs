//! The enumeration of candidates: a row of digit positions into an
//! alphabet, whose leftmost digits count up like an odometer, started from
//! a configured prefix and otherwise from random digits.

use vstd::prelude::*;
use vstd::arithmetic::power::*;
use vstd::arithmetic::div_mod::*;
use rand::Rng;
use crate::digits::{digits_below, digits_value, lemma_value_bounds, zero_digits};
use crate::text::{chars_vec, push_char, repeat_char};

verus! {

/// The position of the first `c` in `cs`.
pub open spec fn first_index(cs: Seq<char>, c: char) -> Option<int>
    decreases cs.len(),
{
    if cs.len() == 0 {
        None
    } else {
        match first_index(cs.drop_last(), c) {
            Some(i) => Some(i),
            None => if cs.last() == c {
                Some(cs.len() - 1)
            } else {
                None
            },
        }
    }
}

/// The position that the configured start fixes for digit `d`: that of
/// the start's `d`-th character in the alphabet, if both exist.
pub open spec fn fixed_digit(charset: Seq<char>, start: Seq<char>, d: int) -> Option<int> {
    if 0 <= d < start.len() {
        first_index(charset, start[d])
    } else {
        None
    }
}

/// Start positions: the fixed digit where there is one, else the
/// fallback digit.
pub open spec fn start_positions_spec(
    charset: Seq<char>,
    start: Seq<char>,
    n: nat,
    fallback: Seq<usize>,
) -> Seq<int> {
    Seq::new(
        n,
        |d: int|
            match fixed_digit(charset, start, d) {
                Some(p) => p,
                None => fallback[d] as int,
            },
    )
}

/// A start position for digit `d`: the fixed digit where the start gives
/// one, else any position in the alphabet.
pub open spec fn position_ok(charset: Seq<char>, start: Seq<char>, d: int, v: int) -> bool {
    match fixed_digit(charset, start, d) {
        Some(p) => v == p,
        None => 0 <= v < charset.len(),
    }
}

/// Digit positions read as integers.
pub open spec fn as_ints(v: Seq<usize>) -> Seq<int> {
    v.map_values(|x: usize| x as int)
}

/// The next digit string of the same length, counting up in base `base`
/// with the last digit the lowest; after all top digits it wraps to zeros.
pub open spec fn succ_digits(s: Seq<int>, base: int) -> Seq<int>
    decreases s.len(),
{
    if s.len() == 0 {
        s
    } else if s.last() + 1 < base {
        s.drop_last().push(s.last() + 1)
    } else {
        succ_digits(s.drop_last(), base).push(0)
    }
}

/// The candidate text of digit positions `digits` in `charset`.
pub open spec fn password_spec(charset: Seq<char>, digits: Seq<int>) -> Seq<char> {
    digits.map_values(|d: int| charset[d])
}

/// Counting up steps the value by one, modulo `base^len`.
pub proof fn lemma_succ_value(s: Seq<int>, base: int)
    requires
        base >= 1,
        digits_below(s, base),
    ensures
        succ_digits(s, base).len() == s.len(),
        digits_below(succ_digits(s, base), base),
        digits_value(succ_digits(s, base), base) == (digits_value(s, base) + 1) % pow(base, s.len()),
    decreases s.len(),
{
    reveal(pow);
    if s.len() == 0 {
        assert(pow(base, 0) == 1);
    } else {
        let t = s.drop_last();
        assert(digits_below(t, base)) by {
            assert forall|i: int| 0 <= i < t.len() implies 0 <= #[trigger] t[i] < base by {
                assert(t[i] == s[i]);
            }
        }
        lemma_value_bounds(t, base);
        let vt = digits_value(t, base);
        let p = pow(base, t.len());
        let last = s.last();
        assert(last == s[s.len() - 1]);
        assert(pow(base, s.len()) == base * p);
        let u = succ_digits(s, base);
        if last + 1 < base {
            assert(u == t.push(last + 1));
            assert(u.drop_last() =~= t);
            assert(digits_below(u, base)) by {
                assert forall|i: int| 0 <= i < u.len() implies 0 <= #[trigger] u[i] < base by {
                    if i < t.len() {
                        assert(u[i] == t[i]);
                    }
                }
            }
            assert(vt * base + last + 1 < base * p) by (nonlinear_arith)
                requires
                    0 <= vt < p,
                    0 <= last,
                    last + 1 < base,
            ;
            assert(0 <= vt * base) by (nonlinear_arith)
                requires
                    0 <= vt,
                    base >= 1,
            ;
            lemma_small_mod((vt * base + last + 1) as nat, (base * p) as nat);
        } else {
            assert(last == base - 1);
            lemma_succ_value(t, base);
            let ut = succ_digits(t, base);
            assert(u == ut.push(0));
            assert(u.drop_last() =~= ut);
            assert(digits_below(u, base)) by {
                assert forall|i: int| 0 <= i < u.len() implies 0 <= #[trigger] u[i] < base by {
                    if i < ut.len() {
                        assert(u[i] == ut[i]);
                    }
                }
            }
            lemma_pow_positive(base, t.len());
            lemma_mod_scaled(vt + 1, p, base);
            assert(vt * base + last + 1 == (vt + 1) * base) by (nonlinear_arith)
                requires
                    last == base - 1,
            ;
            assert((vt + 1) * base % (p * base) == (vt + 1) % p * base);
            assert(p * base == base * p) by (nonlinear_arith);
        }
    }
}

/// Scaling both sides of a remainder by a positive factor.
pub proof fn lemma_mod_scaled(x: int, p: int, b: int)
    requires
        x >= 0,
        p > 0,
        b > 0,
    ensures
        x * b % (p * b) == x % p * b,
{
    let q = x / p;
    let r = x % p;
    lemma_fundamental_div_mod(x, p);
    lemma_mod_bound(x, p);
    assert(x * b == q * (p * b) + r * b) by (nonlinear_arith)
        requires
            x == p * q + r,
    ;
    assert(0 <= r * b < p * b) by (nonlinear_arith)
        requires
            0 <= r < p,
            b > 0,
    ;
    lemma_fundamental_div_mod_converse(x * b, p * b, q, r * b);
}

/// `rand::Rng::gen_range(0..n)` on the thread's generator: some number
/// below `n`; which one is left to chance. It panics when `n` is zero.
#[verifier::external_body]
fn random_below(n: usize) -> (res: usize)
    requires
        n > 0,
    ensures
        res < n,
{
    rand::thread_rng().gen_range(0..n)
}

/// What `first_index` finds: the first occurrence, or none at all.
pub proof fn lemma_first_index(cs: Seq<char>, c: char)
    ensures
        first_index(cs, c) matches Some(i) ==> 0 <= i < cs.len() && cs[i] == c && forall|j: int|
            0 <= j < i ==> cs[j] != c,
        first_index(cs, c) is None ==> forall|j: int| 0 <= j < cs.len() ==> cs[j] != c,
    decreases cs.len(),
{
    if cs.len() > 0 {
        let t = cs.drop_last();
        lemma_first_index(t, c);
        assert forall|j: int| 0 <= j < t.len() implies t[j] == cs[j] by {}
    }
}

/// The position of the first `c` in `charset`.
fn first_position(charset: &Vec<char>, c: char) -> (res: Option<usize>)
    ensures
        res is Some <==> first_index(charset@, c) is Some,
        res matches Some(i) ==> first_index(charset@, c) == Some(i as int) && i < charset@.len(),
{
    let mut i: usize = 0;
    while i < charset.len()
        invariant
            i <= charset@.len(),
            forall|j: int| 0 <= j < i ==> charset@[j] != c,
        decreases charset@.len() - i,
    {
        if charset[i] == c {
            proof {
                lemma_first_index(charset@, c);
                match first_index(charset@, c) {
                    Some(j) => {
                        if j < i {
                            assert(charset@[j] != c);
                        } else if j > i {
                            assert(charset@[i as int] != c);
                        }
                    },
                    None => {
                        assert(charset@[i as int] != c);
                    },
                }
            }
            return Some(i);
        }
        i = i + 1;
    }
    proof {
        lemma_first_index(charset@, c);
        if let Some(j) = first_index(charset@, c) {
            assert(charset@[j] != c);
        }
    }
    None
}

/// The fixed digit for position `d`, if the start gives one.
fn fixed_position(charset: &Vec<char>, start: &Vec<char>, d: usize) -> (res: Option<usize>)
    ensures
        res is Some <==> fixed_digit(charset@, start@, d as int) is Some,
        res matches Some(i) ==> fixed_digit(charset@, start@, d as int) == Some(i as int) && i
            < charset@.len(),
{
    if d < start.len() {
        first_position(charset, start[d])
    } else {
        None
    }
}

/// Start positions for `n` digits: the fixed digit where the start gives
/// one, else the fallback digit.
pub fn start_positions(
    charset: &Vec<char>,
    start: &Vec<char>,
    n: usize,
    fallback: &Vec<usize>,
) -> (res: Vec<usize>)
    requires
        fallback@.len() >= n,
    ensures
        as_ints(res@) == start_positions_spec(charset@, start@, n as nat, fallback@),
{
    let mut res: Vec<usize> = Vec::new();
    let mut d: usize = 0;
    while d < n
        invariant
            d <= n,
            fallback@.len() >= n,
            res@.len() == d,
            forall|k: int|
                0 <= k < d ==> #[trigger] res@[k] as int == start_positions_spec(
                    charset@,
                    start@,
                    n as nat,
                    fallback@,
                )[k],
        decreases n - d,
    {
        let v: usize = match fixed_position(charset, start, d) {
            Some(p) => p,
            None => fallback[d],
        };
        assert(v as int == start_positions_spec(charset@, start@, n as nat, fallback@)[d as int]);
        let ghost before = res@;
        res.push(v);
        assert forall|k: int| 0 <= k < d + 1 implies #[trigger] res@[k] as int == start_positions_spec(
            charset@,
            start@,
            n as nat,
            fallback@,
        )[k] by {
            if k < d {
                assert(res@[k] == before[k]);
            }
        }
        d = d + 1;
    }
    assert(as_ints(res@) =~= start_positions_spec(charset@, start@, n as nat, fallback@));
    res
}

/// Random start positions for `n` digits: the fixed digit where the start
/// gives one, else a random position in the alphabet.
pub fn initial_positions(charset: &Vec<char>, start: &Vec<char>, n: usize) -> (res: Vec<usize>)
    requires
        charset@.len() > 0,
    ensures
        res@.len() == n,
        forall|d: int| 0 <= d < n ==> position_ok(charset@, start@, d, #[trigger] res@[d] as int),
{
    let mut res: Vec<usize> = Vec::new();
    let mut d: usize = 0;
    while d < n
        invariant
            d <= n,
            charset@.len() > 0,
            res@.len() == d,
            forall|k: int| 0 <= k < d ==> position_ok(charset@, start@, k, #[trigger] res@[k] as int),
        decreases n - d,
    {
        let v: usize = match fixed_position(charset, start, d) {
            Some(p) => p,
            None => random_below(charset.len()),
        };
        assert(position_ok(charset@, start@, d as int, v as int));
        let ghost before = res@;
        res.push(v);
        assert forall|k: int| 0 <= k < d + 1 implies position_ok(charset@, start@, k, #[trigger] res@[k] as int) by {
            if k < d {
                assert(res@[k] == before[k]);
            }
        }
        d = d + 1;
    }
    res
}

/// Counts the first `k` digits up by one in base `base`; the digits
/// after them stay.
fn count_up(digits: &mut Vec<usize>, k: usize, base: usize)
    requires
        k <= old(digits)@.len(),
        base >= 1,
        digits_below(as_ints(old(digits)@), base as int),
    ensures
        final(digits)@.len() == old(digits)@.len(),
        as_ints(final(digits)@).take(k as int) == succ_digits(as_ints(old(digits)@).take(k as int), base as int),
        final(digits)@.skip(k as int) == old(digits)@.skip(k as int),
        digits_below(as_ints(final(digits)@), base as int),
        as_ints(final(digits)@) == counted(as_ints(old(digits)@), k as int, base as int),
{
    let ghost old_d = as_ints(digits@);
    let mut i: usize = k;
    let mut done = false;
    while i > 0 && !done
        invariant
            i <= k,
            k <= digits@.len(),
            digits@.len() == old_d.len(),
            digits_below(old_d, base as int),
            digits@.skip(k as int) == old(digits)@.skip(k as int),
            old_d == as_ints(old(digits)@),
            done ==> as_ints(digits@).take(k as int) == succ_digits(old_d.take(k as int), base as int),
            !done ==> as_ints(digits@).take(i as int) == old_d.take(i as int),
            !done ==> succ_digits(old_d.take(k as int), base as int)
                == succ_digits(old_d.take(i as int), base as int) + zero_digits((k - i) as nat),
            !done ==> as_ints(digits@).subrange(i as int, k as int) == zero_digits((k - i) as nat),
        decreases i + (if done { 0int } else { 1int }),
    {
        let j = i - 1;
        let ghost pre = old_d.take(i as int);
        assert(pre.drop_last() =~= old_d.take(j as int));
        assert(pre.last() == old_d[j as int]);
        assert(old_d[j as int] == digits@[j as int] as int) by {
            assert(as_ints(digits@).take(i as int)[j as int] == old_d.take(i as int)[j as int]);
        }
        let ghost before = as_ints(digits@);
        let ghost before_raw = digits@;
        if digits[j] + 1 < base {
            let v = digits[j] + 1;
            digits.set(j, v);
            proof {
                assert(succ_digits(pre, base as int) == old_d.take(j as int).push(old_d[j as int] + 1));
                assert(as_ints(digits@).take(k as int) =~= succ_digits(old_d.take(k as int), base as int)) by {
                    assert forall|m: int| 0 <= m < k implies as_ints(digits@).take(k as int)[m]
                        == succ_digits(old_d.take(k as int), base as int)[m] by {
                        if m < j {
                            assert(before.take(i as int)[m] == old_d.take(i as int)[m]);
                            assert(as_ints(digits@)[m] == before[m]);
                        } else if m > j {
                            assert(before.subrange(i as int, k as int)[m - i] == 0);
                            assert(as_ints(digits@)[m] == before[m]);
                        }
                    }
                }
                assert(digits@.skip(k as int) =~= old(digits)@.skip(k as int)) by {
                    assert forall|m: int| 0 <= m < digits@.len() - k implies digits@.skip(k as int)[m]
                        == old(digits)@.skip(k as int)[m] by {
                        assert(digits@.skip(k as int)[m] == digits@[m + k]);
                        assert(digits@[m + k] == before_raw[m + k]);
                        assert(before_raw.skip(k as int)[m] == before_raw[m + k]);
                    }
                }
            }
            done = true;
        } else {
            digits.set(j, 0);
            proof {
                assert(old_d[j as int] + 1 >= base);
                assert(succ_digits(pre, base as int) == succ_digits(old_d.take(j as int), base as int).push(0));
                assert(succ_digits(old_d.take(k as int), base as int)
                    =~= succ_digits(old_d.take(j as int), base as int) + zero_digits((k - j) as nat));
                assert(as_ints(digits@).take(j as int) =~= old_d.take(j as int)) by {
                    assert forall|m: int| 0 <= m < j implies as_ints(digits@).take(j as int)[m]
                        == old_d.take(j as int)[m] by {
                        assert(before.take(i as int)[m] == old_d.take(i as int)[m]);
                        assert(as_ints(digits@)[m] == before[m]);
                    }
                }
                assert(as_ints(digits@).subrange(j as int, k as int) =~= zero_digits((k - j) as nat)) by {
                    assert forall|m: int| 0 <= m < k - j implies as_ints(digits@).subrange(j as int, k as int)[m]
                        == 0 by {
                        if m > 0 {
                            assert(before.subrange(i as int, k as int)[m - 1] == 0);
                            assert(as_ints(digits@)[j + m] == before[j + m]);
                        }
                    }
                }
                assert(digits@.skip(k as int) =~= old(digits)@.skip(k as int)) by {
                    assert forall|m: int| 0 <= m < digits@.len() - k implies digits@.skip(k as int)[m]
                        == old(digits)@.skip(k as int)[m] by {
                        assert(digits@.skip(k as int)[m] == digits@[m + k]);
                        assert(digits@[m + k] == before_raw[m + k]);
                        assert(before_raw.skip(k as int)[m] == before_raw[m + k]);
                    }
                }
            }
            i = j;
        }
    }
    proof {
        let od = as_ints(old(digits)@);
        assert(digits_below(od.take(k as int), base as int)) by {
            assert forall|m: int| 0 <= m < k implies 0 <= #[trigger] od.take(k as int)[m] < base by {
                assert(od.take(k as int)[m] == od[m]);
            }
        }
        lemma_succ_value(od.take(k as int), base as int);
        if !done {
            assert(i == 0);
            assert(old_d.take(0) =~= Seq::<int>::empty());
            assert(succ_digits(old_d.take(0), base as int) =~= Seq::<int>::empty());
            assert(as_ints(digits@).take(k as int) =~= as_ints(digits@).subrange(0, k as int));
            assert(succ_digits(old_d.take(k as int), base as int) =~= zero_digits(k as nat));
        }
        let nd = as_ints(digits@);
        assert forall|m: int| 0 <= m < nd.len() implies 0 <= #[trigger] nd[m] < base by {
            if m < k {
                assert(nd[m] == nd.take(k as int)[m]);
            } else {
                assert(digits@[m] == digits@.skip(k as int)[m - k]);
                assert(old(digits)@[m] == old(digits)@.skip(k as int)[m - k]);
                assert(od[m] == old(digits)@[m] as int);
            }
        }
        assert(nd =~= nd.take(k as int) + nd.skip(k as int));
        assert forall|m: int| 0 <= m < od.len() - k implies #[trigger] nd.skip(k as int)[m] == od.skip(k as int)[m] by {
            assert(digits@.skip(k as int)[m] == digits@[m + k]);
            assert(old(digits)@.skip(k as int)[m] == old(digits)@[m + k]);
        }
        assert(nd.skip(k as int) =~= od.skip(k as int));
    }
}

/// Each step counts the first `k` positions up by exactly one, modulo
/// `base^k`, keeps every position inside the alphabet, and leaves the
/// positions after the first `k` as they were.
pub proof fn lemma_counted(positions: Seq<int>, k: int, base: int)
    requires
        base >= 1,
        0 <= k <= positions.len(),
        digits_below(positions, base),
    ensures
        counted(positions, k, base).len() == positions.len(),
        digits_below(counted(positions, k, base), base),
        digits_value(counted(positions, k, base).take(k), base) == (digits_value(positions.take(k), base)
            + 1) % pow(base, k as nat),
        counted(positions, k, base).skip(k) == positions.skip(k),
{
    let t = positions.take(k);
    assert(digits_below(t, base)) by {
        assert forall|i: int| 0 <= i < t.len() implies 0 <= #[trigger] t[i] < base by {
            assert(t[i] == positions[i]);
        }
    }
    lemma_succ_value(t, base);
    let c = counted(positions, k, base);
    let u = succ_digits(t, base);
    assert(c.take(k) =~= u);
    assert(c.skip(k) =~= positions.skip(k));
    assert forall|i: int| 0 <= i < c.len() implies 0 <= #[trigger] c[i] < base by {
        if i < k {
            assert(c[i] == u[i]);
        } else {
            assert(c[i] == positions[i]);
        }
    }
}

/// The first message each worker gets: `len` copies of `a`.
pub fn warmup_candidate(len: usize) -> (res: String)
    ensures
        res@ == repeat_char('a', len as nat),
{
    let mut res = String::new();
    let mut i: usize = 0;
    while i < len
        invariant
            i <= len,
            res@ == repeat_char('a', i as nat),
        decreases len - i,
    {
        push_char(&mut res, 'a');
        i = i + 1;
        assert(res@ =~= repeat_char('a', i as nat));
    }
    res
}

/// Where the start text's `d`-th character is in the alphabet, position
/// `v` is where that character first stands in the alphabet.
pub open spec fn start_fixes(charset: Seq<char>, start: Seq<char>, d: int, v: int) -> bool {
    0 <= d < start.len() && charset.contains(start[d]) ==> {
        &&& 0 <= v < charset.len()
        &&& charset[v] == start[d]
        &&& forall|j: int| 0 <= j < v ==> charset[j] != start[d]
    }
}

/// A start position is inside the alphabet, and every character of the
/// start text that the alphabet holds fixes its digit to that
/// character's first place in the alphabet, at any digit.
pub proof fn lemma_position_ok_fixes(charset: Seq<char>, start: Seq<char>, d: int, v: int)
    requires
        position_ok(charset, start, d, v),
    ensures
        0 <= v < charset.len(),
        start_fixes(charset, start, d, v),
{
    if 0 <= d < start.len() {
        lemma_first_index(charset, start[d]);
        if charset.contains(start[d]) {
            let j = choose|j: int| 0 <= j < charset.len() && charset[j] == start[d];
            assert(charset[j] == start[d]);
        }
    }
}

/// The start positions that a fallback completes: every character of the
/// start text that the alphabet holds fixes its digit to that
/// character's first place in the alphabet; the other digits are the
/// fallback's.
pub proof fn lemma_start_positions_fix(
    charset: Seq<char>,
    start: Seq<char>,
    n: nat,
    fallback: Seq<usize>,
    d: int,
)
    requires
        0 <= d < n,
    ensures
        start_fixes(charset, start, d, start_positions_spec(charset, start, n, fallback)[d]),
        !(0 <= d < start.len() && charset.contains(start[d])) ==> start_positions_spec(
            charset,
            start,
            n,
            fallback,
        )[d] == fallback[d] as int,
{
    if 0 <= d < start.len() {
        lemma_first_index(charset, start[d]);
        if charset.contains(start[d]) {
            let j = choose|j: int| 0 <= j < charset.len() && charset[j] == start[d];
            assert(charset[j] == start[d]);
        }
    }
}

/// The candidate text has one character per digit: the alphabet's
/// character at that digit's position.
pub proof fn lemma_password(charset: Seq<char>, digits: Seq<int>)
    ensures
        password_spec(charset, digits).len() == digits.len(),
        forall|i: int| 0 <= i < digits.len() ==> #[trigger] password_spec(charset, digits)[i] == charset[digits[i]],
{
}

/// Why the search cannot start.
#[derive(Debug, Clone, Copy, PartialEq, Eq, Structural)]
pub enum SearchError {
    /// The candidates have no digits.
    NoDigits,
    /// The alphabet has no characters.
    EmptyAlphabet,
    /// The counting digits are more than the candidate's digits.
    CounterTooLong,
}

/// The enumeration state: the alphabet, the configured start, how many
/// leading digits count, and the current digit positions.
pub struct Search {
    charset: Vec<char>,
    start: Vec<char>,
    enum_start: usize,
    digits: Vec<usize>,
}

/// The positions after counting the first `k` of `positions` up by one.
pub open spec fn counted(positions: Seq<int>, k: int, base: int) -> Seq<int> {
    succ_digits(positions.take(k), base) + positions.skip(k)
}

impl Search {
    /// The alphabet of the candidates.
    pub closed spec fn alphabet(&self) -> Seq<char> {
        self.charset@
    }

    /// The configured start text.
    pub closed spec fn start_text(&self) -> Seq<char> {
        self.start@
    }

    /// How many leading digits count.
    pub closed spec fn counter_len(&self) -> int {
        self.enum_start as int
    }

    /// The current digit positions.
    pub closed spec fn positions(&self) -> Seq<int> {
        as_ints(self.digits@)
    }

    #[verifier::type_invariant]
    closed spec fn well_formed(&self) -> bool {
        &&& self.charset@.len() > 0
        &&& self.digits@.len() > 0
        &&& self.enum_start <= self.digits@.len()
        &&& digits_below(as_ints(self.digits@), self.charset@.len() as int)
    }

    /// A search over candidates of `pazl` digits of `alphabet`, starting
    /// from `start` where its characters are in the alphabet and from
    /// random digits elsewhere, counting the first `enum_start` digits.
    pub fn new(alphabet: &str, start: &str, pazl: usize, enum_start: usize) -> (res: Result<Search, SearchError>)
        ensures
            pazl == 0 ==> res == Err::<Search, SearchError>(SearchError::NoDigits),
            pazl > 0 && alphabet@.len() == 0 ==> res == Err::<Search, SearchError>(SearchError::EmptyAlphabet),
            pazl > 0 && alphabet@.len() > 0 && enum_start > pazl ==> res == Err::<Search, SearchError>(
                SearchError::CounterTooLong,
            ),
            pazl > 0 && alphabet@.len() > 0 && enum_start <= pazl ==> res is Ok,
            res matches Ok(s) ==> {
                &&& s.alphabet() == alphabet@
                &&& s.start_text() == start@
                &&& s.counter_len() == enum_start
                &&& s.positions().len() == pazl
                &&& forall|d: int|
                    0 <= d < pazl ==> position_ok(alphabet@, start@, d, #[trigger] s.positions()[d])
                &&& forall|d: int|
                    0 <= d < pazl ==> start_fixes(alphabet@, start@, d, #[trigger] s.positions()[d])
            },
    {
        if pazl == 0 {
            return Err(SearchError::NoDigits);
        }
        let charset = chars_vec(alphabet);
        if charset.len() == 0 {
            return Err(SearchError::EmptyAlphabet);
        }
        if enum_start > pazl {
            return Err(SearchError::CounterTooLong);
        }
        let start_chars = chars_vec(start);
        let digits = initial_positions(&charset, &start_chars, pazl);
        proof {
            assert forall|m: int| 0 <= m < digits@.len() implies 0 <= #[trigger] as_ints(digits@)[m] < charset@.len() by {
                assert(position_ok(charset@, start_chars@, m, digits@[m] as int));
                lemma_first_index(charset@, start_chars@[m]);
            }
        }
        let s = Search { charset, start: start_chars, enum_start, digits };
        proof {
            assert forall|d: int| 0 <= d < pazl implies position_ok(alphabet@, start@, d, #[trigger] s.positions()[d]) by {
                assert(position_ok(s.charset@, s.start@, d, s.digits@[d] as int));
            }
            assert forall|d: int| 0 <= d < pazl implies start_fixes(alphabet@, start@, d, #[trigger] s.positions()[d]) by {
                assert(position_ok(s.charset@, s.start@, d, s.digits@[d] as int));
                lemma_position_ok_fixes(alphabet@, start@, d, s.positions()[d]);
            }
        }
        Ok(s)
    }

    /// The current candidate: the alphabet's characters at the current
    /// positions.
    pub fn candidate(&self) -> (res: String)
        ensures
            res@ == password_spec(self.alphabet(), self.positions()),
            res@.len() == self.positions().len(),
            forall|i: int| 0 <= i < res@.len() ==> #[trigger] res@[i] == self.alphabet()[self.positions()[i]],
    {
        proof {
            use_type_invariant(self);
            lemma_password(self.alphabet(), self.positions());
        }
        let mut res = String::new();
        let mut i: usize = 0;
        while i < self.digits.len()
            invariant
                i <= self.digits@.len(),
                digits_below(as_ints(self.digits@), self.charset@.len() as int),
                res@ == password_spec(self.charset@, as_ints(self.digits@)).take(i as int),
            decreases self.digits@.len() - i,
        {
            assert(as_ints(self.digits@)[i as int] == self.digits@[i as int] as int);
            let c = self.charset[self.digits[i]];
            push_char(&mut res, c);
            i = i + 1;
            assert(res@ =~= password_spec(self.charset@, as_ints(self.digits@)).take(i as int));
        }
        assert(password_spec(self.charset@, as_ints(self.digits@)).take(i as int)
            =~= password_spec(self.charset@, as_ints(self.digits@)));
        res
    }

    /// Hands out the current candidate and moves on: the counting digits
    /// step up by one; when that leaves the first position at zero, the
    /// positions start over from the start text, with `fallback` where the
    /// start fixes no digit.
    pub fn step_with(&mut self, fallback: &Vec<usize>) -> (res: String)
        requires
            fallback@.len() >= old(self).positions().len(),
            forall|i: int| 0 <= i < fallback@.len() ==> #[trigger] fallback@[i] < old(self).alphabet().len(),
        ensures
            res@ == password_spec(old(self).alphabet(), old(self).positions()),
            res@.len() == old(self).positions().len(),
            forall|i: int|
                0 <= i < res@.len() ==> #[trigger] res@[i] == old(self).alphabet()[old(self).positions()[i]],
            final(self).alphabet() == old(self).alphabet(),
            final(self).start_text() == old(self).start_text(),
            final(self).counter_len() == old(self).counter_len(),
            ({
                let c = counted(old(self).positions(), old(self).counter_len(), old(self).alphabet().len() as int);
                if c[0] != 0 {
                    final(self).positions() == c
                } else {
                    &&& final(self).positions() == start_positions_spec(
                        old(self).alphabet(),
                        old(self).start_text(),
                        c.len() as nat,
                        fallback@,
                    )
                    &&& forall|d: int|
                        0 <= d < c.len() ==> start_fixes(
                            old(self).alphabet(),
                            old(self).start_text(),
                            d,
                            #[trigger] final(self).positions()[d],
                        )
                }
            }),
    {
        proof {
            use_type_invariant(&*self);
        }
        let res = self.candidate();
        let base = self.charset.len();
        let ghost old_pos = as_ints(self.digits@);
        let mut digits = vstd::slice::slice_to_vec(self.digits.as_slice());
        count_up(&mut digits, self.enum_start, base);
        self.digits = digits;
        assert(self.digits@.len() == old(self).positions().len());
        if self.digits[0] == 0 {
            let fresh = start_positions(&self.charset, &self.start, self.digits.len(), fallback);
            assert(fresh@.len() == as_ints(fresh@).len());
            proof {
                let sp = start_positions_spec(self.charset@, self.start@, self.digits@.len() as nat, fallback@);
                assert forall|m: int| 0 <= m < fresh@.len() implies 0 <= #[trigger] as_ints(fresh@)[m] < base by {
                    assert(as_ints(fresh@)[m] == sp[m]);
                    if m < self.start@.len() {
                        lemma_first_index(self.charset@, self.start@[m]);
                    }
                    if fixed_digit(self.charset@, self.start@, m) is None {
                        assert(m < fallback@.len());
                        assert(base == old(self).alphabet().len());
                        assert(fallback@[m] < old(self).alphabet().len());
                    }
                }
            }
            self.digits = fresh;
            proof {
                assert forall|d: int| 0 <= d < self.digits@.len() implies start_fixes(
                    self.charset@,
                    self.start@,
                    d,
                    #[trigger] as_ints(self.digits@)[d],
                ) by {
                    lemma_start_positions_fix(self.charset@, self.start@, self.digits@.len() as nat, fallback@, d);
                }
            }
        }
        res
    }

    /// Hands out the current candidate and moves on like `step_with`,
    /// with random positions where the start fixes no digit.
    pub fn step(&mut self) -> (res: String)
        ensures
            res@ == password_spec(old(self).alphabet(), old(self).positions()),
            res@.len() == old(self).positions().len(),
            forall|i: int|
                0 <= i < res@.len() ==> #[trigger] res@[i] == old(self).alphabet()[old(self).positions()[i]],
            final(self).alphabet() == old(self).alphabet(),
            final(self).start_text() == old(self).start_text(),
            final(self).counter_len() == old(self).counter_len(),
            ({
                let c = counted(old(self).positions(), old(self).counter_len(), old(self).alphabet().len() as int);
                if c[0] != 0 {
                    final(self).positions() == c
                } else {
                    &&& final(self).positions().len() == c.len()
                    &&& forall|d: int|
                        0 <= d < c.len() ==> position_ok(
                            old(self).alphabet(),
                            old(self).start_text(),
                            d,
                            #[trigger] final(self).positions()[d],
                        )
                    &&& forall|d: int|
                        0 <= d < c.len() ==> start_fixes(
                            old(self).alphabet(),
                            old(self).start_text(),
                            d,
                            #[trigger] final(self).positions()[d],
                        )
                }
            }),
    {
        proof {
            use_type_invariant(&*self);
        }
        let res = self.candidate();
        let base = self.charset.len();
        let ghost old_pos = as_ints(self.digits@);
        let mut digits = vstd::slice::slice_to_vec(self.digits.as_slice());
        count_up(&mut digits, self.enum_start, base);
        self.digits = digits;
        if self.digits[0] == 0 {
            let fresh = initial_positions(&self.charset, &self.start, self.digits.len());
            proof {
                assert forall|m: int| 0 <= m < fresh@.len() implies 0 <= #[trigger] as_ints(fresh@)[m] < base by {
                    assert(position_ok(self.charset@, self.start@, m, fresh@[m] as int));
                    if m < self.start@.len() {
                        lemma_first_index(self.charset@, self.start@[m]);
                    }
                }
            }
            self.digits = fresh;
            proof {
                assert forall|d: int| 0 <= d < self.digits@.len() implies position_ok(
                    self.charset@,
                    self.start@,
                    d,
                    #[trigger] as_ints(self.digits@)[d],
                ) by {
                    assert(position_ok(self.charset@, self.start@, d, self.digits@[d] as int));
                }
                assert forall|d: int| 0 <= d < self.digits@.len() implies start_fixes(
                    self.charset@,
                    self.start@,
                    d,
                    #[trigger] as_ints(self.digits@)[d],
                ) by {
                    assert(position_ok(self.charset@, self.start@, d, self.digits@[d] as int));
                    lemma_position_ok_fixes(self.charset@, self.start@, d, as_ints(self.digits@)[d]);
                }
            }
        }
        res
    }
}

} // verus!
