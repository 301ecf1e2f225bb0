//! Positional numerals: the value of a big-endian digit string and the
//! shortest digit string of a number, in any base.

use vstd::prelude::*;
use vstd::arithmetic::power::*;
use vstd::arithmetic::div_mod::*;
use vstd::arithmetic::mul::*;

verus! {

/// The value of the big-endian digit string `s` in base `base`.
pub open spec fn digits_value(s: Seq<int>, base: int) -> int
    decreases s.len(),
{
    if s.len() == 0 {
        0
    } else {
        digits_value(s.drop_last(), base) * base + s.last()
    }
}

/// Every digit of `s` lies in `0 .. base`.
pub open spec fn digits_below(s: Seq<int>, base: int) -> bool {
    forall|i: int| 0 <= i < s.len() ==> 0 <= #[trigger] s[i] < base
}

/// The shortest big-endian digit string of `v` in base `base`
/// (empty for zero).
pub open spec fn to_digits(v: nat, base: nat) -> Seq<int>
    decreases v,
{
    if v == 0 || base < 2 {
        seq![]
    } else {
        proof {
            lemma_div_decreases(v as int, base as int);
        }
        to_digits((v / base) as nat, base).push((v % base) as int)
    }
}

/// A string of `n` zero digits.
pub open spec fn zero_digits(n: nat) -> Seq<int> {
    Seq::new(n, |_i: int| 0int)
}

/// `to_digits` gives digits below the base, with no leading zero,
/// whose value is the number itself.
pub proof fn lemma_to_digits(v: nat, base: nat)
    requires
        base >= 2,
    ensures
        digits_below(to_digits(v, base), base as int),
        digits_value(to_digits(v, base), base as int) == v,
        to_digits(v, base).len() == 0 <==> v == 0,
        to_digits(v, base).len() > 0 ==> to_digits(v, base)[0] != 0,
    decreases v,
{
    if v != 0 {
        lemma_div_decreases(v as int, base as int);
        let q = (v / base) as nat;
        lemma_to_digits(q, base);
        let d = to_digits(v, base);
        assert(d == to_digits(q, base).push((v % base) as int));
        assert(d.drop_last() =~= to_digits(q, base));
        lemma_fundamental_div_mod(v as int, base as int);
        lemma_mod_bound(v as int, base as int);
        assert(digits_value(d, base as int) == q * base + v % base) by {
            lemma_mul_is_commutative(q as int, base as int);
        }
        if q == 0 {
            assert(d.len() == 1);
            assert(v % base == v) by {
                assert(v == base * q + v % base);
            }
        }
    }
}

/// A digit string below the base has a value in `0 .. base^len`.
pub proof fn lemma_value_bounds(s: Seq<int>, base: int)
    requires
        base >= 1,
        digits_below(s, base),
    ensures
        0 <= digits_value(s, base) < pow(base, s.len()),
    decreases s.len(),
{
    reveal(pow);
    if s.len() > 0 {
        let t = s.drop_last();
        assert(digits_below(t, base)) by {
            assert forall|i: int| 0 <= i < t.len() implies 0 <= #[trigger] t[i] < base by {
                assert(t[i] == s[i]);
            }
        }
        lemma_value_bounds(t, base);
        let vt = digits_value(t, base);
        let p = pow(base, t.len());
        assert(s.last() == s[s.len() - 1]);
        assert(pow(base, s.len()) == base * p);
        assert(vt * base + s.last() < base * p) by (nonlinear_arith)
            requires
                0 <= vt < p,
                0 <= s.last() < base,
        ;
        assert(0 <= vt * base) by (nonlinear_arith)
            requires
                0 <= vt,
                base >= 1,
        ;
    }
}

/// A digit string whose leading digit is not zero has a value of at
/// least `base^(len - 1)`.
pub proof fn lemma_value_lower(s: Seq<int>, base: int)
    requires
        base >= 2,
        digits_below(s, base),
        s.len() > 0,
        s[0] != 0,
    ensures
        digits_value(s, base) >= pow(base, (s.len() - 1) as nat),
    decreases s.len(),
{
    reveal(pow);
    let t = s.drop_last();
    if s.len() == 1 {
        assert(t.len() == 0);
        assert(s.last() == s[0]);
        assert(pow(base, 0) == 1);
        assert(digits_value(t, base) == 0);
        assert(digits_value(s, base) == digits_value(t, base) * base + s.last());
        assert(0 * base == 0) by (nonlinear_arith);
    } else {
        assert(t[0] == s[0]);
        assert(digits_below(t, base)) by {
            assert forall|i: int| 0 <= i < t.len() implies 0 <= #[trigger] t[i] < base by {
                assert(t[i] == s[i]);
            }
        }
        lemma_value_lower(t, base);
        let vt = digits_value(t, base);
        let p = pow(base, (t.len() - 1) as nat);
        assert(pow(base, (s.len() - 1) as nat) == base * p);
        assert(s.last() == s[s.len() - 1]);
        assert(vt * base + s.last() >= base * p) by (nonlinear_arith)
            requires
                vt >= p,
                s.last() >= 0,
                base >= 2,
        ;
    }
}

/// The shortest digit string of the value of a digit string with no
/// leading zero is that string itself.
pub proof fn lemma_digits_of_value(s: Seq<int>, base: int)
    requires
        base >= 2,
        digits_below(s, base),
        s.len() == 0 || s[0] != 0,
    ensures
        digits_value(s, base) >= 0,
        to_digits(digits_value(s, base) as nat, base as nat) == s,
    decreases s.len(),
{
    lemma_value_bounds(s, base);
    if s.len() > 0 {
        let t = s.drop_last();
        assert(digits_below(t, base)) by {
            assert forall|i: int| 0 <= i < t.len() implies 0 <= #[trigger] t[i] < base by {
                assert(t[i] == s[i]);
            }
        }
        if t.len() > 0 {
            assert(t[0] == s[0]);
        }
        lemma_digits_of_value(t, base);
        let vt = digits_value(t, base);
        let v = digits_value(s, base);
        assert(s.last() == s[s.len() - 1]);
        lemma_value_lower(s, base);
        lemma_pow_positive(base, (s.len() - 1) as nat);
        assert(v > 0);
        lemma_fundamental_div_mod_converse(v, base, vt, s.last());
        assert(to_digits(v as nat, base as nat) == to_digits(vt as nat, base as nat).push(s.last()));
        assert(s =~= t.push(s.last()));
    }
}

/// A number below `base^n` has at most `n` digits.
pub proof fn lemma_to_digits_len(v: nat, base: nat, n: nat)
    requires
        base >= 2,
        v < pow(base as int, n),
    ensures
        to_digits(v, base).len() <= n,
    decreases n,
{
    reveal(pow);
    if v != 0 {
        assert(n > 0);
        let q = (v / base) as nat;
        let p = pow(base as int, (n - 1) as nat);
        assert(pow(base as int, n) == base * p);
        assert(q < p) by {
            lemma_fundamental_div_mod(v as int, base as int);
            lemma_mod_bound(v as int, base as int);
            assert(q < p) by (nonlinear_arith)
                requires
                    v == base * q + v % base,
                    v % base >= 0,
                    v < base * p,
                    base >= 2,
            ;
        }
        lemma_to_digits_len(q, base, (n - 1) as nat);
    }
}

/// Powers grow with their base.
pub proof fn lemma_pow_base_le(a: int, b: int, e: nat)
    requires
        0 <= a <= b,
    ensures
        0 <= pow(a, e) <= pow(b, e),
    decreases e,
{
    reveal(pow);
    if e > 0 {
        lemma_pow_base_le(a, b, (e - 1) as nat);
        let pa = pow(a, (e - 1) as nat);
        let pb = pow(b, (e - 1) as nat);
        assert(0 <= a * pa <= b * pb) by (nonlinear_arith)
            requires
                0 <= a <= b,
                0 <= pa <= pb,
        ;
    }
}

/// A prefix of a digit string never has a larger value.
pub proof fn lemma_value_prefix_le(s: Seq<int>, base: int, i: int)
    requires
        base >= 1,
        0 <= i <= s.len(),
        forall|k: int| 0 <= k < s.len() ==> #[trigger] s[k] >= 0,
    ensures
        0 <= digits_value(s.take(i), base) <= digits_value(s, base),
    decreases s.len(),
{
    if s.len() > 0 {
        let t = s.drop_last();
        assert forall|k: int| 0 <= k < t.len() implies #[trigger] t[k] >= 0 by {
            assert(t[k] == s[k]);
        }
        assert(s.last() == s[s.len() - 1]);
        if i == s.len() {
            assert(s.take(i) =~= s);
            lemma_value_prefix_le(t, base, 0);
            assert(t.take(0) =~= s.take(0));
        } else {
            lemma_value_prefix_le(t, base, i);
            assert(t.take(i) =~= s.take(i));
        }
        let vt = digits_value(t, base);
        assert(vt <= vt * base + s.last()) by (nonlinear_arith)
            requires
                vt >= 0,
                base >= 1,
                s.last() >= 0,
        ;
    } else {
        assert(s.take(i) =~= s);
    }
}

/// Two digit strings of the same length, below the base, with the same
/// value are the same string.
pub proof fn lemma_value_injective(a: Seq<int>, b: Seq<int>, base: int)
    requires
        base >= 2,
        a.len() == b.len(),
        digits_below(a, base),
        digits_below(b, base),
        digits_value(a, base) == digits_value(b, base),
    ensures
        a == b,
    decreases a.len(),
{
    if a.len() > 0 {
        let ta = a.drop_last();
        let tb = b.drop_last();
        assert(digits_below(ta, base)) by {
            assert forall|i: int| 0 <= i < ta.len() implies 0 <= #[trigger] ta[i] < base by {
                assert(ta[i] == a[i]);
            }
        }
        assert(digits_below(tb, base)) by {
            assert forall|i: int| 0 <= i < tb.len() implies 0 <= #[trigger] tb[i] < base by {
                assert(tb[i] == b[i]);
            }
        }
        assert(a.last() == a[a.len() - 1]);
        assert(b.last() == b[b.len() - 1]);
        let v = digits_value(a, base);
        lemma_fundamental_div_mod_converse(v, base, digits_value(ta, base), a.last());
        lemma_fundamental_div_mod_converse(v, base, digits_value(tb, base), b.last());
        lemma_value_injective(ta, tb, base);
        assert(a =~= ta.push(a.last()));
        assert(b =~= tb.push(b.last()));
    } else {
        assert(a =~= b);
    }
}

/// Leading zero digits do not change the value.
pub proof fn lemma_value_zero_prefix(n: nat, t: Seq<int>, base: int)
    ensures
        digits_value(zero_digits(n) + t, base) == digits_value(t, base),
    decreases t.len(), n,
{
    if t.len() > 0 {
        assert((zero_digits(n) + t).drop_last() =~= zero_digits(n) + t.drop_last());
        lemma_value_zero_prefix(n, t.drop_last(), base);
    } else {
        assert(zero_digits(n) + t =~= zero_digits(n));
        lemma_value_zeros(n, base);
    }
}

/// A string of zero digits has value zero.
pub proof fn lemma_value_zeros(n: nat, base: int)
    ensures
        digits_value(zero_digits(n), base) == 0,
    decreases n,
{
    if n > 0 {
        assert(zero_digits(n).drop_last() =~= zero_digits((n - 1) as nat));
        lemma_value_zeros((n - 1) as nat, base);
    }
}

} // verus!
