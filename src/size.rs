use vstd::prelude::*;
use vstd::string::StrSliceExecFns;

use crate::error::Error;
use crate::text::{trim_bounds, trimmed};
use vstd::arithmetic::div_mod::{
    lemma_div_denominator, lemma_div_pos_is_pos, lemma_hoist_over_denominator,
};

verus! {

pub open spec fn is_digit(c: char) -> bool {
    '0' <= c && c <= '9'
}

pub open spec fn digit_value(c: char) -> nat {
    (c as u32 - '0' as u32) as nat
}

/// A character of the numeric portion: a digit or the decimal point.
pub open spec fn is_number_char(c: char) -> bool {
    is_digit(c) || c == '.'
}

pub open spec fn pow10(k: nat) -> nat
    decreases k,
{
    if k == 0 {
        1
    } else {
        10 * pow10((k - 1) as nat)
    }
}

/// Length of the longest prefix of `s` made of digits and decimal points.
pub open spec fn number_len(s: Seq<char>) -> nat {
    if exists|p: int| 0 <= p <= s.len() && number_boundary(s, p) {
        (choose|p: int| 0 <= p <= s.len() && number_boundary(s, p)) as nat
    } else {
        s.len()
    }
}

/// `p` ends the numeric portion of `s`.
pub open spec fn number_boundary(s: Seq<char>, p: int) -> bool {
    &&& forall|j: int| 0 <= j < p ==> is_number_char(s[j])
    &&& (p == s.len() || !is_number_char(s[p]))
}

/// The digits of `n`, decimal point left out, read as one integer.
pub open spec fn mantissa(n: Seq<char>) -> nat
    decreases n.len(),
{
    if n.len() == 0 {
        0
    } else if n.last() == '.' {
        mantissa(n.drop_last())
    } else {
        mantissa(n.drop_last()) * 10 + digit_value(n.last())
    }
}

pub open spec fn is_letter(c: char, lower: char, upper: char) -> bool {
    c == lower || c == upper
}

/// The factor of a unit prefix letter, decimal or binary.
pub open spec fn prefix_factor(c: char, binary: bool) -> Option<nat> {
    if is_letter(c, 'k', 'K') {
        Some(if binary { 1024nat } else { 1000nat })
    } else if is_letter(c, 'm', 'M') {
        Some(if binary { 1048576nat } else { 1000000nat })
    } else if is_letter(c, 'g', 'G') {
        Some(if binary { 1073741824nat } else { 1000000000nat })
    } else {
        None
    }
}

/// The multiplier of a unit suffix: none or `b` is one byte, `kb`, `mb`, `gb` are
/// powers of ten and `kib`, `mib`, `gib` powers of two, in either case.
pub open spec fn unit_multiplier(u: Seq<char>) -> Option<nat> {
    if u.len() == 0 {
        Some(1)
    } else if u.len() == 1 {
        if is_letter(u[0], 'b', 'B') {
            Some(1)
        } else {
            None
        }
    } else if u.len() == 2 {
        if is_letter(u[1], 'b', 'B') {
            prefix_factor(u[0], false)
        } else {
            None
        }
    } else if u.len() == 3 {
        if is_letter(u[1], 'i', 'I') && is_letter(u[2], 'b', 'B') {
            prefix_factor(u[0], true)
        } else {
            None
        }
    } else {
        None
    }
}

/// `a / b` rounded to the nearest integer, halves upward.
pub open spec fn div_round(a: nat, b: nat) -> nat {
    ((2 * a + b) / (2 * b)) as nat
}

pub open spec fn has_dot(n: Seq<char>) -> bool {
    exists|i: int| 0 <= i < n.len() && n[i] == '.'
}

pub open spec fn has_digit(n: Seq<char>) -> bool {
    exists|i: int| 0 <= i < n.len() && is_digit(n[i])
}

pub open spec fn at_most_one_dot(n: Seq<char>) -> bool {
    forall|i: int, j: int| 0 <= i < j < n.len() && n[i] == '.' ==> n[j] != '.'
}

/// Index of the decimal point of `n`, or its length when it has none.
pub open spec fn dot_pos(n: Seq<char>) -> int {
    if has_dot(n) {
        choose|i: int| 0 <= i < n.len() && n[i] == '.'
    } else {
        n.len() as int
    }
}

/// The digits before the decimal point.
pub open spec fn int_digits(n: Seq<char>) -> Seq<char> {
    n.subrange(0, dot_pos(n))
}

/// The digits after the decimal point.
pub open spec fn frac_digits(n: Seq<char>) -> Seq<char> {
    if has_dot(n) {
        n.subrange(dot_pos(n) + 1, n.len() as int)
    } else {
        Seq::empty()
    }
}

/// The number `n` times `m`, rounded: `(I + F / 10^k) * m` for integer
/// digits `I` and `k` fraction digits `F`.
pub open spec fn scaled_round(n: Seq<char>, m: nat) -> nat {
    let p = pow10(frac_digits(n).len());
    div_round(mantissa(int_digits(n)) * p * m + mantissa(frac_digits(n)) * m, p)
}

/// The byte count that a size denotes: a numeric portion with at least one
/// digit and at most one decimal point, then a unit suffix; the value times
/// the unit, rounded, must fit in a `u64`.
pub open spec fn size_value_of(s: Seq<char>) -> Option<nat> {
    let n = s.subrange(0, number_len(s) as int);
    let u = s.subrange(number_len(s) as int, s.len() as int);
    if !has_digit(n) || !at_most_one_dot(n) {
        None
    } else {
        match unit_multiplier(u) {
            None => None,
            Some(m) => {
                let v = scaled_round(n, m);
                if v <= u64::MAX {
                    Some(v)
                } else {
                    None
                }
            },
        }
    }
}

/// The byte count that a configured size limit denotes: the size written
/// between any leading and trailing whitespace.
pub open spec fn size_limit_of(s: Seq<char>) -> Option<nat> {
    size_value_of(trimmed(s))
}

proof fn lemma_number_len(s: Seq<char>, p: int)
    requires
        0 <= p <= s.len(),
        number_boundary(s, p),
    ensures
        number_len(s) == p,
{
    let q = choose|q: int| 0 <= q <= s.len() && number_boundary(s, q);
    assert(number_boundary(s, q));
    if q < p {
        assert(is_number_char(s[q]));
    }
    if p < q {
        assert(is_number_char(s[p]));
    }
}

fn char_is_digit(c: char) -> (r: bool)
    ensures
        r == is_digit(c),
{
    '0' <= c && c <= '9'
}

fn exec_prefix_factor(c: char, binary: bool) -> (r: Option<u64>)
    ensures
        r matches Some(f) ==> prefix_factor(c, binary) == Some(f as nat),
        r is None ==> prefix_factor(c, binary) is None,
{
    if c == 'k' || c == 'K' {
        Some(if binary { 1024 } else { 1000 })
    } else if c == 'm' || c == 'M' {
        Some(if binary { 1048576 } else { 1000000 })
    } else if c == 'g' || c == 'G' {
        Some(if binary { 1073741824 } else { 1000000000 })
    } else {
        None
    }
}

fn exec_unit_multiplier(s: &str, p: usize, n: usize) -> (r: Option<u64>)
    requires
        n == s@.len(),
        p <= n,
    ensures
        r matches Some(f) ==> unit_multiplier(s@.subrange(p as int, n as int)) == Some(f as nat),
        r is None ==> unit_multiplier(s@.subrange(p as int, n as int)) is None,
        r matches Some(f) ==> 1 <= f <= 1073741824,
{
    let ghost u = s@.subrange(p as int, n as int);
    let len = n - p;
    if len == 0 {
        Some(1)
    } else if len == 1 {
        let c = s.get_char(p);
        assert(u[0] == c);
        if c == 'b' || c == 'B' {
            Some(1)
        } else {
            None
        }
    } else if len == 2 {
        let c0 = s.get_char(p);
        let c1 = s.get_char(p + 1);
        assert(u[0] == c0 && u[1] == c1);
        if c1 == 'b' || c1 == 'B' {
            exec_prefix_factor(c0, false)
        } else {
            None
        }
    } else if len == 3 {
        let c0 = s.get_char(p);
        let c1 = s.get_char(p + 1);
        let c2 = s.get_char(p + 2);
        assert(u[0] == c0 && u[1] == c1 && u[2] == c2);
        if (c1 == 'i' || c1 == 'I') && (c2 == 'b' || c2 == 'B') {
            exec_prefix_factor(c0, true)
        } else {
            None
        }
    } else {
        None
    }
}

proof fn lemma_pow10_positive(k: nat)
    ensures
        pow10(k) >= 1,
    decreases k,
{
    if k > 0 {
        lemma_pow10_positive((k - 1) as nat);
    }
}

proof fn lemma_mantissa_front(ds: Seq<char>)
    requires
        ds.len() > 0,
        forall|j: int| 0 <= j < ds.len() ==> is_digit(ds[j]),
    ensures
        mantissa(ds) == digit_value(ds[0]) * pow10((ds.len() - 1) as nat) + mantissa(
            ds.drop_first(),
        ),
    decreases ds.len(),
{
    assert(is_digit(ds.last()));
    assert(ds.last() != '.');
    assert(mantissa(ds) == mantissa(ds.drop_last()) * 10 + digit_value(ds.last()));
    if ds.len() == 1 {
        assert(ds.drop_last() =~= Seq::<char>::empty());
        assert(ds.drop_first() =~= Seq::<char>::empty());
        assert(ds.last() == ds[0]);
        assert(mantissa(Seq::<char>::empty()) == 0);
        assert(pow10(0) == 1);
        assert(mantissa(ds) == digit_value(ds[0]) * pow10(0) + mantissa(ds.drop_first()));
    } else {
        let init = ds.drop_last();
        assert(is_digit(ds.last()));
        assert forall|j: int| 0 <= j < init.len() implies is_digit(init[j]) by {
            assert(init[j] == ds[j]);
        }
        lemma_mantissa_front(init);
        let tail = ds.drop_first();
        assert(tail.drop_last() =~= init.drop_first());
        assert(tail.last() == ds.last());
        assert(init[0] == ds[0]);
        let d = digit_value(ds[0]);
        let k = (ds.len() - 2) as nat;
        assert(pow10(k + 1) == 10 * pow10(k));
        assert((ds.len() - 1) as nat == k + 1);
        assert(mantissa(init) == d * pow10(k) + mantissa(init.drop_first()));
        assert(mantissa(tail) == mantissa(tail.drop_last()) * 10 + digit_value(tail.last()));
        assert((d * pow10(k) + mantissa(init.drop_first())) * 10 + digit_value(ds.last()) == d * (10
            * pow10(k)) + (mantissa(init.drop_first()) * 10 + digit_value(ds.last())))
            by (nonlinear_arith);
        assert(mantissa(ds) == d * pow10(k + 1) + mantissa(tail));
    }
}

/// Rounding the number `I + F / P` times `m` splits into the whole part
/// `I * m` and the rounded share of the fraction.
proof fn lemma_round_split(i: int, f: int, p: int, m: int)
    requires
        p > 0,
        i >= 0,
        f >= 0,
        m >= 0,
    ensures
        (2 * (i * p * m + f * m) + p) / (2 * p) == i * m + ((2 * m * f) / p + 1) / 2,
{
    let x: int = 2 * m * f + p;
    let im: int = i * m;
    assert(2 * (i * p * m + f * m) + p == x + im * (2 * p)) by (nonlinear_arith)
        requires
            x == 2 * m * f + p,
            im == i * m,
    ;
    assert(2 * m * f >= 0) by (nonlinear_arith)
        requires
            m >= 0,
            f >= 0,
    ;
    lemma_hoist_over_denominator(x, im, (2 * p) as nat);
    lemma_div_denominator(x, p, 2);
    assert(p * 2 == 2 * p);
    lemma_hoist_over_denominator(2 * m * f, 1, p as nat);
    assert(x / p == (2 * m * f) / p + 1);
}

/// Parses a size such as `10mb`, `1kib` or `1.5gb`, with nothing around it.
fn parse_size_value(s: &str) -> (r: Result<u64, Error>)
    ensures
        r matches Ok(v) ==> size_value_of(s@) == Some(v as nat),
        r is Err ==> size_value_of(s@) is None && r == Err::<u64, Error>(Error::InvalidSizeLimit),
{
    let n = s.unicode_len();
    let ghost t = s@;
    let mut p: usize = 0;
    let mut dp: Option<usize> = None;
    let mut two_dots = false;
    let mut any_digit = false;
    let ghost mut wi: int = 0;
    let ghost mut wj: int = 0;
    let ghost mut wd: int = 0;
    while p < n && (char_is_digit(s.get_char(p)) || s.get_char(p) == '.')
        invariant
            n == t.len(),
            t == s@,
            p <= n,
            forall|j: int| 0 <= j < p ==> is_number_char(t[j]),
            dp is None ==> forall|j: int| 0 <= j < p ==> t[j] != '.',
            dp matches Some(d) ==> d < p && t[d as int] == '.' && forall|j: int|
                0 <= j < d ==> t[j] != '.',
            two_dots ==> 0 <= wi < wj < p && t[wi] == '.' && t[wj] == '.',
            !two_dots ==> forall|i: int, j: int| 0 <= i < j < p && t[i] == '.' ==> t[j] != '.',
            any_digit ==> 0 <= wd < p && is_digit(t[wd]),
            !any_digit ==> forall|j: int| 0 <= j < p ==> !is_digit(t[j]),
        decreases n - p,
    {
        let c = s.get_char(p);
        if c == '.' {
            match dp {
                None => {
                    dp = Some(p);
                },
                Some(d) => {
                    if !two_dots {
                        two_dots = true;
                        proof {
                            wi = d as int;
                            wj = p as int;
                        }
                    }
                },
            }
        } else {
            if !any_digit {
                any_digit = true;
                proof {
                    wd = p as int;
                }
            }
        }
        p = p + 1;
    }
    proof {
        lemma_number_len(t, p as int);
    }
    let ghost num = t.subrange(0, p as int);
    if two_dots {
        assert(num[wi] == '.' && num[wj] == '.');
        return Err(Error::InvalidSizeLimit);
    }
    if !any_digit {
        assert(!has_digit(num)) by {
            assert forall|i: int| 0 <= i < num.len() implies !is_digit(num[i]) by {
                assert(num[i] == t[i]);
            }
        }
        return Err(Error::InvalidSizeLimit);
    }
    assert(has_digit(num)) by {
        assert(num[wd] == t[wd]);
    }
    assert(at_most_one_dot(num)) by {
        assert forall|i: int, j: int| 0 <= i < j < num.len() && num[i] == '.' implies num[j]
            != '.' by {
            assert(num[i] == t[i] && num[j] == t[j]);
        }
    }
    let mult = match exec_unit_multiplier(s, p, n) {
        Some(m) => m,
        None => {
            return Err(Error::InvalidSizeLimit);
        },
    };
    let ip: usize = match dp {
        Some(d) => d,
        None => p,
    };
    let fs: usize = match dp {
        Some(d) => d + 1,
        None => p,
    };
    proof {
        match dp {
            Some(d) => {
                assert(num[d as int] == '.');
                assert(has_dot(num));
                let q = choose|q: int| 0 <= q < num.len() && num[q] == '.';
                assert(num[q] == t[q]);
                if q < d {
                    assert(t[q] != '.');
                }
                if q > d {
                    assert(t[d as int] == '.');
                }
                assert(dot_pos(num) == d);
                assert(frac_digits(num) =~= t.subrange(fs as int, p as int));
            },
            None => {
                assert(!has_dot(num)) by {
                    assert forall|i: int| 0 <= i < num.len() implies num[i] != '.' by {
                        assert(num[i] == t[i]);
                    }
                }
                assert(frac_digits(num) =~= t.subrange(fs as int, p as int));
            },
        }
        assert(int_digits(num) =~= t.subrange(0, ip as int));
    }
    // The whole part, saturating once it is past any `u64`.
    let mut whole: u128 = 0;
    let mut over = false;
    let mut i: usize = 0;
    while i < ip
        invariant
            ip <= p <= n,
            n == t.len(),
            t == s@,
            forall|j: int| 0 <= j < p ==> is_number_char(t[j]),
            forall|j: int| 0 <= j < ip ==> t[j] != '.',
            i <= ip,
            !over ==> whole == mantissa(t.subrange(0, i as int)) && whole <= u64::MAX,
            over ==> mantissa(t.subrange(0, i as int)) > u64::MAX,
        decreases ip - i,
    {
        let c = s.get_char(i);
        let ghost prev = t.subrange(0, i as int);
        let ghost next = t.subrange(0, i + 1);
        assert(next.drop_last() =~= prev);
        assert(next.last() == c && c != '.');
        if !over {
            let w = whole * 10 + (c as u32 - '0' as u32) as u128;
            if w > u64::MAX as u128 {
                over = true;
            } else {
                whole = w;
            }
        }
        i = i + 1;
    }
    assert(t.subrange(0, ip as int) == int_digits(num));
    // The fraction's share: floor(2 * mult * F / 10^k), read from the right.
    let c2: u64 = 2 * mult;
    let mut q: u64 = 0;
    let mut j: usize = p;
    proof {
        assert(t.subrange(p as int, p as int) =~= Seq::<char>::empty());
    }
    while j > fs
        invariant
            fs <= j <= p <= n,
            ip <= fs,
            n == t.len(),
            t == s@,
            forall|k: int| 0 <= k < p ==> is_number_char(t[k]),
            forall|k: int| fs <= k < p ==> t[k] != '.',
            1 <= mult <= 1073741824,
            c2 == 2 * mult,
            q < c2,
            q == (c2 * mantissa(t.subrange(j as int, p as int))) / (pow10((p - j) as nat) as int),
        decreases j - fs,
    {
        let c = s.get_char(j - 1);
        let ghost rest = t.subrange(j as int, p as int);
        let ghost ds = t.subrange(j - 1, p as int);
        assert(ds.drop_first() =~= rest);
        assert(ds[0] == c);
        assert forall|k: int| 0 <= k < ds.len() implies is_digit(ds[k]) by {
            assert(ds[k] == t[j - 1 + k]);
        }
        proof {
            lemma_mantissa_front(ds);
        }
        let d = (c as u32 - '0' as u32) as u64;
        proof {
            let cc: int = c2 as int;
            let dd: int = d as int;
            let mm: int = mantissa(rest) as int;
            let pw: int = pow10((p - j) as nat) as int;
            lemma_pow10_positive((p - j) as nat);
            assert(pow10((p - (j - 1)) as nat) == 10 * pow10((p - j) as nat));
            assert(cc * mantissa(ds) == cc * mm + (cc * dd) * pw) by (nonlinear_arith)
                requires
                    mantissa(ds) == dd * pw + mm,
            ;
            lemma_hoist_over_denominator(cc * mm, cc * dd, pw as nat);
            assert(cc * mm >= 0) by (nonlinear_arith)
                requires
                    cc >= 0,
                    mm >= 0,
            ;
            lemma_div_denominator(cc * mantissa(ds), pw, 10);
            assert(pw * 10 == 10 * pw);
            assert(c2 * d + q < 10 * c2) by (nonlinear_arith)
                requires
                    d <= 9,
                    q < c2,
            ;
        }
        q = (c2 * d + q) / 10;
        j = j - 1;
    }
    if over {
        proof {
            lemma_pow10_positive(frac_digits(num).len());
            lemma_round_split(
                mantissa(int_digits(num)) as int,
                mantissa(frac_digits(num)) as int,
                pow10(frac_digits(num).len()) as int,
                mult as int,
            );
            let x: int = 2 * mult * mantissa(frac_digits(num));
            assert(x >= 0);
            lemma_div_pos_is_pos(x, pow10(frac_digits(num).len()) as int);
            assert(mantissa(int_digits(num)) * mult >= mantissa(int_digits(num))) by (nonlinear_arith)
                requires
                    mult >= 1,
            ;
        }
        return Err(Error::InvalidSizeLimit);
    }
    assert(whole * (mult as u128) <= 18446744073709551615u128 * 1073741824u128) by (nonlinear_arith)
        requires
            whole <= 18446744073709551615u128,
            mult <= 1073741824,
    ;
    let v: u128 = whole * (mult as u128) + ((q as u128) + 1) / 2;
    proof {
        assert(t.subrange(j as int, p as int) == frac_digits(num));
        lemma_pow10_positive(frac_digits(num).len());
        lemma_round_split(
            mantissa(int_digits(num)) as int,
            mantissa(frac_digits(num)) as int,
            pow10(frac_digits(num).len()) as int,
            mult as int,
        );
        assert(2 * mult * mantissa(frac_digits(num)) == c2 * mantissa(frac_digits(num)));
    }
    if v > u64::MAX as u128 {
        return Err(Error::InvalidSizeLimit);
    }
    Ok(v as u64)
}

/// Parses a human-readable size such as `10mb`, `1kib` or `1.5gb` into a
/// byte count; whitespace around it is ignored.
pub fn parse_size_limit(s: &str) -> (r: Result<u64, Error>)
    ensures
        r matches Ok(v) ==> size_limit_of(s@) == Some(v as nat),
        r is Err ==> size_limit_of(s@) is None && r == Err::<u64, Error>(Error::InvalidSizeLimit),
{
    let (a, b) = trim_bounds(s);
    let t = s.substring_char(a, b);
    parse_size_value(t)
}

/// The configured size limit: none when nothing is configured, else the
/// parsed byte count of the configured string.
pub fn file_size_limit(configured: Option<&str>) -> (r: Result<Option<u64>, Error>)
    ensures
        configured is None ==> r == Ok::<Option<u64>, Error>(None),
        configured matches Some(s) ==> (match size_limit_of(s@) {
            Some(v) => r == Ok::<Option<u64>, Error>(Some(v as u64)),
            None => r == Err::<Option<u64>, Error>(Error::InvalidSizeLimit),
        }),
{
    match configured {
        None => Ok(None),
        Some(s) => match parse_size_limit(s) {
            Ok(v) => Ok(Some(v)),
            Err(e) => Err(e),
        },
    }
}

} // verus!
