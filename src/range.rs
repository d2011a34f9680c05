use vstd::prelude::*;
use vstd::string::StrSliceExecFns;

use crate::error::Error;
use crate::size::{digit_value, is_digit, mantissa};

verus! {

/// Most digits an index may have, so that it fits in an `i64`.
pub const MAX_INDEX_DIGITS: usize = 18;

/// An inclusive run of file indices; a negative endpoint counts from the end,
/// `-1` being the last file. A single index is a run whose ends are equal.
#[derive(Debug, Clone, Copy, PartialEq, Eq, Structural)]
pub struct BidirectionalRange {
    pub start: i64,
    pub end: i64,
}

impl View for BidirectionalRange {
    type V = (int, int);

    open spec fn view(&self) -> (int, int) {
        (self.start as int, self.end as int)
    }
}

pub open spec fn all_digits(t: Seq<char>) -> bool {
    forall|j: int| 0 <= j < t.len() ==> is_digit(t[j])
}

/// `p` ends the run of digits at the front of `t`.
pub open spec fn digit_boundary(t: Seq<char>, p: int) -> bool {
    &&& forall|j: int| 0 <= j < p ==> is_digit(t[j])
    &&& (p == t.len() || !is_digit(t[p]))
}

/// Length of the run of digits at the front of `t`.
pub open spec fn digit_run(t: Seq<char>) -> nat {
    if exists|p: int| 0 <= p <= t.len() && digit_boundary(t, p) {
        (choose|p: int| 0 <= p <= t.len() && digit_boundary(t, p)) as nat
    } else {
        t.len()
    }
}

/// A whole token read as an optionally negative integer of one to
/// `MAX_INDEX_DIGITS` digits.
pub open spec fn signed_value(t: Seq<char>) -> Option<int> {
    let neg = t.len() > 0 && t[0] == '-';
    let body = if neg { t.drop_first() } else { t };
    if body.len() == 0 || body.len() > MAX_INDEX_DIGITS || !all_digits(body) {
        None
    } else {
        Some(if neg { -mantissa(body) } else { mantissa(body) as int })
    }
}

/// A sub-expression: one signed integer, or two joined by `-`.
pub open spec fn term_of(t: Seq<char>) -> Option<(int, int)> {
    let st: int = if t.len() > 0 && t[0] == '-' { 1 } else { 0 };
    let e = st + digit_run(t.subrange(st, t.len() as int));
    if e == t.len() {
        match signed_value(t) {
            Some(v) => Some((v, v)),
            None => None,
        }
    } else if t[e] == '-' {
        match (signed_value(t.subrange(0, e)), signed_value(t.subrange(e + 1, t.len() as int))) {
            (Some(a), Some(b)) => Some((a, b)),
            _ => None,
        }
    } else {
        None
    }
}

/// The comma-separated pieces of `s`, empty ones included.
pub open spec fn pieces(s: Seq<char>) -> Seq<Seq<char>>
    decreases s.len(),
{
    if s.len() == 0 {
        seq![Seq::empty()]
    } else {
        let ps = pieces(s.drop_last());
        if s.last() == ',' {
            ps.push(Seq::empty())
        } else {
            ps.update(ps.len() - 1, ps.last().push(s.last()))
        }
    }
}

pub open spec fn all_terms_parse(s: Seq<char>) -> bool {
    forall|j: int| 0 <= j < pieces(s).len() ==> (#[trigger] term_of(pieces(s)[j])) is Some
}

/// The runs that a selector expression denotes, when every piece is well formed.
pub open spec fn selector_of(s: Seq<char>) -> Option<Seq<(int, int)>> {
    if all_terms_parse(s) {
        Some(Seq::new(pieces(s).len(), |j: int| term_of(pieces(s)[j])->Some_0))
    } else {
        None
    }
}

/// Where an endpoint lands among `count` files.
pub open spec fn resolve_index(e: int, count: int) -> int {
    if e < 0 {
        count + e
    } else {
        e
    }
}

pub open spec fn in_bounds(e: int, count: int) -> bool {
    0 <= resolve_index(e, count) < count
}

pub open spec fn range_ok(r: (int, int), count: int) -> bool {
    &&& in_bounds(r.0, count)
    &&& in_bounds(r.1, count)
    &&& resolve_index(r.0, count) <= resolve_index(r.1, count)
}

pub open spec fn covers(r: (int, int), count: int, i: int) -> bool {
    resolve_index(r.0, count) <= i <= resolve_index(r.1, count)
}

pub open spec fn selected(rs: Seq<(int, int)>, count: int, i: int) -> bool {
    exists|k: int| 0 <= k < rs.len() && covers(#[trigger] rs[k], count, i)
}

/// The error that resolving a malformed run reports.
pub open spec fn range_error(r: (int, int), count: int) -> Error {
    if !in_bounds(r.0, count) {
        Error::RangeOutOfBounds { index: r.0 as i64, count: count as usize }
    } else if !in_bounds(r.1, count) {
        Error::RangeOutOfBounds { index: r.1 as i64, count: count as usize }
    } else {
        Error::RangeReversed { start: r.0 as i64, end: r.1 as i64 }
    }
}

pub open spec fn strictly_increasing(v: Seq<usize>) -> bool {
    forall|a: int, b: int| 0 <= a < b < v.len() ==> v[a] < v[b]
}

/// `v` is the ascending list of the indices below `count` that the runs pick,
/// each once.
pub open spec fn resolves_to(rs: Seq<(int, int)>, count: int, v: Seq<usize>) -> bool {
    &&& strictly_increasing(v)
    &&& forall|j: int| 0 <= j < v.len() ==> v[j] < count && selected(rs, count, #[trigger] v[j] as int)
    &&& forall|i: int| 0 <= i < count && selected(rs, count, i) ==> v.contains(i as usize)
}

pub open spec fn ranges_view(rs: Seq<BidirectionalRange>) -> Seq<(int, int)> {
    rs.map_values(|r: BidirectionalRange| r@)
}

proof fn lemma_digit_run(t: Seq<char>, p: int)
    requires
        0 <= p <= t.len(),
        digit_boundary(t, p),
    ensures
        digit_run(t) == p,
{
    let q = choose|q: int| 0 <= q <= t.len() && digit_boundary(t, q);
    assert(digit_boundary(t, q));
    if q < p {
        assert(is_digit(t[q]));
    }
    if p < q {
        assert(is_digit(t[p]));
    }
}

proof fn lemma_mantissa_bound(t: Seq<char>)
    requires
        all_digits(t),
        t.len() <= MAX_INDEX_DIGITS,
    ensures
        mantissa(t) < 1000000000000000000,
    decreases t.len(),
{
    if t.len() > 0 {
        let p = t.drop_last();
        assert(all_digits(p)) by {
            assert forall|j: int| 0 <= j < p.len() implies is_digit(p[j]) by {
                assert(p[j] == t[j]);
            }
        }
        lemma_mantissa_pow(p);
        lemma_mantissa_pow(t);
        lemma_pow_le(t.len() as nat);
    }
}

spec fn pow10i(k: nat) -> int
    decreases k,
{
    if k == 0 {
        1
    } else {
        10 * pow10i((k - 1) as nat)
    }
}

proof fn lemma_pow_pos(k: nat)
    ensures
        pow10i(k) >= 1,
    decreases k,
{
    if k > 0 {
        lemma_pow_pos((k - 1) as nat);
    }
}

proof fn lemma_pow_le(k: nat)
    requires
        k <= MAX_INDEX_DIGITS,
    ensures
        pow10i(k) <= 1000000000000000000,
    decreases MAX_INDEX_DIGITS - k,
{
    if k < MAX_INDEX_DIGITS {
        lemma_pow_le(k + 1);
        lemma_pow_pos(k);
    } else {
        reveal_with_fuel(pow10i, 19);
    }
}

proof fn lemma_mantissa_pow(t: Seq<char>)
    requires
        all_digits(t),
    ensures
        mantissa(t) < pow10i(t.len()),
    decreases t.len(),
{
    if t.len() > 0 {
        let p = t.drop_last();
        assert(all_digits(p)) by {
            assert forall|j: int| 0 <= j < p.len() implies is_digit(p[j]) by {
                assert(p[j] == t[j]);
            }
        }
        lemma_mantissa_pow(p);
        let m = mantissa(p);
        let d = digit_value(t.last());
        assert(m * 10 + d < pow10i(p.len()) * 10) by (nonlinear_arith)
            requires
                m < pow10i(p.len()),
                d < 10,
        ;
    }
}

/// Reads the characters `lo..hi` of `s` as a signed integer.
fn parse_signed(s: &str, lo: usize, hi: usize) -> (r: Option<i64>)
    requires
        lo <= hi <= s@.len(),
    ensures
        r matches Some(v) ==> signed_value(s@.subrange(lo as int, hi as int)) == Some(v as int),
        r is None ==> signed_value(s@.subrange(lo as int, hi as int)) is None,
{
    let ghost t = s@.subrange(lo as int, hi as int);
    let neg = lo < hi && s.get_char(lo) == '-';
    if lo < hi {
        assert(t[0] == s@[lo as int]);
    }
    let start = if neg { lo + 1 } else { lo };
    let ghost body = if neg { t.drop_first() } else { t };
    assert(body =~= s@.subrange(start as int, hi as int));
    if start == hi || hi - start > MAX_INDEX_DIGITS {
        return None;
    }
    let mut i = start;
    let mut value: i64 = 0;
    while i < hi
        invariant
            start <= i <= hi,
            hi <= s@.len(),
            hi - start <= MAX_INDEX_DIGITS,
            body == s@.subrange(start as int, hi as int),
            t == s@.subrange(lo as int, hi as int),
            body == (if t.len() > 0 && t[0] == '-' { t.drop_first() } else { t }),
            neg == (t.len() > 0 && t[0] == '-'),
            all_digits(s@.subrange(start as int, i as int)),
            value == mantissa(s@.subrange(start as int, i as int)),
        decreases hi - i,
    {
        let c = s.get_char(i);
        if !('0' <= c && c <= '9') {
            assert(body[i - start] == c);
            assert(!is_digit(body[i - start]));
            assert(!all_digits(body));
            return None;
        }
        let ghost prev = s@.subrange(start as int, i as int);
        let ghost next = s@.subrange(start as int, i + 1);
        assert(next.drop_last() =~= prev);
        assert(all_digits(next)) by {
            assert forall|j: int| 0 <= j < next.len() implies is_digit(next[j]) by {
                if j < prev.len() {
                    assert(next[j] == prev[j]);
                }
            }
        }
        proof {
            lemma_mantissa_bound(next);
        }
        value = value * 10 + (c as u32 - '0' as u32) as i64;
        i = i + 1;
    }
    assert(s@.subrange(start as int, i as int) =~= body);
    if neg {
        Some(-value)
    } else {
        Some(value)
    }
}

/// Parses one sub-expression of a selector: `3`, `-1`, `2-4` or `0--1`.
pub fn parse_range(s: &str) -> (r: Result<BidirectionalRange, Error>)
    ensures
        r matches Ok(b) ==> term_of(s@) == Some(b@),
        r is Err ==> term_of(s@) is None && r == Err::<BidirectionalRange, Error>(Error::RangeSyntax),
{
    let n = s.unicode_len();
    assert(s@.subrange(0, n as int) =~= s@);
    parse_term(s, 0, n)
}

fn parse_term(s: &str, lo: usize, hi: usize) -> (r: Result<BidirectionalRange, Error>)
    requires
        lo <= hi <= s@.len(),
    ensures
        r matches Ok(b) ==> term_of(s@.subrange(lo as int, hi as int)) == Some(b@),
        r is Err ==> term_of(s@.subrange(lo as int, hi as int)) is None && r == Err::<
            BidirectionalRange,
            Error,
        >(Error::RangeSyntax),
{
    let ghost t = s@.subrange(lo as int, hi as int);
    let st = if lo < hi && s.get_char(lo) == '-' { lo + 1 } else { lo };
    let mut e = st;
    while e < hi && ('0' <= s.get_char(e) && s.get_char(e) <= '9')
        invariant
            lo <= st <= e <= hi,
            hi <= s@.len(),
            forall|j: int| st <= j < e ==> is_digit(s@[j]),
        decreases hi - e,
    {
        e = e + 1;
    }
    proof {
        let ts = t.subrange(st - lo, t.len() as int);
        assert(digit_boundary(ts, e - st)) by {
            assert forall|j: int| 0 <= j < e - st implies is_digit(ts[j]) by {
                assert(ts[j] == s@[st + j]);
            }
            if e < hi {
                assert(ts[e - st] == s@[e as int]);
            }
        }
        lemma_digit_run(ts, e - st);
    }
    if e == hi {
        match parse_signed(s, lo, hi) {
            Some(v) => Ok(BidirectionalRange { start: v, end: v }),
            None => Err(Error::RangeSyntax),
        }
    } else if s.get_char(e) == '-' {
        assert(t[e - lo] == s@[e as int]);
        assert(t.subrange(0, e - lo) =~= s@.subrange(lo as int, e as int));
        assert(t.subrange(e - lo + 1, t.len() as int) =~= s@.subrange(e + 1, hi as int));
        let a = parse_signed(s, lo, e);
        let b = parse_signed(s, e + 1, hi);
        match (a, b) {
            (Some(a), Some(b)) => Ok(BidirectionalRange { start: a, end: b }),
            _ => Err(Error::RangeSyntax),
        }
    } else {
        assert(t[e - lo] == s@[e as int]);
        Err(Error::RangeSyntax)
    }
}

/// Parses a comma-separated selector such as `0,2-4,-1` into its runs, in the
/// order written. Fails when any piece is malformed, an empty one included.
pub fn parse_ranges(s: &str) -> (r: Result<Vec<BidirectionalRange>, Error>)
    ensures
        r matches Ok(v) ==> selector_of(s@) == Some(ranges_view(v@)),
        r is Err ==> selector_of(s@) is None && r == Err::<Vec<BidirectionalRange>, Error>(
            Error::RangeSyntax,
        ),
{
    let n = s.unicode_len();
    let ghost t = s@;
    let mut out: Vec<BidirectionalRange> = Vec::new();
    let mut failed = false;
    let ghost mut bad: int = 0;
    let mut start: usize = 0;
    let mut i: usize = 0;
    let ghost mut ps: Seq<Seq<char>> = seq![Seq::empty()];
    assert(t.subrange(0, 0) =~= Seq::<char>::empty());
    while i < n
        invariant
            n == t.len(),
            t == s@,
            start <= i <= n,
            ps == pieces(t.subrange(0, i as int)),
            ps.len() >= 1,
            ps.last() == t.subrange(start as int, i as int),
            !failed ==> ps.len() == out@.len() + 1,
            !failed ==> forall|j: int|
                0 <= j < out@.len() ==> term_of(ps[j]) == Some(#[trigger] out@[j]@),
            failed ==> 0 <= bad < ps.len() - 1 && term_of(ps[bad]) is None,
        decreases n - i,
    {
        let c = s.get_char(i);
        let ghost prev = t.subrange(0, i as int);
        let ghost next = t.subrange(0, i + 1);
        assert(next.drop_last() =~= prev);
        if c == ',' {
            if !failed {
                match parse_term(s, start, i) {
                    Ok(b) => {
                        out.push(b);
                    },
                    Err(_) => {
                        failed = true;
                        proof {
                            bad = ps.len() - 1;
                        }
                    },
                }
            }
            let ghost old_ps = ps;
            proof {
                ps = ps.push(Seq::empty());
                if failed {
                    assert(ps[bad] == old_ps[bad]);
                }
            }
            start = i + 1;
            assert(t.subrange(start as int, i + 1) =~= Seq::<char>::empty());
        } else {
            proof {
                assert(t.subrange(start as int, i + 1) =~= t.subrange(start as int, i as int).push(c));
                let old_ps = ps;
                ps = ps.update(ps.len() - 1, ps.last().push(c));
                if failed {
                    assert(ps[bad] == old_ps[bad]);
                }
            }
        }
        i = i + 1;
    }
    assert(t.subrange(0, n as int) =~= t);
    if failed {
        return Err(Error::RangeSyntax);
    }
    match parse_term(s, start, n) {
        Ok(b) => {
            let ghost before = out@;
            out.push(b);
            assert forall|j: int| 0 <= j < pieces(t).len() implies (#[trigger] term_of(
                pieces(t)[j],
            )) is Some by {
                if j < before.len() {
                    assert(out@[j] == before[j]);
                    assert(term_of(ps[j]) == Some(before[j]@));
                }
            }
            assert(ranges_view(out@) =~= Seq::new(
                pieces(t).len(),
                |j: int| term_of(pieces(t)[j])->Some_0,
            ));
            Ok(out)
        },
        Err(e) => Err(e),
    }
}

/// Resolves parsed runs against the number of files in a paste: the selected
/// indices, each once, in ascending order, whatever the order of the runs.
/// Fails on the first run with an endpoint outside the files, or whose end
/// comes before its start.
pub fn resolve_ranges(ranges: &Vec<BidirectionalRange>, count: usize) -> (r: Result<Vec<usize>, Error>)
    ensures
        (forall|k: int| 0 <= k < ranges@.len() ==> range_ok(#[trigger] ranges@[k]@, count as int))
            <==> r is Ok,
        r matches Ok(v) ==> resolves_to(ranges_view(ranges@), count as int, v@),
        r matches Err(e) ==> exists|k: int|
            0 <= k < ranges@.len() && !range_ok(#[trigger] ranges@[k]@, count as int) && e
                == range_error(ranges@[k]@, count as int) && forall|m: int|
                0 <= m < k ==> range_ok(#[trigger] ranges@[m]@, count as int),
{
    let ghost rv = ranges_view(ranges@);
    let mut k: usize = 0;
    while k < ranges.len()
        invariant
            k <= ranges@.len(),
            forall|m: int| 0 <= m < k ==> range_ok(#[trigger] ranges@[m]@, count as int),
        decreases ranges@.len() - k,
    {
        let b = ranges[k];
        let s: i128 = if b.start < 0 { count as i128 + b.start as i128 } else { b.start as i128 };
        let e: i128 = if b.end < 0 { count as i128 + b.end as i128 } else { b.end as i128 };
        assert(ranges@[k as int]@ == b@);
        if s < 0 || s >= count as i128 {
            assert(!range_ok(ranges@[k as int]@, count as int));
            return Err(Error::RangeOutOfBounds { index: b.start, count });
        }
        if e < 0 || e >= count as i128 {
            assert(!range_ok(ranges@[k as int]@, count as int));
            return Err(Error::RangeOutOfBounds { index: b.end, count });
        }
        if e < s {
            assert(!range_ok(ranges@[k as int]@, count as int));
            return Err(Error::RangeReversed { start: b.start, end: b.end });
        }
        k = k + 1;
    }
    let mut out: Vec<usize> = Vec::new();
    let mut i: usize = 0;
    while i < count
        invariant
            i <= count,
            rv == ranges_view(ranges@),
            rv.len() == ranges@.len(),
            forall|m: int| 0 <= m < rv.len() ==> #[trigger] rv[m] == ranges@[m]@,
            strictly_increasing(out@),
            forall|j: int| 0 <= j < out@.len() ==> out@[j] < i,
            forall|j: int|
                0 <= j < out@.len() ==> selected(rv, count as int, #[trigger] out@[j] as int),
            forall|x: int| 0 <= x < i && selected(rv, count as int, x) ==> out@.contains(x as usize),
        decreases count - i,
    {
        let mut hit = false;
        let mut m: usize = 0;
        while m < ranges.len()
            invariant
                m <= ranges@.len(),
                i < count,
                rv.len() == ranges@.len(),
                forall|q: int| 0 <= q < rv.len() ==> #[trigger] rv[q] == ranges@[q]@,
                hit == exists|q: int| 0 <= q < m && covers(#[trigger] rv[q], count as int, i as int),
            decreases ranges@.len() - m,
        {
            let b = ranges[m];
            let s: i128 = if b.start < 0 { count as i128 + b.start as i128 } else { b.start as i128 };
            let e: i128 = if b.end < 0 { count as i128 + b.end as i128 } else { b.end as i128 };
            let ghost hit_before = hit;
            if s <= i as i128 && i as i128 <= e {
                hit = true;
            }
            proof {
                assert(rv[m as int] == b@);
                if hit && !hit_before {
                    assert(covers(rv[m as int], count as int, i as int));
                }
            }
            m = m + 1;
        }
        if hit {
            let ghost before = out@;
            out.push(i);
            proof {
                assert forall|x: int| 0 <= x < i + 1 && selected(rv, count as int, x) implies out@.contains(
                    x as usize,
                ) by {
                    if x < i {
                        assert(before.contains(x as usize));
                        let w = choose|w: int| 0 <= w < before.len() && before[w] == x as usize;
                        assert(out@[w] == x as usize);
                    } else {
                        assert(out@[before.len() as int] == x as usize);
                    }
                }
            }
        } else {
            proof {
                assert(!selected(rv, count as int, i as int));
            }
        }
        i = i + 1;
    }
    Ok(out)
}

proof fn lemma_increasing_unique(a: Seq<usize>, b: Seq<usize>)
    requires
        strictly_increasing(a),
        strictly_increasing(b),
        forall|x: usize| a.contains(x) <==> b.contains(x),
    ensures
        a == b,
    decreases a.len() + b.len(),
{
    if a.len() == 0 {
        if b.len() > 0 {
            assert(b.contains(b[0]));
        }
        assert(a =~= b);
    } else if b.len() == 0 {
        assert(a.contains(a[0]));
    } else {
        let x = a.last();
        let y = b.last();
        assert(a.contains(x));
        assert(b.contains(y));
        let ix = choose|i: int| 0 <= i < b.len() && b[i] == x;
        let iy = choose|i: int| 0 <= i < a.len() && a[i] == y;
        assert(x <= y) by {
            if ix < b.len() - 1 {
                assert(b[ix] < b[b.len() - 1]);
            }
        }
        assert(y <= x) by {
            if iy < a.len() - 1 {
                assert(a[iy] < a[a.len() - 1]);
            }
        }
        let a2 = a.drop_last();
        let b2 = b.drop_last();
        assert forall|z: usize| a2.contains(z) <==> b2.contains(z) by {
            if a2.contains(z) {
                let i = choose|i: int| 0 <= i < a2.len() && a2[i] == z;
                assert(a[i] < a[a.len() - 1]);
                assert(a.contains(z));
                let j = choose|j: int| 0 <= j < b.len() && b[j] == z;
                assert(j != b.len() - 1);
                assert(b2[j] == z);
            }
            if b2.contains(z) {
                let i = choose|i: int| 0 <= i < b2.len() && b2[i] == z;
                assert(b[i] < b[b.len() - 1]);
                assert(b.contains(z));
                let j = choose|j: int| 0 <= j < a.len() && a[j] == z;
                assert(j != a.len() - 1);
                assert(a2[j] == z);
            }
        }
        lemma_increasing_unique(a2, b2);
        assert(a =~= a2.push(x));
        assert(b =~= b2.push(y));
    }
}

/// The files a selector picks do not depend on the order in which its
/// sub-expressions are written: two lists of the same runs, in any order,
/// resolve to the same ascending indices.
pub proof fn law_selection_ignores_order(
    a: Seq<(int, int)>,
    b: Seq<(int, int)>,
    count: int,
    va: Seq<usize>,
    vb: Seq<usize>,
)
    requires
        a.to_set() == b.to_set(),
        resolves_to(a, count, va),
        resolves_to(b, count, vb),
    ensures
        va == vb,
{
    assert forall|i: int| selected(a, count, i) <==> selected(b, count, i) by {
        if selected(a, count, i) {
            let k = choose|k: int| 0 <= k < a.len() && covers(#[trigger] a[k], count, i);
            assert(a.to_set().contains(a[k]));
            assert(b.to_set().contains(a[k]));
            let m = choose|m: int| 0 <= m < b.len() && b[m] == a[k];
            assert(covers(b[m], count, i));
        }
        if selected(b, count, i) {
            let k = choose|k: int| 0 <= k < b.len() && covers(#[trigger] b[k], count, i);
            assert(b.to_set().contains(b[k]));
            assert(a.to_set().contains(b[k]));
            let m = choose|m: int| 0 <= m < a.len() && a[m] == b[k];
            assert(covers(a[m], count, i));
        }
    }
    assert forall|x: usize| va.contains(x) <==> vb.contains(x) by {
        if va.contains(x) {
            let j = choose|j: int| 0 <= j < va.len() && va[j] == x;
            assert(selected(a, count, va[j] as int));
        }
        if vb.contains(x) {
            let j = choose|j: int| 0 <= j < vb.len() && vb[j] == x;
            assert(selected(b, count, vb[j] as int));
        }
    }
    lemma_increasing_unique(va, vb);
}

} // verus!
