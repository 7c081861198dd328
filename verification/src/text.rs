//! Character-level helpers shared by the parsers and renderers.

use vstd::prelude::*;
use vstd::std_specs::iter::IteratorSpec;
use vstd::string::StringExecFns;

verus! {

/// The characters of `s`, in order.
pub fn chars_of(s: &str) -> (v: Vec<char>)
    ensures
        v@ == s@,
{
    let mut v: Vec<char> = Vec::new();
    for c in it: s.chars()
        invariant
            v@ == it.seq().take(it.index() as int),
            it.seq() == s@,
    {
        v.push(c);
    }
    v
}


pub open spec fn is_digit(c: char) -> bool {
    '0' <= c && c <= '9'
}

pub open spec fn digit_value(c: char) -> int {
    c as int - '0' as int
}

/// Decimal value of a run of ASCII digits.
pub open spec fn digits_value(s: Seq<char>) -> int
    decreases s.len(),
{
    if s.len() == 0 {
        0
    } else {
        10 * digits_value(s.drop_last()) + digit_value(s.last())
    }
}

pub open spec fn all_digits(s: Seq<char>) -> bool {
    forall|i: int| 0 <= i < s.len() ==> is_digit(#[trigger] s[i])
}

/// What parsing a run of ASCII digits as an `i64` gives: its value, unless
/// it is empty or too large.
pub open spec fn digits_to_i64(s: Seq<char>) -> Option<i64> {
    if s.len() > 0 && all_digits(s) && digits_value(s) <= i64::MAX {
        Some(digits_value(s) as i64)
    } else {
        None
    }
}

pub proof fn lemma_digits_value_nonneg(s: Seq<char>)
    requires
        all_digits(s),
    ensures
        digits_value(s) >= 0,
    decreases s.len(),
{
    if s.len() > 0 {
        assert(is_digit(s[s.len() - 1]));
        lemma_digits_value_nonneg(s.drop_last());
    }
}

/// A prefix of a digit run never has a larger value than the whole run.
pub proof fn lemma_digits_value_prefix(s: Seq<char>, k: int)
    requires
        all_digits(s),
        0 <= k <= s.len(),
    ensures
        digits_value(s.take(k)) <= digits_value(s),
    decreases s.len() - k,
{
    if k < s.len() {
        lemma_digits_value_prefix(s, k + 1);
        assert(s.take(k + 1).drop_last() =~= s.take(k));
        assert(is_digit(s[k]));
        lemma_digits_value_nonneg(s.take(k));
    } else {
        assert(s.take(k) =~= s);
    }
}

/// Parses `v[lo..hi]` as a run of ASCII digits into an `i64`.
pub fn parse_digits(v: &Vec<char>, lo: usize, hi: usize) -> (r: Option<i64>)
    requires
        lo <= hi <= v@.len(),
        all_digits(v@.subrange(lo as int, hi as int)),
    ensures
        r == digits_to_i64(v@.subrange(lo as int, hi as int)),
{
    if lo == hi {
        return None;
    }
    let ghost s = v@.subrange(lo as int, hi as int);
    let mut val: i64 = 0;
    let mut i = lo;
    while i < hi
        invariant
            lo <= i <= hi <= v@.len(),
            s == v@.subrange(lo as int, hi as int),
            all_digits(s),
            val == digits_value(s.take(i - lo)),
            val >= 0,
        decreases hi - i,
    {
        let c = v[i];
        assert(s[i - lo] == c);
        assert(is_digit(c));
        let d = (c as u32 - '0' as u32) as i64;
        assert(s.take(i - lo + 1).drop_last() =~= s.take(i - lo));
        if val > 922_337_203_685_477_580 || (val == 922_337_203_685_477_580 && d > 7) {
            proof {
                lemma_digits_value_prefix(s, i - lo + 1);
            }
            return None;
        }
        assert(0 <= d <= 9);
        val = val * 10 + d;
        i = i + 1;
    }
    assert(s.take(hi - lo) =~= s);
    Some(val)
}


/// `String::push`: appends one character. The contract claims the string
/// afterwards holds the old characters followed by `c`.
#[verifier::external_body]
pub(crate) fn push_char(s: &mut String, c: char)
    ensures
        final(s)@ == old(s)@.push(c),
{
    s.push(c);
}

/// Appends a string slice.
pub fn push_str(s: &mut String, t: &str)
    ensures
        final(s)@ == old(s)@ + t@,
{
    s.append(t);
}

/// The string spelled by `v[lo..hi]`.
pub fn string_of(v: &Vec<char>, lo: usize, hi: usize) -> (r: String)
    requires
        lo <= hi <= v@.len(),
    ensures
        r@ == v@.subrange(lo as int, hi as int),
{
    let mut r = String::new();
    let mut i = lo;
    while i < hi
        invariant
            lo <= i <= hi <= v@.len(),
            r@ == v@.subrange(lo as int, i as int),
        decreases hi - i,
    {
        push_char(&mut r, v[i]);
        assert(v@.subrange(lo as int, i + 1) =~= v@.subrange(lo as int, i as int).push(v@[i as int]));
        i = i + 1;
    }
    r
}


/// Whether two strings are equal.
pub fn str_eq(a: &str, b: &str) -> (r: bool)
    ensures
        r == (a@ == b@),
{
    let va = chars_of(a);
    let vb = chars_of(b);
    if va.len() != vb.len() {
        return false;
    }
    let n = va.len();
    let mut i: usize = 0;
    while i < n
        invariant
            n == va@.len(),
            n == vb@.len(),
            va@ == a@,
            vb@ == b@,
            i <= n,
            forall|k: int| 0 <= k < i ==> va@[k] == vb@[k],
        decreases n - i,
    {
        if va[i] != vb[i] {
            return false;
        }
        i = i + 1;
    }
    assert(va@ =~= vb@);
    true
}

/// `s` begins with `prefix`.
pub open spec fn starts_with(s: Seq<char>, prefix: Seq<char>) -> bool {
    prefix.len() <= s.len() && s.take(prefix.len() as int) == prefix
}

pub fn str_starts_with(s: &str, prefix: &str) -> (r: bool)
    ensures
        r == starts_with(s@, prefix@),
{
    let vs = chars_of(s);
    let vp = chars_of(prefix);
    if vp.len() > vs.len() {
        return false;
    }
    let n = vp.len();
    let mut i: usize = 0;
    while i < n
        invariant
            n == vp@.len(),
            n <= vs@.len(),
            vs@ == s@,
            vp@ == prefix@,
            i <= n,
            forall|k: int| 0 <= k < i ==> vs@[k] == vp@[k],
        decreases n - i,
    {
        if vs[i] != vp[i] {
            return false;
        }
        i = i + 1;
    }
    assert(vs@.take(n as int) =~= vp@);
    true
}

/// Lexicographic order on character sequences (the order `str` compares
/// in: UTF-8 byte order agrees with code point order).
pub open spec fn lex_le(a: Seq<char>, b: Seq<char>) -> bool
    decreases a.len(),
{
    if a.len() == 0 {
        true
    } else if b.len() == 0 {
        false
    } else if (a[0] as u32) != (b[0] as u32) {
        (a[0] as u32) < (b[0] as u32)
    } else {
        lex_le(a.drop_first(), b.drop_first())
    }
}

pub proof fn lemma_lex_total(a: Seq<char>, b: Seq<char>)
    ensures
        lex_le(a, b) || lex_le(b, a),
    decreases a.len(),
{
    if a.len() > 0 && b.len() > 0 && (a[0] as u32) == (b[0] as u32) {
        lemma_lex_total(a.drop_first(), b.drop_first());
    }
}

pub proof fn lemma_lex_trans(a: Seq<char>, b: Seq<char>, c: Seq<char>)
    requires
        lex_le(a, b),
        lex_le(b, c),
    ensures
        lex_le(a, c),
    decreases a.len(),
{
    if a.len() > 0 && b.len() > 0 && c.len() > 0 && (a[0] as u32) == (b[0] as u32) && (b[0] as u32) == (c[0] as u32) {
        lemma_lex_trans(a.drop_first(), b.drop_first(), c.drop_first());
    }
}

pub proof fn lemma_lex_antisym(a: Seq<char>, b: Seq<char>)
    requires
        lex_le(a, b),
        lex_le(b, a),
    ensures
        a == b,
    decreases a.len(),
{
    if a.len() > 0 && b.len() > 0 {
        assert((a[0] as u32) == (b[0] as u32));
        vstd::utf8::char_u32_cast(a[0], a[0] as u32);
        vstd::utf8::char_u32_cast(b[0], b[0] as u32);
        assert(a[0] == b[0]);
        lemma_lex_antisym(a.drop_first(), b.drop_first());
        assert(a =~= seq![a[0]] + a.drop_first());
        assert(b =~= seq![b[0]] + b.drop_first());
    } else {
        assert(a =~= b);
    }
}

/// Compares `a` and `b` lexicographically.
pub fn str_le(a: &str, b: &str) -> (r: bool)
    ensures
        r == lex_le(a@, b@),
{
    let va = chars_of(a);
    let vb = chars_of(b);
    let mut i: usize = 0;
    assert(va@.skip(0) =~= va@ && vb@.skip(0) =~= vb@);
    while i < va.len() && i < vb.len() && (va[i] as u32) == (vb[i] as u32)
        invariant
            i <= va@.len(),
            i <= vb@.len(),
            lex_le(va@, vb@) == lex_le(va@.skip(i as int), vb@.skip(i as int)),
        decreases va@.len() - i,
    {
        assert(va@.skip(i as int).drop_first() =~= va@.skip(i + 1));
        assert(vb@.skip(i as int).drop_first() =~= vb@.skip(i + 1));
        i = i + 1;
    }
    let ghost sa = va@.skip(i as int);
    let ghost sb = vb@.skip(i as int);
    if i == va.len() {
        assert(sa.len() == 0);
        true
    } else if i == vb.len() {
        assert(sb.len() == 0);
        false
    } else {
        assert(sa[0] == va@[i as int] && sb[0] == vb@[i as int]);
        (va[i] as u32) < (vb[i] as u32)
    }
}


// ---------- whitespace, trimming, searching ----------

/// Unicode White_Space, the set `char::is_whitespace` tests.
pub open spec fn is_whitespace(c: char) -> bool {
    let u = c as u32;
    (0x09 <= u <= 0x0D) || u == 0x20 || u == 0x85 || u == 0xA0 || u == 0x1680
        || (0x2000 <= u <= 0x200A) || u == 0x2028 || u == 0x2029 || u == 0x202F
        || u == 0x205F || u == 0x3000
}

pub fn is_whitespace_exec(c: char) -> (r: bool)
    ensures
        r == is_whitespace(c),
{
    let u = c as u32;
    (0x09 <= u && u <= 0x0D) || u == 0x20 || u == 0x85 || u == 0xA0 || u == 0x1680
        || (0x2000 <= u && u <= 0x200A) || u == 0x2028 || u == 0x2029 || u == 0x202F
        || u == 0x205F || u == 0x3000
}

/// `s` without leading whitespace.
pub open spec fn trim_start(s: Seq<char>) -> Seq<char>
    decreases s.len(),
{
    if s.len() > 0 && is_whitespace(s[0]) { trim_start(s.drop_first()) } else { s }
}

/// `s` without trailing whitespace.
pub open spec fn trim_end(s: Seq<char>) -> Seq<char>
    decreases s.len(),
{
    if s.len() > 0 && is_whitespace(s.last()) { trim_end(s.drop_last()) } else { s }
}

/// `s` without leading and trailing whitespace (`str::trim`).
pub open spec fn trim(s: Seq<char>) -> Seq<char> {
    trim_end(trim_start(s))
}

/// The bounds of `trim(v[lo..hi])` inside `v`.
pub fn trim_bounds(v: &Vec<char>, lo: usize, hi: usize) -> (r: (usize, usize))
    requires
        lo <= hi <= v@.len(),
    ensures
        lo <= r.0 <= r.1 <= hi,
        v@.subrange(r.0 as int, r.1 as int) == trim(v@.subrange(lo as int, hi as int)),
{
    let mut a = lo;
    while a < hi && is_whitespace_exec(v[a])
        invariant
            lo <= a <= hi <= v@.len(),
            trim_start(v@.subrange(lo as int, hi as int)) == trim_start(v@.subrange(a as int, hi as int)),
        decreases hi - a,
    {
        assert(v@.subrange(a as int, hi as int).drop_first() =~= v@.subrange(a + 1, hi as int));
        a = a + 1;
    }
    let mut b = hi;
    assert(trim_start(v@.subrange(a as int, hi as int)) == v@.subrange(a as int, hi as int));
    while b > a && is_whitespace_exec(v[b - 1])
        invariant
            lo <= a <= b <= hi <= v@.len(),
            trim_start(v@.subrange(lo as int, hi as int)) == v@.subrange(a as int, hi as int),
            trim_end(v@.subrange(a as int, hi as int)) == trim_end(v@.subrange(a as int, b as int)),
        decreases b - a,
    {
        assert(v@.subrange(a as int, b as int).drop_last() =~= v@.subrange(a as int, b - 1));
        b = b - 1;
    }
    (a, b)
}

/// `pat` occurs in `s` at `i`.
pub open spec fn occurs_at(s: Seq<char>, pat: Seq<char>, i: int) -> bool {
    0 <= i && i + pat.len() <= s.len() && s.subrange(i, i + pat.len()) == pat
}

/// The first position of `pat` in `s` (`str::find`).
#[verifier::opaque]
pub open spec fn find(s: Seq<char>, pat: Seq<char>) -> Option<int> {
    if exists|i: int| occurs_at(s, pat, i) {
        Some(choose|i: int| occurs_at(s, pat, i) && forall|j: int| 0 <= j < i ==> !occurs_at(s, pat, j))
    } else {
        None
    }
}

/// The first occurrence of `pat` in `v[lo..hi]`, as an index into `v`.
pub fn find_in(v: &Vec<char>, lo: usize, hi: usize, pat: &Vec<char>) -> (r: Option<usize>)
    requires
        lo <= hi <= v@.len(),
    ensures
        find(v@.subrange(lo as int, hi as int), pat@) == (match r {
            Some(i) => Some(i - lo),
            None => None::<int>,
        }),
        r matches Some(i) ==> lo <= i && i + pat@.len() <= hi,
{
    reveal(find);
    let ghost s = v@.subrange(lo as int, hi as int);
    let m = pat.len();
    if m > hi - lo {
        proof {
            assert forall|i: int| !occurs_at(s, pat@, i) by {}
        }
        return None;
    }
    let mut i = lo;
    while i <= hi - m
        invariant
            lo <= i <= hi - m + 1,
            m <= hi - lo,
            hi <= v@.len(),
            m == pat@.len(),
            s == v@.subrange(lo as int, hi as int),
            forall|j: int| 0 <= j < i - lo ==> !occurs_at(s, pat@, j),
        decreases hi - m + 1 - i,
    {
        let mut k: usize = 0;
        while k < m && v[i + k] == pat[k]
            invariant
                k <= m,
                i + m <= hi <= v@.len(),
                m == pat@.len(),
                forall|t: int| 0 <= t < k ==> v@[i + t] == pat@[t],
            decreases m - k,
        {
            k = k + 1;
        }
        if k == m {
            proof {
                reveal(find);
                assert(s.subrange(i - lo, i - lo + m) =~= pat@);
                let found = i - lo;
                assert(occurs_at(s, pat@, found));
                let c = choose|c: int| occurs_at(s, pat@, c) && forall|j: int| 0 <= j < c ==> !occurs_at(s, pat@, j);
                assert(c == found);
                assert(find(s, pat@) == Some(found));
            }
            return Some(i);
        }
        proof {
            assert(!occurs_at(s, pat@, i - lo)) by {
                if occurs_at(s, pat@, i - lo) {
                    assert(s.subrange(i - lo, i - lo + m)[k as int] == pat@[k as int]);
                }
            }
        }
        i = i + 1;
    }
    proof {
        reveal(find);
        assert forall|j: int| !occurs_at(s, pat@, j) by {
            if 0 <= j && j < i - lo {
            }
        }
    }
    None
}

/// Some `s[i + j]` with `j >= k` differs from `pat[j]`, both existing: the
/// window of `pat` placed at `i` (relative to `s`) disagrees with `s`.
pub open spec fn differs_from(s: Seq<char>, pat: Seq<char>, i: int, k: int) -> bool
    decreases pat.len() - k,
{
    if 0 <= k < pat.len() && 0 <= i + k < s.len() {
        s[i + k] != pat[k] || differs_from(s, pat, i, k + 1)
    } else {
        false
    }
}

/// Every window of `pat` placed at `i..end` (relative to `s`, where a start
/// below 0 lies before `s`) disagrees with `s` somewhere they overlap.
pub open spec fn ruled_out(s: Seq<char>, pat: Seq<char>, i: int, end: int) -> bool
    decreases end - i,
{
    if i < end {
        differs_from(s, pat, i, if i < 0 { -i } else { 0 }) && ruled_out(s, pat, i + 1, end)
    } else {
        true
    }
}

/// A window that disagrees with a piece of `t` is no occurrence in `t`.
pub proof fn lemma_differs(t: Seq<char>, o: int, s: Seq<char>, pat: Seq<char>, i: int, k: int)
    requires
        0 <= o,
        o + s.len() <= t.len(),
        t.subrange(o, o + s.len()) == s,
        0 <= k,
        differs_from(s, pat, i, k),
    ensures
        !occurs_at(t, pat, o + i),
    decreases pat.len() - k,
{
    if s[i + k] != pat[k] {
        if occurs_at(t, pat, o + i) {
            assert(t.subrange(o + i, o + i + pat.len())[k] == pat[k]);
            assert(t.subrange(o, o + s.len())[i + k] == s[i + k]);
        }
    } else {
        lemma_differs(t, o, s, pat, i, k + 1);
    }
}

/// No occurrence of `pat` in `t` starts where `ruled_out` says it cannot.
pub proof fn lemma_ruled_out(t: Seq<char>, o: int, s: Seq<char>, pat: Seq<char>, i: int, end: int)
    requires
        0 <= o,
        o + s.len() <= t.len(),
        t.subrange(o, o + s.len()) == s,
        ruled_out(s, pat, i, end),
    ensures
        forall|x: int| o + i <= x < o + end ==> !occurs_at(t, pat, x),
    decreases end - i,
{
    if i < end {
        lemma_differs(t, o, s, pat, i, if i < 0 { -i } else { 0 });
        lemma_ruled_out(t, o, s, pat, i + 1, end);
    }
}

/// An occurrence inside a piece of `t` is an occurrence in that piece.
pub proof fn lemma_occurs_inside(t: Seq<char>, o: int, s: Seq<char>, pat: Seq<char>, j: int)
    requires
        0 <= o,
        o + s.len() <= t.len(),
        t.subrange(o, o + s.len()) == s,
        0 <= j,
        j + pat.len() <= s.len(),
        occurs_at(t, pat, o + j),
    ensures
        occurs_at(s, pat, j),
{
    assert(s.subrange(j, j + pat.len()) =~= t.subrange(o + j, o + j + pat.len()));
}

/// `pat` occurs somewhere in `s`.
pub open spec fn contains_text(s: Seq<char>, pat: Seq<char>) -> bool {
    exists|j: int| occurs_at(s, pat, j)
}

/// A piece of `t` that does not contain `pat` holds no occurrence of it.
pub proof fn lemma_absent_inside(t: Seq<char>, o: int, s: Seq<char>, pat: Seq<char>)
    requires
        0 <= o,
        o + s.len() <= t.len(),
        t.subrange(o, o + s.len()) == s,
        !contains_text(s, pat),
    ensures
        forall|x: int| o <= x && x + pat.len() <= o + s.len() ==> !occurs_at(t, pat, x),
{
    assert forall|x: int| o <= x && x + pat.len() <= o + s.len() implies !occurs_at(t, pat, x) by {
        if occurs_at(t, pat, x) {
            lemma_occurs_inside(t, o, s, pat, x - o);
        }
    }
}

/// An occurrence after the first `d` characters is one in the whole.
pub proof fn lemma_occurs_skip(s: Seq<char>, d: int, pat: Seq<char>, j: int)
    requires
        0 <= d <= s.len(),
        occurs_at(s.skip(d), pat, j),
    ensures
        occurs_at(s, pat, d + j),
{
    assert(s.subrange(d + j, d + j + pat.len()) =~= s.skip(d).subrange(j, j + pat.len()));
}

/// `find` gives an occurrence with none before it.
pub proof fn lemma_find_first(s: Seq<char>, pat: Seq<char>, p: int)
    requires
        occurs_at(s, pat, p),
        forall|j: int| 0 <= j < p ==> !occurs_at(s, pat, j),
    ensures
        find(s, pat) == Some(p),
{
    reveal(find);
    let c = choose|c: int| occurs_at(s, pat, c) && forall|j: int| 0 <= j < c ==> !occurs_at(s, pat, j);
    assert(occurs_at(s, pat, c) && forall|j: int| 0 <= j < c ==> !occurs_at(s, pat, j));
    if c < p {
        assert(!occurs_at(s, pat, c));
    }
    if p < c {
        assert(!occurs_at(s, pat, p));
    }
}

/// What `find` returns is an occurrence, with none before it.
pub proof fn lemma_find_found(s: Seq<char>, pat: Seq<char>)
    ensures
        find(s, pat) matches Some(q) ==> occurs_at(s, pat, q) && forall|j: int| 0 <= j < q ==> !occurs_at(s, pat, j),
{
    reveal(find);
    if exists|i: int| occurs_at(s, pat, i) {
        let i = choose|i: int| occurs_at(s, pat, i);
        lemma_least_occurrence(s, pat, i);
    }
}

/// An occurrence at `i` means a first occurrence exists.
proof fn lemma_least_occurrence(s: Seq<char>, pat: Seq<char>, i: int)
    requires
        occurs_at(s, pat, i),
    ensures
        exists|m: int| occurs_at(s, pat, m) && forall|j: int| 0 <= j < m ==> !occurs_at(s, pat, j),
    decreases i,
{
    if exists|j: int| 0 <= j < i && occurs_at(s, pat, j) {
        let j = choose|j: int| 0 <= j < i && occurs_at(s, pat, j);
        lemma_least_occurrence(s, pat, j);
    } else {
        assert(occurs_at(s, pat, i) && forall|j: int| 0 <= j < i ==> !occurs_at(s, pat, j));
    }
}

/// What `str::parse::<u32>` gives: an optional `+`, then one or more ASCII
/// digits whose value fits.
pub open spec fn parse_u32(s: Seq<char>) -> Option<u32> {
    let body = if s.len() > 0 && s[0] == '+' { s.drop_first() } else { s };
    if body.len() > 0 && all_digits(body) && digits_value(body) <= u32::MAX {
        Some(digits_value(body) as u32)
    } else {
        None
    }
}

/// What `str::parse::<i64>` gives: an optional sign, then one or more ASCII
/// digits whose (signed) value fits.
pub open spec fn parse_i64(s: Seq<char>) -> Option<i64> {
    let neg = s.len() > 0 && s[0] == '-';
    let body = if s.len() > 0 && (s[0] == '+' || s[0] == '-') { s.drop_first() } else { s };
    if body.len() > 0 && all_digits(body) {
        if neg && digits_value(body) <= 0x8000_0000_0000_0000 {
            Some((-digits_value(body)) as i64)
        } else if !neg && digits_value(body) <= i64::MAX {
            Some(digits_value(body) as i64)
        } else {
            None
        }
    } else {
        None
    }
}

/// The value of the digits `v[lo..hi]`, saturated just above `cap`.
fn digits_capped(v: &Vec<char>, lo: usize, hi: usize, cap: u64) -> (r: Option<u64>)
    requires
        lo <= hi <= v@.len(),
        cap >= 9,
    ensures
        match r {
            Some(x) => all_digits(v@.subrange(lo as int, hi as int))
                && x == digits_value(v@.subrange(lo as int, hi as int))
                && x <= cap,
            None => !all_digits(v@.subrange(lo as int, hi as int))
                || digits_value(v@.subrange(lo as int, hi as int)) > cap,
        },
{
    let ghost s = v@.subrange(lo as int, hi as int);
    let mut val: u64 = 0;
    let mut i = lo;
    while i < hi
        invariant
            lo <= i <= hi <= v@.len(),
            s == v@.subrange(lo as int, hi as int),
            cap >= 9,
            all_digits(s.take(i - lo)),
            val == digits_value(s.take(i - lo)),
            val <= cap,
        decreases hi - i,
    {
        let c = v[i];
        assert(s.take(i - lo + 1).drop_last() =~= s.take(i - lo));
        if !('0' <= c && c <= '9') {
            proof {
                assert(s[i - lo] == c);
            }
            return None;
        }
        let d = (c as u32 - '0' as u32) as u64;
        if val > (cap - d) / 10 {
            proof {
                assert(all_digits(s.take(i - lo + 1)));
                if all_digits(s) {
                    lemma_digits_value_prefix(s, i - lo + 1);
                }
            }
            return None;
        }
        val = val * 10 + d;
        i = i + 1;
    }
    assert(s.take(hi - lo) =~= s);
    Some(val)
}

/// Parses `v[lo..hi]` as `str::parse::<u32>` does.
pub fn parse_u32_in(v: &Vec<char>, lo: usize, hi: usize) -> (r: Option<u32>)
    requires
        lo <= hi <= v@.len(),
    ensures
        r == parse_u32(v@.subrange(lo as int, hi as int)),
{
    let ghost s = v@.subrange(lo as int, hi as int);
    let start = if lo < hi && v[lo] == '+' { lo + 1 } else { lo };
    assert(v@.subrange(start as int, hi as int) == if s.len() > 0 && s[0] == '+' { s.drop_first() } else { s });
    if start == hi {
        return None;
    }
    match digits_capped(v, start, hi, 0xFFFF_FFFF) {
        Some(x) => Some(x as u32),
        None => None,
    }
}

/// Parses `v[lo..hi]` as `str::parse::<i64>` does.
pub fn parse_i64_in(v: &Vec<char>, lo: usize, hi: usize) -> (r: Option<i64>)
    requires
        lo <= hi <= v@.len(),
    ensures
        r == parse_i64(v@.subrange(lo as int, hi as int)),
{
    let ghost s = v@.subrange(lo as int, hi as int);
    let neg = lo < hi && v[lo] == '-';
    let start = if lo < hi && (v[lo] == '+' || v[lo] == '-') { lo + 1 } else { lo };
    assert(v@.subrange(start as int, hi as int)
        == if s.len() > 0 && (s[0] == '+' || s[0] == '-') { s.drop_first() } else { s });
    if start == hi {
        return None;
    }
    if neg {
        match digits_capped(v, start, hi, 0x8000_0000_0000_0000) {
            Some(x) => if x == 0x8000_0000_0000_0000 { Some(i64::MIN) } else { Some(-(x as i64)) },
            None => None,
        }
    } else {
        match digits_capped(v, start, hi, 0x7FFF_FFFF_FFFF_FFFF) {
            Some(x) => Some(x as i64),
            None => None,
        }
    }
}


// ---------- decimal rendering ----------

pub open spec fn digit_char(d: nat) -> char {
    ((48 + d) as u8) as char
}

/// The decimal digits of `n` (how `Display` writes an unsigned integer).
pub open spec fn decimal(n: nat) -> Seq<char>
    decreases n,
{
    if n < 10 {
        seq![digit_char(n)]
    } else {
        decimal(n / 10).push(digit_char(n % 10))
    }
}

/// How `Display` writes a signed integer: a `-` for negatives, then the
/// digits of the magnitude.
pub open spec fn signed_decimal(n: int) -> Seq<char> {
    if n < 0 { seq!['-'] + decimal((-n) as nat) } else { decimal(n as nat) }
}

/// The decimal digits of `n` are one or more ASCII digits worth `n`.
pub proof fn lemma_decimal(n: nat)
    ensures
        decimal(n).len() >= 1,
        all_digits(decimal(n)),
        digits_value(decimal(n)) == n,
    decreases n,
{
    assert(digit_char(n % 10) as int == 48 + n % 10);
    if n < 10 {
        assert(decimal(n).drop_last() =~= Seq::<char>::empty());
        assert(n % 10 == n);
        assert(digits_value(decimal(n)) == 10 * digits_value(Seq::<char>::empty()) + digit_value(digit_char(n)));
    } else {
        lemma_decimal(n / 10);
        assert(decimal(n).drop_last() =~= decimal(n / 10));
        assert(digits_value(decimal(n)) == 10 * digits_value(decimal(n / 10)) + digit_value(digit_char(n % 10)));
        assert(10 * (n / 10) + n % 10 == n);
        assert forall|i: int| 0 <= i < decimal(n).len() implies is_digit(#[trigger] decimal(n)[i]) by {
            if i < decimal(n / 10).len() {
                assert(decimal(n)[i] == decimal(n / 10)[i]);
            }
        }
    }
}

/// Text with no whitespace at either end is its own trim.
pub proof fn lemma_trim_plain(s: Seq<char>)
    requires
        s.len() > 0,
        !is_whitespace(s[0]),
        !is_whitespace(s.last()),
    ensures
        trim(s) == s,
{
}

/// A written integer is one or more digits, after a `-` for negatives.
pub proof fn lemma_signed_decimal(n: int)
    ensures
        signed_decimal(n).len() >= 1,
        n < 0 ==> signed_decimal(n).len() >= 2 && signed_decimal(n)[0] == '-',
        forall|k: int| 0 <= k < signed_decimal(n).len() && !(n < 0 && k == 0)
            ==> is_digit(#[trigger] signed_decimal(n)[k]),
{
    if n < 0 {
        lemma_decimal((-n) as nat);
        let w = signed_decimal(n);
        assert forall|k: int| 0 <= k < w.len() && !(n < 0 && k == 0) implies is_digit(#[trigger] w[k]) by {
            assert(w[k] == decimal((-n) as nat)[k - 1]);
        }
    } else {
        lemma_decimal(n as nat);
    }
}

/// No pattern that starts with two non-digits begins inside a written
/// integer.
pub proof fn lemma_number_region(t: Seq<char>, o: int, n: int, pat: Seq<char>)
    requires
        0 <= o,
        o + signed_decimal(n).len() <= t.len(),
        t.subrange(o, o + signed_decimal(n).len()) == signed_decimal(n),
        pat.len() >= 2,
        !is_digit(pat[0]),
        !is_digit(pat[1]),
    ensures
        forall|x: int| o <= x < o + signed_decimal(n).len() ==> !occurs_at(t, pat, x),
{
    let w = signed_decimal(n);
    lemma_signed_decimal(n);
    assert forall|x: int| o <= x < o + w.len() implies !occurs_at(t, pat, x) by {
        let j = x - o;
        if occurs_at(t, pat, x) {
            assert(t.subrange(x, x + pat.len())[0] == pat[0]);
            assert(t.subrange(o, o + w.len())[j] == w[j]);
            if n < 0 && j == 0 {
                assert(is_digit(w[1]));
                assert(t.subrange(x, x + pat.len())[1] == pat[1]);
                assert(t.subrange(o, o + w.len())[1] == w[1]);
            }
        }
    }
}

/// Reading back a written `i64` gives it.
pub proof fn lemma_parse_signed(n: i64)
    ensures
        parse_i64(signed_decimal(n as int)) == Some(n),
{
    let w = signed_decimal(n as int);
    lemma_signed_decimal(n as int);
    if n < 0 {
        lemma_decimal((-n) as nat);
        assert(w.drop_first() =~= decimal((-n) as nat));
    } else {
        lemma_decimal(n as nat);
        assert(is_digit(w[0]));
    }
}

/// Reading back a written `u32` gives it.
pub proof fn lemma_parse_unsigned(n: u32)
    ensures
        parse_u32(decimal(n as nat)) == Some(n),
{
    lemma_decimal(n as nat);
    assert(is_digit(decimal(n as nat)[0]));
}

/// Appends the decimal digits of `n`.
pub fn push_decimal(s: &mut String, n: u64)
    ensures
        final(s)@ == old(s)@ + decimal(n as nat),
    decreases n,
{
    if n >= 10 {
        push_decimal(s, n / 10);
    }
    let d = (n % 10) as u8;
    push_char(s, (48 + d) as char);
    assert(s@ =~= old(s)@ + decimal(n as nat));
}

/// Appends `n` written as `Display` writes it.
pub fn push_signed(s: &mut String, n: i64)
    ensures
        final(s)@ == old(s)@ + signed_decimal(n as int),
{
    if n < 0 {
        push_char(s, '-');
        let mag: u64 = ((-(n + 1)) as u64) + 1;
        push_decimal(s, mag);
        assert(s@ =~= old(s)@ + signed_decimal(n as int));
    } else {
        push_decimal(s, n as u64);
    }
}

// ---------- single-character search ----------

/// The position of the first `c` in `s`, or its length.
pub open spec fn first_pos(s: Seq<char>, c: char) -> nat
    decreases s.len(),
{
    if s.len() == 0 || s[0] == c { 0 } else { 1 + first_pos(s.drop_first(), c) }
}

/// The position of the last `c` in `s`, or -1.
pub open spec fn last_pos(s: Seq<char>, c: char) -> int
    decreases s.len(),
{
    if s.len() == 0 {
        -1
    } else if s.last() == c {
        s.len() - 1
    } else {
        last_pos(s.drop_last(), c)
    }
}

pub proof fn lemma_first_pos(s: Seq<char>, c: char)
    ensures
        first_pos(s, c) <= s.len(),
        first_pos(s, c) < s.len() ==> s[first_pos(s, c) as int] == c,
        forall|k: int| 0 <= k < first_pos(s, c) ==> s[k] != c,
    decreases s.len(),
{
    if s.len() > 0 && s[0] != c {
        lemma_first_pos(s.drop_first(), c);
        assert forall|k: int| 0 <= k < first_pos(s, c) implies s[k] != c by {
            if k > 0 {
                assert(s[k] == s.drop_first()[k - 1]);
            }
        }
    }
}

pub proof fn lemma_first_pos_scan(s: Seq<char>, c: char, j: int)
    requires
        0 <= j <= s.len(),
        j == s.len() || s[j] == c,
        forall|k: int| 0 <= k < j ==> s[k] != c,
    ensures
        first_pos(s, c) == j,
    decreases j,
{
    if j > 0 {
        lemma_first_pos_scan(s.drop_first(), c, j - 1);
    }
}

pub proof fn lemma_last_pos_scan(s: Seq<char>, c: char, j: int)
    requires
        -1 <= j < s.len(),
        j >= 0 ==> s[j] == c,
        forall|k: int| j < k < s.len() ==> s[k] != c,
    ensures
        last_pos(s, c) == j,
    decreases s.len(),
{
    if s.len() > 0 && s.last() != c {
        assert(j < s.len() - 1);
        lemma_last_pos_scan(s.drop_last(), c, j);
    }
}

/// The position of the last `c` in `v`, if any.
pub fn last_index(v: &Vec<char>, c: char) -> (r: Option<usize>)
    ensures
        match r {
            Some(i) => i < v@.len() && last_pos(v@, c) == i,
            None => last_pos(v@, c) == -1,
        },
{
    let mut i = v.len();
    while i > 0 && v[i - 1] != c
        invariant
            i <= v@.len(),
            forall|k: int| i <= k < v@.len() ==> v@[k] != c,
        decreases i,
    {
        i = i - 1;
    }
    if i == 0 {
        proof {
            lemma_last_pos_scan(v@, c, -1);
        }
        None
    } else {
        proof {
            lemma_last_pos_scan(v@, c, i - 1);
        }
        Some(i - 1)
    }
}

/// The position of the first `c` in `v[lo..]`, or `v.len()`.
pub fn first_index(v: &Vec<char>, lo: usize, c: char) -> (j: usize)
    requires
        lo <= v@.len(),
    ensures
        lo <= j <= v@.len(),
        j == lo + first_pos(v@.skip(lo as int), c),
{
    let mut j = lo;
    while j < v.len() && v[j] != c
        invariant
            lo <= j <= v@.len(),
            forall|k: int| lo <= k < j ==> v@[k] != c,
        decreases v@.len() - j,
    {
        j = j + 1;
    }
    proof {
        let t = v@.skip(lo as int);
        assert forall|k: int| 0 <= k < j - lo implies t[k] != c by {
            assert(t[k] == v@[lo + k]);
        }
        lemma_first_pos_scan(t, c, j - lo);
    }
    j
}

} // verus!
