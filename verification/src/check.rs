//! The headless due-date report (`utiman check`): how a due date is phrased,
//! which bills count as due soon, the order of the report, the exit code a
//! cron wrapper acts on, and the reason shown for a provider that failed.

use vstd::prelude::*;
use crate::sort::{is_stable_sort, reorder, stable_sort, TotalOrder};
use crate::text::{chars_of, decimal, push_char, push_decimal, push_str, string_of, trim, trim_bounds};

verus! {

// ---------- phrasing ----------

/// How the report words a due date `days` away (negative: overdue).
pub open spec fn when_text(days: Option<i64>) -> Seq<char> {
    match days {
        Some(n) => if n < 0 {
            "overdue "@ + decimal((-n) as nat) + "d"@
        } else if n == 0 {
            "due today"@
        } else {
            "in "@ + decimal(n as nat) + "d"@
        },
        None => "date unknown"@,
    }
}

/// Words a due date `days` away: "overdue 3d", "due today", "in 5d",
/// "date unknown".
pub fn when(days: Option<i64>) -> (r: String)
    requires
        days != Some(i64::MIN),
    ensures
        r@ == when_text(days),
{
    match days {
        Some(n) => {
            if n < 0 {
                let mut s = String::new();
                push_str(&mut s, "overdue ");
                push_decimal(&mut s, (-n) as u64);
                push_str(&mut s, "d");
                s
            } else if n == 0 {
                let mut s = String::new();
                push_str(&mut s, "due today");
                s
            } else {
                let mut s = String::new();
                push_str(&mut s, "in ");
                push_decimal(&mut s, n as u64);
                push_str(&mut s, "d");
                s
            }
        },
        None => {
            let mut s = String::new();
            push_str(&mut s, "date unknown");
            s
        },
    }
}

// ---------- urgency ----------

/// A bill is due soon when it has a date within `within` days (overdue
/// included); an undated bill never is.
pub open spec fn soon(days: Option<i64>, within: i64) -> bool {
    match days {
        Some(n) => n <= within,
        None => false,
    }
}

/// Urgency grows with the window: an overdue bill is due soon for any
/// window of zero days or more, a bill due soon stays due soon in any wider
/// window, one due later than the window is not, and an undated bill never
/// is.
pub proof fn urgency_law(n: i64, within: i64, wider: i64)
    ensures
        n < 0 && within >= 0 ==> soon(Some(n), within),
        soon(Some(n), within) && within <= wider ==> soon(Some(n), wider),
        n > within ==> !soon(Some(n), within),
        !soon(None, within),
{
}

pub fn is_soon(days: Option<i64>, within: i64) -> (r: bool)
    ensures
        r == soon(days, within),
{
    match days {
        Some(n) => n <= within,
        None => false,
    }
}

/// The marker in front of a report line: "! " overdue, "* " due soon,
/// blank otherwise.
pub fn flag(days: Option<i64>, within: i64) -> (r: &'static str)
    ensures
        r@ == (match days {
            Some(n) => if n < 0 { "! "@ } else if n <= within { "* "@ } else { "  "@ },
            None => "  "@,
        }),
{
    match days {
        Some(n) => if n < 0 {
            "! "
        } else if n <= within {
            "* "
        } else {
            "  "
        },
        None => "  ",
    }
}

/// Process exit code: 2 when anything is due soon or overdue, else 0.
pub fn exit_code(none_soon: bool) -> (r: i32)
    ensures
        r == (if none_soon { 0i32 } else { 2i32 }),
{
    if none_soon {
        0
    } else {
        2
    }
}

/// Some bill in the report is due soon.
pub open spec fn any_soon(days: Seq<Option<i64>>, within: i64) -> bool {
    exists|i: int| 0 <= i < days.len() && #[trigger] soon(days[i], within)
}

/// The exit code of a whole report whose bills are due `days` away.
pub fn report_exit_code(days: &Vec<Option<i64>>, within: i64) -> (r: i32)
    ensures
        r == (if any_soon(days@, within) { 2i32 } else { 0i32 }),
{
    let mut i: usize = 0;
    while i < days.len()
        invariant
            i <= days@.len(),
            forall|k: int| 0 <= k < i ==> !#[trigger] soon(days@[k], within),
        decreases days@.len() - i,
    {
        if is_soon(days[i], within) {
            return exit_code(false);
        }
        i = i + 1;
    }
    exit_code(true)
}

// ---------- ordering ----------

/// The sort key of a bill: its distance in days, undated bills last.
pub open spec fn triage_key(days: Option<i64>) -> i64 {
    match days {
        Some(n) => n,
        None => i64::MAX,
    }
}

/// Orders the report soonest-first, undated bills last, keeping the order
/// of bills with equal keys. `days[i]` belongs to `items[i]`.
pub fn triage<T>(items: Vec<T>, days: &Vec<Option<i64>>) -> (r: Vec<T>)
    requires
        items@.len() == days@.len(),
    ensures
        exists|order: Seq<usize>|
            is_stable_sort(days@.map_values(|d: Option<i64>| triage_key(d)), order)
            && r@ == reorder(items@, order)
            && soonest_first(days@, order),
{
    let mut keys: Vec<i64> = Vec::new();
    let mut i: usize = 0;
    while i < days.len()
        invariant
            i <= days@.len(),
            keys@ == days@.take(i as int).map_values(|d: Option<i64>| triage_key(d)),
        decreases days@.len() - i,
    {
        let k = match days[i] {
            Some(n) => n,
            None => i64::MAX,
        };
        keys.push(k);
        assert(days@.take(i + 1).map_values(|d: Option<i64>| triage_key(d))
            =~= days@.take(i as int).map_values(|d: Option<i64>| triage_key(d)).push(k));
        i = i + 1;
    }
    assert(days@.take(days@.len() as int) =~= days@);
    let (sorted, order) = stable_sort(items, &keys);
    proof {
        triage_order(days@, order@);
    }
    sorted
}

/// Placing bill `order[p]` at position `p` puts them soonest-first: a dated
/// bill comes before every bill due later (overdue ones by how overdue they
/// are), an undated bill comes after every dated one (but a bill dated as
/// far off as a day count goes), and bills due the same day keep their order.
pub open spec fn soonest_first(days: Seq<Option<i64>>, order: Seq<usize>) -> bool {
    &&& forall|p: int, q: int| 0 <= p < q < order.len()
        && (#[trigger] days[order[p] as int]) is Some && (#[trigger] days[order[q] as int]) is Some
        ==> days[order[p] as int]->0 <= days[order[q] as int]->0
    &&& forall|p: int, q: int| 0 <= p < q < order.len() && #[trigger] days[order[p] as int] is None
        ==> #[trigger] days[order[q] as int] is None || days[order[q] as int] == Some(i64::MAX)
    &&& forall|p: int, q: int| 0 <= p < q < order.len() && #[trigger] days[order[p] as int] == #[trigger] days[order[q] as int]
        ==> order[p] < order[q]
}

/// Sorting by the triage key puts bills soonest-first, whatever their day
/// counts (negative ones included).
pub proof fn triage_order(days: Seq<Option<i64>>, order: Seq<usize>)
    requires
        is_stable_sort(days.map_values(|d: Option<i64>| triage_key(d)), order),
    ensures
        soonest_first(days, order),
{
    let keys = days.map_values(|d: Option<i64>| triage_key(d));
    assert forall|p: int, q: int| 0 <= p < q < order.len()
        && (#[trigger] days[order[p] as int]) is Some && (#[trigger] days[order[q] as int]) is Some
        implies days[order[p] as int]->0 <= days[order[q] as int]->0 by {
        assert(keys[order[p] as int].key_le(keys[order[q] as int]));
    }
    assert forall|p: int, q: int| 0 <= p < q < order.len() && #[trigger] days[order[p] as int] is None
        implies #[trigger] days[order[q] as int] is None || days[order[q] as int] == Some(i64::MAX) by {
        assert(keys[order[p] as int].key_le(keys[order[q] as int]));
    }
    assert forall|p: int, q: int| 0 <= p < q < order.len() && #[trigger] days[order[p] as int] == #[trigger] days[order[q] as int]
        implies order[p] < order[q] by {
        assert(keys[order[q] as int].key_le(keys[order[p] as int]));
    }
}

// ---------- failures ----------

/// The length of the first line of `s` (up to, not including, a `\n`).
pub open spec fn line_len(s: Seq<char>) -> nat
    decreases s.len(),
{
    if s.len() == 0 || s[0] == '\n' { 0 } else { 1 + line_len(s.drop_first()) }
}

/// The first line of `s` that is not blank, as `str::lines` yields it
/// (up to trimming, which drops the `\r` that `lines` removes).
pub open spec fn first_nonblank_line(s: Seq<char>) -> Option<Seq<char>>
    decreases s.len(),
{
    let n = line_len(s);
    if n <= s.len() && trim(s.take(n as int)).len() > 0 {
        Some(s.take(n as int))
    } else if n < s.len() {
        first_nonblank_line(s.skip(n as int + 1))
    } else {
        None
    }
}

pub open spec fn error_tag() -> Seq<char> {
    seq!['e', 'r', 'r', 'o', 'r', ':']
}

/// `s` with every leading `error:` removed (`str::trim_start_matches`).
pub open spec fn strip_error_tags(s: Seq<char>) -> Seq<char>
    decreases s.len(),
{
    if s.len() >= 6 && s.take(6) == error_tag() { strip_error_tags(s.skip(6)) } else { s }
}

/// The reason the report gives for a provider whose summary failed.
pub open spec fn failure_text(stderr: Seq<char>, timed_out: bool) -> Seq<char> {
    if timed_out {
        "timed out"@
    } else {
        match first_nonblank_line(stderr) {
            Some(line) => trim(strip_error_tags(trim(line))),
            None => "couldn't fetch"@,
        }
    }
}

proof fn lemma_line_len(s: Seq<char>)
    ensures
        line_len(s) <= s.len(),
        line_len(s) < s.len() ==> s[line_len(s) as int] == '\n',
        forall|k: int| 0 <= k < line_len(s) ==> s[k] != '\n',
    decreases s.len(),
{
    if s.len() > 0 && s[0] != '\n' {
        lemma_line_len(s.drop_first());
        assert forall|k: int| 0 <= k < line_len(s) implies s[k] != '\n' by {
            if k > 0 {
                assert(s[k] == s.drop_first()[k - 1]);
            }
        }
    }
}

/// `line_len` of a suffix found by scanning for the next `\n`.
proof fn lemma_line_len_scan(s: Seq<char>, j: int)
    requires
        0 <= j <= s.len(),
        j == s.len() || s[j] == '\n',
        forall|k: int| 0 <= k < j ==> s[k] != '\n',
    ensures
        line_len(s) == j,
    decreases j,
{
    if j > 0 {
        lemma_line_len_scan(s.drop_first(), j - 1);
    }
}

fn line_end(v: &Vec<char>, lo: usize) -> (j: usize)
    requires
        lo <= v@.len(),
    ensures
        lo <= j <= v@.len(),
        j == lo + line_len(v@.skip(lo as int)),
{
    let mut j = lo;
    while j < v.len() && v[j] != '\n'
        invariant
            lo <= j <= v@.len(),
            forall|k: int| lo <= k < j ==> v@[k] != '\n',
        decreases v@.len() - j,
    {
        j = j + 1;
    }
    proof {
        let t = v@.skip(lo as int);
        assert forall|k: int| 0 <= k < j - lo implies t[k] != '\n' by {
            assert(t[k] == v@[lo + k]);
        }
        lemma_line_len_scan(t, j - lo);
    }
    j
}

/// Why a provider's summary failed: "timed out", else the first non-blank
/// line of its stderr without any leading `error:`, else "couldn't fetch".
pub fn failure_reason(stderr: &str, timed_out: bool) -> (r: String)
    ensures
        r@ == failure_text(stderr@, timed_out),
{
    if timed_out {
        let mut s = String::new();
        push_str(&mut s, "timed out");
        return s;
    }
    let v = chars_of(stderr);
    let mut lo: usize = 0;
    assert(v@.skip(0) =~= v@);
    loop
        invariant
            !timed_out,
            v@ == stderr@,
            lo <= v@.len(),
            first_nonblank_line(stderr@) == first_nonblank_line(v@.skip(lo as int)),
        ensures
            first_nonblank_line(stderr@) is None,
        decreases v@.len() - lo,
    {
        let j = line_end(&v, lo);
        let ghost t = v@.skip(lo as int);
        proof {
            lemma_line_len(t);
            assert(t.take(j - lo) =~= v@.subrange(lo as int, j as int));
        }
        let (a, b) = trim_bounds(&v, lo, j);
        if a < b {
            proof {
                assert(v@.subrange(a as int, b as int).len() > 0);
                assert(first_nonblank_line(t) == Some(t.take(j - lo)));
            }
            let (c, d) = strip_tags(&v, a, b);
            let (e, f) = trim_bounds(&v, c, d);
            proof {
                let line = v@.subrange(lo as int, j as int);
                assert(first_nonblank_line(stderr@) == Some(line));
                assert(v@.subrange(a as int, b as int) == trim(line));
                assert(v@.subrange(c as int, d as int) == strip_error_tags(trim(line)));
            }
            return string_of(&v, e, f);
        }
        if j == v.len() {
            break;
        }
        proof {
            assert(t.skip(j - lo + 1) =~= v@.skip(j + 1));
        }
        lo = j + 1;
    }
    let mut s = String::new();
    push_str(&mut s, "couldn't fetch");
    s
}

/// The bounds of `strip_error_tags(v[lo..hi])` inside `v`.
fn strip_tags(v: &Vec<char>, lo: usize, hi: usize) -> (r: (usize, usize))
    requires
        lo <= hi <= v@.len(),
    ensures
        lo <= r.0 <= r.1 == hi,
        v@.subrange(r.0 as int, r.1 as int) == strip_error_tags(v@.subrange(lo as int, hi as int)),
{
    let mut a = lo;
    loop
        invariant
            lo <= a <= hi <= v@.len(),
            strip_error_tags(v@.subrange(lo as int, hi as int)) == strip_error_tags(v@.subrange(a as int, hi as int)),
        decreases hi - a,
    {
        if hi - a >= 6 && v[a] == 'e' && v[a + 1] == 'r' && v[a + 2] == 'r' && v[a + 3] == 'o'
            && v[a + 4] == 'r' && v[a + 5] == ':' {
            proof {
                let t = v@.subrange(a as int, hi as int);
                assert(t.take(6) =~= error_tag());
                assert(t.skip(6) =~= v@.subrange(a + 6, hi as int));
            }
            a = a + 6;
        } else {
            proof {
                let t = v@.subrange(a as int, hi as int);
                if t.len() >= 6 && t.take(6) == error_tag() {
                    assert(t[0] == t.take(6)[0]);
                    assert(t[1] == t.take(6)[1]);
                    assert(t[2] == t.take(6)[2]);
                    assert(t[3] == t.take(6)[3]);
                    assert(t[4] == t.take(6)[4]);
                    assert(t[5] == t.take(6)[5]);
                }
            }
            return (a, hi);
        }
    }
}

// ---------- AppleScript ----------

pub open spec fn escape_char(c: char) -> Seq<char> {
    if c == '\\' {
        seq!['\\', '\\']
    } else if c == '"' {
        seq!['\\', '"']
    } else {
        seq![c]
    }
}

/// `s` made safe inside an AppleScript string literal: each backslash
/// doubled, each double quote backslashed.
pub open spec fn applescript_escaped(s: Seq<char>) -> Seq<char>
    decreases s.len(),
{
    if s.len() == 0 {
        seq![]
    } else {
        applescript_escaped(s.drop_last()) + escape_char(s.last())
    }
}

pub fn applescript_escape(s: &str) -> (r: String)
    ensures
        r@ == applescript_escaped(s@),
{
    let v = chars_of(s);
    let mut out = String::new();
    let mut i: usize = 0;
    while i < v.len()
        invariant
            v@ == s@,
            i <= v@.len(),
            out@ == applescript_escaped(v@.take(i as int)),
        decreases v@.len() - i,
    {
        let c = v[i];
        if c == '\\' {
            push_char(&mut out, '\\');
            push_char(&mut out, '\\');
        } else if c == '"' {
            push_char(&mut out, '\\');
            push_char(&mut out, '"');
        } else {
            push_char(&mut out, c);
        }
        assert(v@.take(i + 1).drop_last() =~= v@.take(i as int));
        assert(out@ =~= applescript_escaped(v@.take(i + 1)));
        i = i + 1;
    }
    assert(v@.take(v@.len() as int) =~= v@);
    out
}

// ---------- notifications ----------

/// The title of the due-soon notification: `utiman: <n> bill(s) due soon`.
pub fn notification_title(count: usize) -> (r: String)
    ensures
        r@ == "utiman: "@ + decimal(count as nat) + " bill(s) due soon"@,
{
    let mut s = String::new();
    push_str(&mut s, "utiman: ");
    push_decimal(&mut s, count as u64);
    push_str(&mut s, " bill(s) due soon");
    s
}

/// The AppleScript that shows a notification with this body and title.
pub fn notification_script(body: &str, title: &str) -> (r: String)
    ensures
        r@ == "display notification \""@ + applescript_escaped(body@) + "\" with title \""@
            + applescript_escaped(title@) + "\""@,
{
    let mut s = String::new();
    push_str(&mut s, "display notification \"");
    let b = applescript_escape(body);
    push_str(&mut s, b.as_str());
    push_str(&mut s, "\" with title \"");
    let t = applescript_escape(title);
    push_str(&mut s, t.as_str());
    push_str(&mut s, "\"");
    s
}

} // verus!
