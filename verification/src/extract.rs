//! Pulling dashboard fields (balance, due date, series points) out of CLI
//! output.
//!
//! The utility/v1 profile comes first: a CLI that prints the canonical
//! `utility-summary/v1` document, or a `<record>-list/v1` envelope, needs no
//! field configuration; its schema tag is authoritative. Otherwise the
//! manifest decides: `json` fields are dot-paths into the JSON output
//! (numeric segments index arrays), `text` fields are labels matched without
//! regard to ASCII case against `Key: value` lines, and `table` series read
//! pipe-delimited tables. Each field list is tried in order.
//!
//! Amounts are handed back as the text the CLI printed; turning that text
//! into money is the caller's job.

use vstd::prelude::*;

use crate::install::{lemma_strings_view_push, strings_view};
use crate::manifest::{Query, Series};
use crate::text::{
    all_digits, chars_of, digits_value, first_index, first_pos, is_digit, lemma_digits_value_nonneg,
    lemma_digits_value_prefix, lex_le, str_eq, str_le, string_of, trim,
};
use crate::text::{is_whitespace, is_whitespace_exec, push_char, trim_bounds};

verus! {

/// A JSON document as the extractors read it.
pub enum Json {
    Null,
    Bool(bool),
    /// A number: the text JSON writes for it, and the bits of its value as
    /// a 64-bit float.
    Number { text: String, bits: u64 },
    Str(String),
    /// An array and its compact JSON text.
    Array { items: Vec<Json>, text: String },
    /// An object: its entries in the order the map holds them (keys
    /// distinct), and its compact JSON text.
    Object { entries: Vec<(String, Json)>, text: String },
}

/// The JSON document `serde_json` reads from `text`, in this model, if
/// `text` is JSON.
pub uninterp spec fn json_of_text(text: Seq<char>) -> Option<Json>;

#[verifier::external_type_specification]
#[verifier::external_body]
pub struct ExJsonValue(serde_json::Value);

/// A `serde_json::Value` in this model: numbers with their `Display` text
/// and `as_f64` bits, arrays and objects with their compact text, object
/// entries in the map's order.
#[verifier::external_body]
fn to_json(v: &serde_json::Value) -> Json {
    match v {
        serde_json::Value::Null => Json::Null,
        serde_json::Value::Bool(b) => Json::Bool(*b),
        serde_json::Value::Number(n) => Json::Number { text: n.to_string(), bits: n.as_f64().map_or(0, |f| f.to_bits()) },
        serde_json::Value::String(s) => Json::Str(s.clone()),
        serde_json::Value::Array(a) => Json::Array { items: a.iter().map(to_json).collect(), text: v.to_string() },
        serde_json::Value::Object(m) => {
            Json::Object { entries: m.iter().map(|(k, x)| (k.clone(), to_json(x))).collect(), text: v.to_string() }
        },
    }
}

/// `serde_json::from_str::<Value>`: the document `text` holds, if it is
/// JSON. What it reads is left to the name `json_of_text`.
#[verifier::external_body]
fn parse_json(text: &str) -> (r: Option<Json>)
    ensures
        r == json_of_text(text@),
{
    serde_json::from_str::<serde_json::Value>(text).ok().map(|v| to_json(&v))
}

// ---------- money text ----------

/// A character that stays in an amount's number: not `$`, `,` or
/// whitespace.
pub open spec fn money_char(c: char) -> bool {
    c != '$' && c != ',' && !is_whitespace(c)
}

/// The characters of `s` that stay in an amount's number.
pub open spec fn money_chars(s: Seq<char>) -> Seq<char> {
    s.filter(|c: char| money_char(c))
}

/// An amount as text, made ready to read as a number: trimmed; when it is
/// wrapped in parentheses (accounting negative) the parentheses go and the
/// amount is negative; then `$`, `,` and whitespace are dropped.
pub open spec fn money_parts(s: Seq<char>) -> (Seq<char>, bool) {
    let t = trim(s);
    if t.len() >= 2 && t[0] == '(' && t.last() == ')' {
        (money_chars(t.subrange(1, t.len() - 1)), true)
    } else {
        (money_chars(t), false)
    }
}

/// The number text of an amount like `$1,234.56` or `($5.00)`, and whether
/// it is negative; reading the text as a float is left to the caller.
pub fn money_text(s: &str) -> (r: (String, bool))
    ensures
        (r.0@, r.1) == money_parts(s@),
{
    let v = chars_of(s);
    let (a, b) = trim_bounds(&v, 0, v.len());
    assert(v@.subrange(0, v@.len() as int) =~= v@);
    let ghost t = v@.subrange(a as int, b as int);
    let negative = b - a >= 2 && v[a] == '(' && v[b - 1] == ')';
    let (lo, hi) = if negative { (a + 1, b - 1) } else { (a, b) };
    let ghost u = v@.subrange(lo as int, hi as int);
    proof {
        if negative {
            assert(u =~= t.subrange(1, t.len() - 1));
        } else {
            assert(u =~= t);
        }
    }
    let mut out = String::new();
    let mut i = lo;
    while i < hi
        invariant
            lo <= i <= hi <= v@.len(),
            u == v@.subrange(lo as int, hi as int),
            out@ == money_chars(u.take(i - lo)),
        decreases hi - i,
    {
        let c = v[i];
        assert(u.take(i - lo + 1).drop_last() =~= u.take(i - lo));
        assert(u.take(i - lo + 1).last() == c);
        assert(money_chars(u.take(i - lo + 1)) == if money_char(c) {
            money_chars(u.take(i - lo)).push(c)
        } else {
            money_chars(u.take(i - lo))
        }) by {
            reveal(Seq::filter);
        }
        if c != '$' && c != ',' && !is_whitespace_exec(c) {
            push_char(&mut out, c);
        }
        i = i + 1;
    }
    assert(u.take(hi - lo) =~= u);
    (out, negative)
}

// ---------- dot-paths ----------

/// `s` cut at every `.` (`str::split('.')`): empty pieces included, and at
/// least one piece.
pub open spec fn split_dots(s: Seq<char>) -> Seq<Seq<char>> {
    split_on(s, '.')
}

/// `s` cut at every `c` (`str::split`): empty pieces included, and at
/// least one piece.
pub open spec fn split_on(s: Seq<char>, c: char) -> Seq<Seq<char>>
    decreases s.len(),
{
    let p = first_pos(s, c);
    if p >= s.len() {
        seq![s]
    } else {
        seq![s.take(p as int)] + split_on(s.skip(p as int + 1), c)
    }
}

/// The value stored under `key`: the first entry with that key.
pub open spec fn entry_value(entries: Seq<(String, Json)>, key: Seq<char>) -> Option<Json> {
    if exists|i: int| 0 <= i < entries.len() && (#[trigger] entries[i]).0@ == key {
        let i = choose|i: int| 0 <= i < entries.len() && (#[trigger] entries[i]).0@ == key
            && forall|j: int| 0 <= j < i ==> (#[trigger] entries[j]).0@ != key;
        Some(entries[i].1)
    } else {
        None
    }
}

/// The array index a path segment names (`usize::from_str`: an optional
/// `+`, then decimal digits).
pub open spec fn index_of(seg: Seq<char>) -> Option<int> {
    let rest = if seg.len() > 1 && seg[0] == '+' { seg.drop_first() } else { seg };
    if rest.len() > 0 && all_digits(rest) { Some(digits_value(rest)) } else { None }
}

/// One step down a path: an object's member, or an array's element.
pub open spec fn child_of(v: Json, seg: Seq<char>) -> Option<Json> {
    match v {
        Json::Object { entries, .. } => entry_value(entries@, seg),
        Json::Array { items, .. } => match index_of(seg) {
            Some(n) => if n < items@.len() { Some(items@[n]) } else { None },
            None => None,
        },
        _ => None,
    }
}

/// The value at the end of the path `segs` below `v`.
pub open spec fn json_at(v: Json, segs: Seq<Seq<char>>) -> Option<Json>
    decreases segs.len(),
{
    if segs.len() == 0 {
        Some(v)
    } else {
        match child_of(v, segs[0]) {
            Some(c) => json_at(c, segs.drop_first()),
            None => None,
        }
    }
}

/// The position of the entry stored under `key`.
fn entry_index(entries: &Vec<(String, Json)>, key: &str) -> (r: Option<usize>)
    ensures
        match r {
            Some(i) => i < entries@.len() && entry_value(entries@, key@) == Some(entries@[i as int].1),
            None => entry_value(entries@, key@) is None,
        },
{
    let mut i: usize = 0;
    while i < entries.len()
        invariant
            i <= entries@.len(),
            forall|j: int| 0 <= j < i ==> (#[trigger] entries@[j]).0@ != key@,
        decreases entries@.len() - i,
    {
        if str_eq(entries[i].0.as_str(), key) {
            proof {
                let e = entries@;
                assert(e[i as int].0@ == key@);
                let k = choose|k: int| 0 <= k < e.len() && (#[trigger] e[k]).0@ == key@
                    && forall|j: int| 0 <= j < k ==> (#[trigger] e[j]).0@ != key@;
                if k < i {
                    assert(e[k].0@ != key@);
                }
                if k > i {
                    assert(e[i as int].0@ != key@);
                }
            }
            return Some(i);
        }
        i = i + 1;
    }
    None
}

/// The index `v[lo..hi]` names, when it is below `len`.
fn index_value(v: &Vec<char>, lo: usize, hi: usize, len: usize) -> (r: Option<usize>)
    requires
        lo <= hi <= v@.len(),
    ensures
        match index_of(v@.subrange(lo as int, hi as int)) {
            Some(n) => if n < len { r == Some(n as usize) } else { r is None },
            None => r is None,
        },
        r matches Some(m) ==> m < len && index_of(v@.subrange(lo as int, hi as int)) == Some(m as int),
{
    let ghost seg = v@.subrange(lo as int, hi as int);
    let a = if hi - lo > 1 && v[lo] == '+' { lo + 1 } else { lo };
    let ghost rest = v@.subrange(a as int, hi as int);
    proof {
        if seg.len() > 1 && seg[0] == '+' {
            assert(a == lo + 1);
            assert(rest =~= seg.drop_first());
        } else {
            assert(a == lo);
            assert(rest =~= seg);
        }
    }
    if a == hi {
        assert(index_of(seg) is None);
        return None;
    }
    assert(index_of(seg) == (if all_digits(rest) { Some(digits_value(rest)) } else { None::<int> }));
    let mut k = a;
    while k < hi
        invariant
            a <= k <= hi <= v@.len(),
            rest == v@.subrange(a as int, hi as int),
            seg == v@.subrange(lo as int, hi as int),
            index_of(seg) == (if all_digits(rest) { Some(digits_value(rest)) } else { None::<int> }),
            forall|j: int| 0 <= j < k - a ==> is_digit(#[trigger] rest[j]),
        decreases hi - k,
    {
        if !('0' <= v[k] && v[k] <= '9') {
            assert(!is_digit(rest[k - a]));
            return None;
        }
        k = k + 1;
    }
    assert(all_digits(rest));
    proof {
        lemma_digits_value_nonneg(rest);
    }
    if len == 0 {
        return None;
    }
    assert(rest.take(0) =~= Seq::<char>::empty());
    let mut val: usize = 0;
    let mut i = a;
    while i < hi
        invariant
            a <= i <= hi <= v@.len(),
            rest == v@.subrange(a as int, hi as int),
            seg == v@.subrange(lo as int, hi as int),
            index_of(seg) == Some(digits_value(rest)),
            all_digits(rest),
            val == digits_value(rest.take(i - a)),
            val < len,
        decreases hi - i,
    {
        let c = v[i];
        assert(rest[i - a] == c);
        assert(is_digit(c));
        let d = (c as u32 - '0' as u32) as u128;
        assert(rest.take(i - a + 1).drop_last() =~= rest.take(i - a));
        let next: u128 = (val as u128) * 10 + d;
        assert(digits_value(rest.take(i - a + 1)) == next);
        if next >= len as u128 {
            proof {
                lemma_digits_value_prefix(rest, i - a + 1);
            }
            return None;
        }
        val = next as usize;
        i = i + 1;
    }
    assert(rest.take(hi - a) =~= rest);
    Some(val)
}

/// The value an optional reference points to.
pub open spec fn deref(r: Option<&Json>) -> Option<Json> {
    match r {
        Some(x) => Some(*x),
        None => None,
    }
}

/// One step down the path: the member `v[lo..hi]` of an object, or the
/// element it indexes in an array.
fn child<'a>(cur: &'a Json, v: &Vec<char>, lo: usize, hi: usize) -> (r: Option<&'a Json>)
    requires
        lo <= hi <= v@.len(),
    ensures
        child_of(*cur, v@.subrange(lo as int, hi as int)) == deref(r),
{
    match cur {
        Json::Object { entries, .. } => {
            let seg = string_of(v, lo, hi);
            assert(child_of(*cur, v@.subrange(lo as int, hi as int)) == entry_value(entries@, seg@));
            match entry_index(entries, seg.as_str()) {
                Some(i) => Some(&entries[i].1),
                None => None,
            }
        },
        Json::Array { items, .. } => {
            match index_value(v, lo, hi, items.len()) {
                Some(n) => Some(&items[n]),
                None => None,
            }
        },
        _ => None,
    }
}

/// Follows the dot-path `v[lo..]` down from `cur`.
fn path_from<'a>(cur: &'a Json, v: &Vec<char>, lo: usize) -> (r: Option<&'a Json>)
    requires
        lo <= v@.len(),
    ensures
        match r {
            Some(x) => json_at(*cur, split_dots(v@.skip(lo as int))) == Some(*x),
            None => json_at(*cur, split_dots(v@.skip(lo as int))) is None,
        },
{
    let ghost goal = json_at(*cur, split_dots(v@.skip(lo as int)));
    let mut node = cur;
    let mut at = lo;
    loop
        invariant
            at <= v@.len(),
            lo <= v@.len(),
            goal == json_at(*cur, split_dots(v@.skip(lo as int))),
            goal == json_at(*node, split_dots(v@.skip(at as int))),
        decreases v@.len() - at,
    {
        let j = first_index(v, at, '.');
        let ghost t = v@.skip(at as int);
        proof {
            crate::text::lemma_first_pos(t, '.');
            assert(t.take(j - at) =~= v@.subrange(at as int, j as int));
        }
        let ghost segs = split_dots(t);
        proof {
            if j < v@.len() {
                let rest = split_dots(t.skip(j - at + 1));
                assert(segs == seq![t.take(j - at)] + rest);
                assert(segs[0] == t.take(j - at));
                assert(segs.drop_first() =~= rest);
                assert(t.skip(j - at + 1) =~= v@.skip(j + 1));
                assert(segs.drop_first() == split_dots(v@.skip(j + 1)));
            } else {
                assert(t =~= v@.subrange(at as int, j as int));
                assert(segs == seq![t]);
                assert(segs[0] == t);
                assert(segs.drop_first() =~= Seq::<Seq<char>>::empty());
            }
            assert(segs[0] == v@.subrange(at as int, j as int));
            assert(segs.len() > 0);
        }
        match child(node, v, at, j) {
            None => {
                assert(json_at(*node, segs) is None);
                return None;
            },
            Some(c) => {
                assert(json_at(*node, segs) == json_at(*c, segs.drop_first()));
                if j == v.len() {
                    assert(json_at(*c, Seq::<Seq<char>>::empty()) == Some(*c));
                    return Some(c);
                }
                node = c;
                at = j + 1;
            },
        }
    }
}

/// The value at the dot-path `path` (`a.b.0.c`) below `root`.
pub fn json_path<'a>(root: &'a Json, path: &str) -> (r: Option<&'a Json>)
    ensures
        match r {
            Some(x) => json_at(*root, split_dots(path@)) == Some(*x),
            None => json_at(*root, split_dots(path@)) is None,
        },
{
    let v = chars_of(path);
    assert(v@.skip(0) =~= v@);
    path_from(root, &v, 0)
}

// ---------- scalars ----------

/// The `amount` of a profile `Money` object (`{"amount": "...", "currency": ...}`).
pub open spec fn money_amount(v: Json) -> Option<Seq<char>> {
    match v {
        Json::Object { entries, .. } => if entries@.len() == 2 && entry_value(entries@, "currency"@) is Some {
            match entry_value(entries@, "amount"@) {
                Some(Json::Str(a)) => Some(a@),
                _ => None,
            }
        } else {
            None
        },
        _ => None,
    }
}

/// A field's value as text: a `Money` object's amount, a string's
/// contents, anything else as JSON writes it.
pub open spec fn scalar_text(v: Json) -> Seq<char> {
    match money_amount(v) {
        Some(a) => a,
        None => match v {
            Json::Null => "null"@,
            Json::Bool(b) => if b { "true"@ } else { "false"@ },
            Json::Number { text, .. } => text@,
            Json::Str(s) => s@,
            Json::Array { text, .. } => text@,
            Json::Object { text, .. } => text@,
        },
    }
}

fn lit(s: &str) -> (r: String)
    ensures
        r@ == s@,
{
    String::from_str(s)
}

/// A field's value as text (see `scalar_text`).
pub fn json_scalar(v: &Json) -> (r: String)
    ensures
        r@ == scalar_text(*v),
{
    if let Json::Object { entries, .. } = v {
        if entries.len() == 2 {
            if let Some(_) = entry_index(entries, "currency") {
                if let Some(i) = entry_index(entries, "amount") {
                    if let Json::Str(a) = &entries[i].1 {
                        return a.clone();
                    }
                }
            }
        }
    }
    match v {
        Json::Null => lit("null"),
        Json::Bool(b) => if *b { lit("true") } else { lit("false") },
        Json::Number { text, .. } => text.clone(),
        Json::Str(s) => s.clone(),
        Json::Array { text, .. } => text.clone(),
        Json::Object { text, .. } => text.clone(),
    }
}

/// Whether a sign-in status field says yes: `true`, a non-empty string, a
/// number other than (positive or negative) zero, or any array or object.
pub open spec fn truthy_value(v: Json) -> bool {
    match v {
        Json::Null => false,
        Json::Bool(b) => b,
        Json::Number { bits, .. } => bits & 0x7FFF_FFFF_FFFF_FFFF != 0,
        Json::Str(s) => s@.len() > 0,
        _ => true,
    }
}

pub fn truthy(v: &Json) -> (r: bool)
    ensures
        r == truthy_value(*v),
{
    match v {
        Json::Null => false,
        Json::Bool(b) => *b,
        Json::Number { bits, .. } => *bits & 0x7FFF_FFFF_FFFF_FFFF != 0,
        Json::Str(s) => !s.as_str().is_empty(),
        _ => true,
    }
}

// ---------- field lists ----------

/// The first of `paths` that leads to a value other than `null`.
pub open spec fn first_present(root: Json, paths: Seq<String>) -> Option<Json>
    decreases paths.len(),
{
    if paths.len() == 0 {
        None
    } else {
        match json_at(root, split_dots(paths[0]@)) {
            Some(x) => if x is Null { first_present(root, paths.drop_first()) } else { Some(x) },
            None => first_present(root, paths.drop_first()),
        }
    }
}

/// A path leads nowhere or to `null`.
pub open spec fn null_or_missing(v: Option<Json>) -> bool {
    match v {
        Some(x) => x is Null,
        None => true,
    }
}

/// The field list's answer is never `null`: it is the value of the first
/// path that leads to something other than `null`, every earlier path
/// leading nowhere or to `null`; when there is no answer, every path leads
/// nowhere or to `null`.
pub proof fn first_present_law(root: Json, paths: Seq<String>)
    ensures
        match first_present(root, paths) {
            Some(v) => !(v is Null) && exists|i: int| 0 <= i < paths.len()
                && #[trigger] json_at(root, split_dots(paths[i]@)) == Some(v)
                && forall|j: int| 0 <= j < i ==> null_or_missing(#[trigger] json_at(root, split_dots(paths[j]@))),
            None => forall|j: int| 0 <= j < paths.len() ==> null_or_missing(#[trigger] json_at(root, split_dots(paths[j]@))),
        },
        forall|i: int| 0 <= i < paths.len()
            && !null_or_missing(#[trigger] json_at(root, split_dots(paths[i]@)))
            && (forall|j: int| 0 <= j < i ==> null_or_missing(#[trigger] json_at(root, split_dots(paths[j]@))))
            ==> first_present(root, paths) == json_at(root, split_dots(paths[i]@)),
    decreases paths.len(),
{
    if paths.len() > 0 {
        let rest = paths.drop_first();
        first_present_law(root, rest);
        assert forall|j: int| 0 <= j < rest.len() implies rest[j] == paths[j + 1] by {}
        match first_present(root, paths) {
            Some(v) => {
                if !(json_at(root, split_dots(paths[0]@)) == Some(v)) {
                    let i = choose|i: int| 0 <= i < rest.len()
                        && #[trigger] json_at(root, split_dots(rest[i]@)) == Some(v)
                        && forall|j: int| 0 <= j < i ==> null_or_missing(#[trigger] json_at(root, split_dots(rest[j]@)));
                    assert(json_at(root, split_dots(paths[i + 1]@)) == Some(v));
                    assert forall|j: int| 0 <= j < i + 1 implies null_or_missing(#[trigger] json_at(root, split_dots(paths[j]@))) by {
                        if j > 0 {
                            assert(paths[j] == rest[j - 1]);
                        }
                    }
                }
            },
            None => {
                assert forall|j: int| 0 <= j < paths.len() implies null_or_missing(#[trigger] json_at(root, split_dots(paths[j]@))) by {
                    if j > 0 {
                        assert(paths[j] == rest[j - 1]);
                    }
                }
            },
        }
        assert forall|i: int| 0 <= i < paths.len()
            && !null_or_missing(#[trigger] json_at(root, split_dots(paths[i]@)))
            && (forall|j: int| 0 <= j < i ==> null_or_missing(#[trigger] json_at(root, split_dots(paths[j]@))))
            implies first_present(root, paths) == json_at(root, split_dots(paths[i]@)) by {
            if i > 0 {
                assert(paths[i] == rest[i - 1]);
                assert forall|j: int| 0 <= j < i - 1 implies null_or_missing(#[trigger] json_at(root, split_dots(rest[j]@))) by {
                    assert(rest[j] == paths[j + 1]);
                }
                assert(null_or_missing(json_at(root, split_dots(paths[0]@))));
            }
        }
    }
}

/// The value of the first of `paths` that leads to something other than
/// `null` below `root`.
pub fn first_json_field<'a>(root: &'a Json, paths: &Vec<String>) -> (r: Option<&'a Json>)
    ensures
        first_present(*root, paths@) == deref(r),
{
    let mut i: usize = 0;
    assert(paths@.skip(0) =~= paths@);
    while i < paths.len()
        invariant
            i <= paths@.len(),
            first_present(*root, paths@) == first_present(*root, paths@.skip(i as int)),
        decreases paths@.len() - i,
    {
        assert(paths@.skip(i as int)[0] == paths@[i as int]);
        assert(paths@.skip(i as int).drop_first() =~= paths@.skip(i + 1));
        match json_path(root, paths[i].as_str()) {
            Some(x) => {
                if let Json::Null = x {
                } else {
                    return Some(x);
                }
            },
            None => {},
        }
        i = i + 1;
    }
    None
}

/// The code of `c` with ASCII capitals made small.
pub open spec fn ascii_lower(c: char) -> u32 {
    if 'A' <= c && c <= 'Z' { ((c as u32) + 32) as u32 } else { c as u32 }
}

/// `str::eq_ignore_ascii_case`.
pub open spec fn same_ignoring_case(a: Seq<char>, b: Seq<char>) -> bool {
    a.len() == b.len() && forall|i: int| 0 <= i < a.len() ==> ascii_lower(#[trigger] a[i]) == ascii_lower(b[i])
}

fn ascii_lower_exec(c: char) -> (r: u32)
    ensures
        r == ascii_lower(c),
{
    if 'A' <= c && c <= 'Z' {
        (c as u32) + 32
    } else {
        c as u32
    }
}

/// Whether `v[lo..hi]` and `w` are equal ignoring ASCII case.
fn range_same_ignoring_case(v: &Vec<char>, lo: usize, hi: usize, w: &Vec<char>) -> (r: bool)
    requires
        lo <= hi <= v@.len(),
    ensures
        r == same_ignoring_case(v@.subrange(lo as int, hi as int), w@),
{
    if hi - lo != w.len() {
        return false;
    }
    let mut k: usize = 0;
    while k < w.len()
        invariant
            hi - lo == w@.len(),
            lo <= hi <= v@.len(),
            k <= w@.len(),
            forall|i: int| 0 <= i < k ==> ascii_lower(#[trigger] v@.subrange(lo as int, hi as int)[i]) == ascii_lower(w@[i]),
        decreases w@.len() - k,
    {
        if ascii_lower_exec(v[lo + k]) != ascii_lower_exec(w[k]) {
            assert(v@.subrange(lo as int, hi as int)[k as int] == v@[lo + k]);
            return false;
        }
        assert(v@.subrange(lo as int, hi as int)[k as int] == v@[lo + k]);
        k = k + 1;
    }
    true
}

/// The characters of an optional string.
pub open spec fn opt_chars(o: Option<String>) -> Option<Seq<char>> {
    match o {
        Some(s) => Some(s@),
        None => None,
    }
}

/// The value of `label: value` on this line: the label is what precedes the
/// first `:`, compared trimmed and ignoring ASCII case; a blank value does
/// not count.
pub open spec fn line_value(line: Seq<char>, label: Seq<char>) -> Option<Seq<char>> {
    let p = first_pos(line, ':');
    if p < line.len() && same_ignoring_case(trim(line.take(p as int)), label)
        && trim(line.skip(p as int + 1)).len() > 0 {
        Some(trim(line.skip(p as int + 1)))
    } else {
        None
    }
}

/// The value on the first line of `s` labelled `label`.
pub open spec fn labelled_value(s: Seq<char>, label: Seq<char>) -> Option<Seq<char>>
    decreases s.len(),
{
    let n = first_pos(s, '\n');
    match line_value(s.take(n as int), label) {
        Some(v) => Some(v),
        None => if n < s.len() { labelled_value(s.skip(n as int + 1), label) } else { None },
    }
}

/// The value of the first of `labels` that some line carries.
pub open spec fn first_labelled(s: Seq<char>, labels: Seq<String>) -> Option<Seq<char>>
    decreases labels.len(),
{
    if labels.len() == 0 {
        None
    } else {
        match labelled_value(s, labels[0]@) {
            Some(v) => Some(v),
            None => first_labelled(s, labels.drop_first()),
        }
    }
}

/// The position of the first `c` in `v[lo..hi]`, or `hi`.
fn first_in(v: &Vec<char>, lo: usize, hi: usize, c: char) -> (k: usize)
    requires
        lo <= hi <= v@.len(),
    ensures
        lo <= k <= hi,
        k == lo + first_pos(v@.subrange(lo as int, hi as int), c),
{
    let mut k = lo;
    while k < hi && v[k] != c
        invariant
            lo <= k <= hi <= v@.len(),
            forall|i: int| lo <= i < k ==> v@[i] != c,
        decreases hi - k,
    {
        k = k + 1;
    }
    proof {
        let t = v@.subrange(lo as int, hi as int);
        assert forall|i: int| 0 <= i < k - lo implies t[i] != c by {
            assert(t[i] == v@[lo + i]);
        }
        crate::text::lemma_first_pos_scan(t, c, k - lo);
    }
    k
}

/// The value on the first line of `v` labelled `label`.
fn labelled_in(v: &Vec<char>, label: &Vec<char>) -> (r: Option<String>)
    ensures
        opt_chars(r) == labelled_value(v@, label@),
{
    let mut lo: usize = 0;
    assert(v@.skip(0) =~= v@);
    loop
        invariant
            lo <= v@.len(),
            labelled_value(v@, label@) == labelled_value(v@.skip(lo as int), label@),
        decreases v@.len() - lo,
    {
        let j = first_index(v, lo, '\n');
        let ghost t = v@.skip(lo as int);
        let ghost line = v@.subrange(lo as int, j as int);
        proof {
            crate::text::lemma_first_pos(t, '\n');
            assert(t.take(j - lo) =~= line);
        }
        let c = first_in(v, lo, j, ':');
        let mut found: Option<String> = None;
        if c < j {
            let (a, b) = trim_range(v, lo, c);
            if range_same_ignoring_case(v, a, b, label) {
                let (x, y) = trim_range(v, c + 1, j);
                if x < y {
                    found = Some(string_of(v, x, y));
                }
            }
        }
        proof {
            assert(line.take(c - lo) =~= v@.subrange(lo as int, c as int));
            if c < j {
                assert(line.skip(c - lo + 1) =~= v@.subrange(c + 1, j as int));
            }
            assert(opt_chars(found) == line_value(line, label@));
        }
        if let Some(x) = found {
            return Some(x);
        }
        if j == v.len() {
            return None;
        }
        proof {
            assert(t.skip(j - lo + 1) =~= v@.skip(j + 1));
        }
        lo = j + 1;
    }
}

fn trim_range(v: &Vec<char>, lo: usize, hi: usize) -> (r: (usize, usize))
    requires
        lo <= hi <= v@.len(),
    ensures
        lo <= r.0 <= r.1 <= hi,
        v@.subrange(r.0 as int, r.1 as int) == trim(v@.subrange(lo as int, hi as int)),
{
    crate::text::trim_bounds(v, lo, hi)
}

/// The value of the first `Label: value` line for the first of `labels`
/// that has one (labels compared ignoring ASCII case).
pub fn first_text_field(stdout: &str, labels: &Vec<String>) -> (r: Option<String>)
    ensures
        opt_chars(r) == first_labelled(stdout@, labels@),
{
    let v = chars_of(stdout);
    let mut i: usize = 0;
    assert(labels@.skip(0) =~= labels@);
    while i < labels.len()
        invariant
            v@ == stdout@,
            i <= labels@.len(),
            first_labelled(stdout@, labels@) == first_labelled(stdout@, labels@.skip(i as int)),
        decreases labels@.len() - i,
    {
        assert(labels@.skip(i as int)[0] == labels@[i as int]);
        assert(labels@.skip(i as int).drop_first() =~= labels@.skip(i + 1));
        let label = chars_of(labels[i].as_str());
        match labelled_in(&v, &label) {
            Some(x) => return Some(x),
            None => {},
        }
        i = i + 1;
    }
    None
}

// ---------- pipe tables ----------

/// The lines of `s` that contain a `|`, in order.
pub open spec fn bar_lines(s: Seq<char>) -> Seq<Seq<char>>
    decreases s.len(),
{
    let n = first_pos(s, '\n');
    let line = s.take(n as int);
    let rest = if n < s.len() { bar_lines(s.skip(n as int + 1)) } else { Seq::empty() };
    if first_pos(line, '|') < line.len() { seq![line] + rest } else { rest }
}

/// The trimmed cells of a table line (`line.split('|').map(str::trim)`).
pub open spec fn cells(line: Seq<char>) -> Seq<Seq<char>>
    decreases line.len(),
{
    let p = first_pos(line, '|');
    if p >= line.len() {
        seq![trim(line)]
    } else {
        seq![trim(line.take(p as int))] + cells(line.skip(p as int + 1))
    }
}

/// Headers paired with a row's cells, as far as both go.
pub open spec fn header_pairs(headers: Seq<Seq<char>>, row: Seq<Seq<char>>) -> Seq<(Seq<char>, Seq<char>)> {
    let n = if headers.len() <= row.len() { headers.len() } else { row.len() };
    Seq::new(n, |i: int| (headers[i], row[i]))
}

/// The rows of a pipe table as header/cell pairs: the first line with a `|`
/// is the header, every later one a row.
pub open spec fn table_pairs(s: Seq<char>) -> Seq<Seq<(Seq<char>, Seq<char>)>> {
    let ls = bar_lines(s);
    if ls.len() == 0 {
        Seq::empty()
    } else {
        ls.drop_first().map_values(|line: Seq<char>| header_pairs(cells(ls[0]), cells(line)))
    }
}

/// The cell a row holds under `key`: the last pair with that header.
pub open spec fn last_value(pairs: Seq<(Seq<char>, Seq<char>)>, key: Seq<char>) -> Option<Seq<char>>
    decreases pairs.len(),
{
    if pairs.len() == 0 {
        None
    } else if pairs.last().0 == key {
        Some(pairs.last().1)
    } else {
        last_value(pairs.drop_last(), key)
    }
}

/// The keys of `rec` strictly ascend (the order a `BTreeMap` keeps).
pub open spec fn keys_ascending(rec: Seq<(String, Json)>) -> bool {
    forall|i: int, j: int| 0 <= i < j < rec.len() ==>
        lex_le((#[trigger] rec[i]).0@, (#[trigger] rec[j]).0@) && rec[i].0@ != rec[j].0@
}

/// Every value of `rec` is a string.
pub open spec fn all_text(rec: Seq<(String, Json)>) -> bool {
    forall|i: int| 0 <= i < rec.len() ==> (#[trigger] rec[i]).1 is Str
}

/// The string stored under `key`.
pub open spec fn text_at(rec: Seq<(String, Json)>, key: Seq<char>) -> Option<Seq<char>> {
    match entry_value(rec, key) {
        Some(Json::Str(s)) => Some(s@),
        _ => None,
    }
}

/// `rec` is the map a row's pairs make: keys ascending, each header holding
/// the last cell paired with it.
pub open spec fn record_of(rec: Seq<(String, Json)>, pairs: Seq<(Seq<char>, Seq<char>)>) -> bool {
    &&& keys_ascending(rec)
    &&& all_text(rec)
    &&& forall|k: Seq<char>| #[trigger] text_at(rec, k) == last_value(pairs, k)
}

proof fn lemma_entry_value_at(rec: Seq<(String, Json)>, key: Seq<char>, i: int)
    requires
        0 <= i < rec.len(),
        rec[i].0@ == key,
        forall|j: int| 0 <= j < i ==> (#[trigger] rec[j]).0@ != key,
    ensures
        entry_value(rec, key) == Some(rec[i].1),
{
    assert(rec[i].0@ == key);
    let c = choose|c: int| 0 <= c < rec.len() && (#[trigger] rec[c]).0@ == key
        && forall|j: int| 0 <= j < c ==> (#[trigger] rec[j]).0@ != key;
    if c < i {
        assert(rec[c].0@ != key);
    }
    if c > i {
        assert(rec[i].0@ != key);
    }
}

proof fn lemma_text_at_ascending(rec: Seq<(String, Json)>, key: Seq<char>)
    requires
        keys_ascending(rec),
    ensures
        (exists|i: int| 0 <= i < rec.len() && (#[trigger] rec[i]).0@ == key) ==> {
            let i = choose|i: int| 0 <= i < rec.len() && (#[trigger] rec[i]).0@ == key;
            entry_value(rec, key) == Some(rec[i].1)
        },
        (forall|i: int| 0 <= i < rec.len() ==> (#[trigger] rec[i]).0@ != key) ==> entry_value(rec, key) is None,
{
    if exists|i: int| 0 <= i < rec.len() && (#[trigger] rec[i]).0@ == key {
        let i = choose|i: int| 0 <= i < rec.len() && (#[trigger] rec[i]).0@ == key;
        assert forall|j: int| 0 <= j < i implies (#[trigger] rec[j]).0@ != key by {
            assert(rec[j].0@ != rec[i].0@);
        }
        lemma_entry_value_at(rec, key, i);
    }
}

/// The string a `Json::Str` holds.
pub open spec fn str_text(j: Json) -> Seq<char> {
    match j {
        Json::Str(s) => s@,
        _ => Seq::empty(),
    }
}

proof fn lemma_update(old_rec: Seq<(String, Json)>, p: int, x: (String, Json))
    requires
        keys_ascending(old_rec),
        all_text(old_rec),
        0 <= p < old_rec.len(),
        old_rec[p].0@ == x.0@,
        x.1 is Str,
    ensures
        keys_ascending(old_rec.update(p, x)),
        all_text(old_rec.update(p, x)),
        forall|k: Seq<char>| #[trigger] text_at(old_rec.update(p, x), k)
            == if k == x.0@ { Some(str_text(x.1)) } else { text_at(old_rec, k) },
{
    let n = old_rec.update(p, x);
    assert(forall|i: int| 0 <= i < n.len() ==> (#[trigger] n[i]).0@ == old_rec[i].0@);
    assert(keys_ascending(n));
    assert(all_text(n));
    assert forall|k: Seq<char>| #[trigger] text_at(n, k) == if k == x.0@ { Some(str_text(x.1)) } else { text_at(old_rec, k) } by {
        lemma_text_at_ascending(n, k);
        lemma_text_at_ascending(old_rec, k);
        if k == x.0@ {
            assert(n[p].0@ == k);
            let i = choose|i: int| 0 <= i < n.len() && (#[trigger] n[i]).0@ == k;
            if i != p {
                if i < p { assert(n[i].0@ != n[p].0@); } else { assert(n[p].0@ != n[i].0@); }
            }
        } else if exists|i: int| 0 <= i < n.len() && (#[trigger] n[i]).0@ == k {
            let i = choose|i: int| 0 <= i < n.len() && (#[trigger] n[i]).0@ == k;
            assert(old_rec[i].0@ == k);
            let i2 = choose|i: int| 0 <= i < old_rec.len() && (#[trigger] old_rec[i]).0@ == k;
            if i2 != i {
                if i2 < i { assert(old_rec[i2].0@ != old_rec[i].0@); } else { assert(old_rec[i].0@ != old_rec[i2].0@); }
            }
        } else {
            assert forall|i: int| 0 <= i < old_rec.len() implies (#[trigger] old_rec[i]).0@ != k by {
                assert(n[i].0@ == old_rec[i].0@);
            }
        }
    }
}

proof fn lemma_insert_ascending(old_rec: Seq<(String, Json)>, p: int, x: (String, Json))
    requires
        keys_ascending(old_rec),
        0 <= p <= old_rec.len(),
        forall|i: int| 0 <= i < p ==> lex_le((#[trigger] old_rec[i]).0@, x.0@) && old_rec[i].0@ != x.0@,
        forall|j: int| p <= j < old_rec.len() ==> lex_le(x.0@, (#[trigger] old_rec[j]).0@) && old_rec[j].0@ != x.0@,
    ensures
        keys_ascending(old_rec.insert(p, x)),
{
    let n = old_rec.insert(p, x);
    let kv = x.0@;
    assert forall|i: int, j: int| 0 <= i < j < n.len() implies
        lex_le((#[trigger] n[i]).0@, (#[trigger] n[j]).0@) && n[i].0@ != n[j].0@ by {
        if j < p {
            assert(n[i] == old_rec[i] && n[j] == old_rec[j]);
        } else if j == p {
            assert(n[i] == old_rec[i]);
        } else if i < p {
            assert(n[i] == old_rec[i] && n[j] == old_rec[j - 1]);
            crate::text::lemma_lex_trans(old_rec[i].0@, kv, old_rec[j - 1].0@);
            if old_rec[i].0@ == old_rec[j - 1].0@ {
                crate::text::lemma_lex_antisym(old_rec[i].0@, kv);
            }
        } else if i == p {
            assert(n[j] == old_rec[j - 1]);
        } else {
            assert(n[i] == old_rec[i - 1] && n[j] == old_rec[j - 1]);
        }
    }
}

proof fn lemma_insert(old_rec: Seq<(String, Json)>, p: int, x: (String, Json))
    requires
        keys_ascending(old_rec),
        all_text(old_rec),
        0 <= p <= old_rec.len(),
        forall|i: int| 0 <= i < p ==> lex_le((#[trigger] old_rec[i]).0@, x.0@) && old_rec[i].0@ != x.0@,
        forall|j: int| p <= j < old_rec.len() ==> lex_le(x.0@, (#[trigger] old_rec[j]).0@) && old_rec[j].0@ != x.0@,
        x.1 is Str,
    ensures
        keys_ascending(old_rec.insert(p, x)),
        all_text(old_rec.insert(p, x)),
        forall|k: Seq<char>| #[trigger] text_at(old_rec.insert(p, x), k)
            == if k == x.0@ { Some(str_text(x.1)) } else { text_at(old_rec, k) },
{
    let n = old_rec.insert(p, x);
    let kv = x.0@;
    lemma_insert_ascending(old_rec, p, x);
    assert forall|i: int| 0 <= i < n.len() implies (#[trigger] n[i]).1 is Str by {
        if i < p {
            assert(n[i] == old_rec[i]);
        } else if i > p {
            assert(n[i] == old_rec[i - 1]);
        }
    }
    assert forall|k: Seq<char>| #[trigger] text_at(n, k) == if k == kv { Some(str_text(x.1)) } else { text_at(old_rec, k) } by {
        lemma_text_at_ascending(n, k);
        lemma_text_at_ascending(old_rec, k);
        if k == kv {
            assert(n[p].0@ == k);
            let i = choose|i: int| 0 <= i < n.len() && (#[trigger] n[i]).0@ == k;
            if i != p {
                if i < p { assert(n[i].0@ != n[p].0@); } else { assert(n[p].0@ != n[i].0@); }
            }
        } else if exists|i: int| 0 <= i < old_rec.len() && (#[trigger] old_rec[i]).0@ == k {
            let i = choose|i: int| 0 <= i < old_rec.len() && (#[trigger] old_rec[i]).0@ == k;
            let i2: int = if i < p { i } else { i + 1 };
            assert(n[i2] == old_rec[i]);
            let i3 = choose|i: int| 0 <= i < n.len() && (#[trigger] n[i]).0@ == k;
            if i3 != i2 {
                if i3 < i2 { assert(n[i3].0@ != n[i2].0@); } else { assert(n[i2].0@ != n[i3].0@); }
            }
        } else {
            assert forall|i: int| 0 <= i < n.len() implies (#[trigger] n[i]).0@ != k by {
                if i < p {
                    assert(n[i] == old_rec[i]);
                } else if i > p {
                    assert(n[i] == old_rec[i - 1]);
                }
            }
        }
    }
}

/// Stores `value` under `key` in a record whose keys ascend, keeping them
/// ascending (a `BTreeMap` insert).
fn upsert(rec: &mut Vec<(String, Json)>, key: String, value: String)
    requires
        keys_ascending(old(rec)@),
        all_text(old(rec)@),
    ensures
        keys_ascending(final(rec)@),
        all_text(final(rec)@),
        forall|k: Seq<char>| #[trigger] text_at(final(rec)@, k)
            == if k == key@ { Some(value@) } else { text_at(old(rec)@, k) },
{
    let ghost old_rec = rec@;
    let mut p: usize = 0;
    while p < rec.len() && !str_le(key.as_str(), rec[p].0.as_str())
        invariant
            rec@ == old_rec,
            p <= rec@.len(),
            forall|i: int| 0 <= i < p ==> !lex_le(key@, (#[trigger] rec@[i]).0@),
        decreases rec@.len() - p,
    {
        p = p + 1;
    }
    proof {
        crate::text::lemma_lex_total(key@, key@);
    }
    let ghost kv = key@;
    let ghost vv = value@;
    if p < rec.len() && str_eq(rec[p].0.as_str(), key.as_str()) {
        let x = (key, Json::Str(value));
        proof {
            lemma_update(old_rec, p as int, x);
        }
        rec[p] = x;
    } else {
        let x = (key, Json::Str(value));
        proof {
            assert forall|i: int| 0 <= i < p implies lex_le((#[trigger] old_rec[i]).0@, kv) && old_rec[i].0@ != kv by {
                crate::text::lemma_lex_total(kv, old_rec[i].0@);
            }
            assert forall|j: int| p <= j < old_rec.len() implies lex_le(kv, (#[trigger] old_rec[j]).0@) && old_rec[j].0@ != kv by {
                crate::text::lemma_lex_total(kv, old_rec[p as int].0@);
                if j > p {
                    assert(lex_le(old_rec[p as int].0@, old_rec[j].0@) && old_rec[p as int].0@ != old_rec[j].0@);
                    crate::text::lemma_lex_trans(kv, old_rec[p as int].0@, old_rec[j].0@);
                    if old_rec[j].0@ == kv {
                        crate::text::lemma_lex_antisym(old_rec[p as int].0@, old_rec[j].0@);
                    }
                }
            }
            lemma_insert(old_rec, p as int, x);
        }
        rec.insert(p, x);
    }
}

/// The text of each range of `v`.
pub open spec fn range_texts(v: Seq<char>, rs: Seq<(usize, usize)>) -> Seq<Seq<char>> {
    Seq::new(rs.len(), |i: int| v.subrange(rs[i].0 as int, rs[i].1 as int))
}

pub open spec fn ranges_in(v: Seq<char>, rs: Seq<(usize, usize)>) -> bool {
    forall|i: int| 0 <= i < rs.len() ==> (#[trigger] rs[i]).0 <= rs[i].1 <= v.len()
}

/// Where the lines of `v` that contain a `|` lie.
fn bar_ranges(v: &Vec<char>) -> (r: Vec<(usize, usize)>)
    ensures
        ranges_in(v@, r@),
        range_texts(v@, r@) == bar_lines(v@),
{
    let mut out: Vec<(usize, usize)> = Vec::new();
    let mut lo: usize = 0;
    assert(v@.skip(0) =~= v@);
    loop
        invariant
            lo <= v@.len(),
            ranges_in(v@, out@),
            bar_lines(v@) == range_texts(v@, out@) + bar_lines(v@.skip(lo as int)),
        decreases v@.len() - lo,
    {
        let j = first_index(v, lo, '\n');
        let ghost t = v@.skip(lo as int);
        let ghost line = v@.subrange(lo as int, j as int);
        proof {
            crate::text::lemma_first_pos(t, '\n');
            assert(t.take(j - lo) =~= line);
        }
        let bar = first_in(v, lo, j, '|');
        let ghost before = range_texts(v@, out@);
        if bar < j {
            out.push((lo, j));
            assert(range_texts(v@, out@) =~= before.push(line));
        }
        if j == v.len() {
            proof {
                assert(bar_lines(t) == if bar < j { seq![line] } else { Seq::<Seq<char>>::empty() });
                if bar < j {
                    assert(before + seq![line] =~= before.push(line));
                } else {
                    assert(before + Seq::<Seq<char>>::empty() =~= before);
                }
            }
            return out;
        }
        proof {
            assert(t.skip(j - lo + 1) =~= v@.skip(j + 1));
            let rest = bar_lines(v@.skip(j + 1));
            if bar < j {
                assert(bar_lines(t) == seq![line] + rest);
                assert(before + (seq![line] + rest) =~= before.push(line) + rest);
            } else {
                assert(bar_lines(t) == rest);
            }
        }
        lo = j + 1;
    }
}

/// The trimmed cells of the table line `v[lo..hi]`.
fn cells_of(v: &Vec<char>, lo: usize, hi: usize) -> (r: Vec<String>)
    requires
        lo <= hi <= v@.len(),
    ensures
        strings_view(r@) == cells(v@.subrange(lo as int, hi as int)),
{
    let mut out: Vec<String> = Vec::new();
    let mut a = lo;
    assert(strings_view(out@) =~= Seq::<Seq<char>>::empty());
    loop
        invariant
            lo <= a <= hi <= v@.len(),
            cells(v@.subrange(lo as int, hi as int)) == strings_view(out@) + cells(v@.subrange(a as int, hi as int)),
        decreases hi - a,
    {
        let k = first_in(v, a, hi, '|');
        let ghost t = v@.subrange(a as int, hi as int);
        proof {
            crate::text::lemma_first_pos(t, '|');
            assert(t.take(k - a) =~= v@.subrange(a as int, k as int));
        }
        let (x, y) = trim_range(v, a, k);
        let cell = string_of(v, x, y);
        let ghost before = strings_view(out@);
        proof {
            lemma_strings_view_push(out@, cell);
        }
        out.push(cell);
        if k == hi {
            proof {
                assert(t =~= v@.subrange(a as int, k as int));
                assert(cells(t) == seq![trim(t)]);
                assert(before + seq![trim(t)] =~= before.push(trim(t)));
            }
            return out;
        }
        proof {
            assert(t.skip(k - a + 1) =~= v@.subrange(k + 1, hi as int));
            let rest = cells(v@.subrange(k + 1, hi as int));
            assert(cells(t) == seq![trim(t.take(k - a))] + rest);
            assert(before + (seq![trim(t.take(k - a))] + rest) =~= before.push(trim(t.take(k - a))) + rest);
        }
        a = k + 1;
    }
}

/// The record a row makes: each header holding the last cell under it.
fn row_record(headers: &Vec<String>, row: &Vec<String>) -> (r: Vec<(String, Json)>)
    ensures
        record_of(r@, header_pairs(strings_view(headers@), strings_view(row@))),
{
    let n = if headers.len() <= row.len() { headers.len() } else { row.len() };
    let ghost pairs = header_pairs(strings_view(headers@), strings_view(row@));
    let mut rec: Vec<(String, Json)> = Vec::new();
    let mut i: usize = 0;
    assert(pairs.take(0) =~= Seq::<(Seq<char>, Seq<char>)>::empty());
    while i < n
        invariant
            n == pairs.len(),
            n <= headers@.len(),
            n <= row@.len(),
            pairs == header_pairs(strings_view(headers@), strings_view(row@)),
            i <= n,
            record_of(rec@, pairs.take(i as int)),
        decreases n - i,
    {
        let ghost prev = rec@;
        upsert(&mut rec, headers[i].clone(), row[i].clone());
        proof {
            let t = pairs.take(i + 1);
            assert(t.drop_last() =~= pairs.take(i as int));
            assert(t.last() == (headers@[i as int]@, row@[i as int]@));
            assert forall|k: Seq<char>| #[trigger] text_at(rec@, k) == last_value(t, k) by {
                assert(text_at(prev, k) == last_value(pairs.take(i as int), k));
            }
        }
        i = i + 1;
    }
    assert(pairs.take(n as int) =~= pairs);
    rec
}

/// The rows of the pipe-delimited table in `stdout`: the first line with
/// a `|` names the columns, each later one is a row; lines without a `|`
/// (titles, preamble) are skipped.
pub fn parse_pipe_table(stdout: &str) -> (r: Vec<Vec<(String, Json)>>)
    ensures
        r@.len() == table_pairs(stdout@).len(),
        forall|i: int| 0 <= i < r@.len() ==> record_of((#[trigger] r@[i])@, table_pairs(stdout@)[i]),
{
    let v = chars_of(stdout);
    let ranges = bar_ranges(&v);
    let mut out: Vec<Vec<(String, Json)>> = Vec::new();
    if ranges.len() == 0 {
        return out;
    }
    let ghost ls = bar_lines(v@);
    assert(ls[0] == v@.subrange(ranges@[0].0 as int, ranges@[0].1 as int));
    let headers = cells_of(&v, ranges[0].0, ranges[0].1);
    let mut i: usize = 1;
    while i < ranges.len()
        invariant
            v@ == stdout@,
            ls == bar_lines(v@),
            ls == range_texts(v@, ranges@),
            ranges_in(v@, ranges@),
            ranges@.len() > 0,
            strings_view(headers@) == cells(ls[0]),
            1 <= i <= ranges@.len(),
            out@.len() == i - 1,
            forall|k: int| 0 <= k < out@.len() ==> record_of((#[trigger] out@[k])@, table_pairs(stdout@)[k]),
        decreases ranges@.len() - i,
    {
        let (a, b) = ranges[i];
        assert(ranges@[i as int].0 <= ranges@[i as int].1 <= v@.len());
        let row = cells_of(&v, a, b);
        let rec = row_record(&headers, &row);
        proof {
            assert(ls[i as int] == v@.subrange(a as int, b as int));
            assert(table_pairs(stdout@)[i - 1] == header_pairs(cells(ls[0]), cells(ls[i as int])));
        }
        out.push(rec);
        i = i + 1;
    }
    out
}

// ---------- record fields ----------

/// The value at the dot-path `segs` inside an object with these entries.
pub open spec fn entries_at(entries: Seq<(String, Json)>, segs: Seq<Seq<char>>) -> Option<Json> {
    if segs.len() == 0 {
        None
    } else {
        match entry_value(entries, segs[0]) {
            Some(c) => json_at(c, segs.drop_first()),
            None => None,
        }
    }
}

/// The first entry, in order, whose key matches `field` ignoring ASCII
/// case and whose value is not `null`.
pub open spec fn loose_match(entries: Seq<(String, Json)>, field: Seq<char>) -> Option<Json>
    decreases entries.len(),
{
    if entries.len() == 0 {
        None
    } else if same_ignoring_case(entries[0].0@, field) && !(entries[0].1 is Null) {
        Some(entries[0].1)
    } else {
        loose_match(entries.drop_first(), field)
    }
}

/// A record's field as text: the exact dot-path first, then a top-level key
/// matching ignoring ASCII case (so table headers such as `AMOUNT` find a
/// field written `amount`).
#[verifier::opaque]
pub open spec fn record_text(entries: Seq<(String, Json)>, field: Seq<char>) -> Option<Seq<char>> {
    match entries_at(entries, split_dots(field)) {
        Some(v) => if v is Null {
            match loose_match(entries, field) { Some(w) => Some(scalar_text(w)), None => None }
        } else {
            Some(scalar_text(v))
        },
        None => match loose_match(entries, field) { Some(w) => Some(scalar_text(w)), None => None },
    }
}

/// The value at the dot-path `v` inside an object with these entries.
fn entries_path<'a>(entries: &'a Vec<(String, Json)>, v: &Vec<char>) -> (r: Option<&'a Json>)
    ensures
        entries_at(entries@, split_dots(v@)) == deref(r),
{
    let j = first_index(v, 0, '.');
    let ghost t = v@;
    proof {
        crate::text::lemma_first_pos(t, '.');
        assert(v@.skip(0) =~= v@);
        assert(t.take(j as int) =~= v@.subrange(0, j as int));
    }
    let seg = string_of(v, 0, j);
    let ghost segs = split_dots(t);
    proof {
        if j < v@.len() {
            let rest = split_dots(t.skip(j + 1));
            assert(segs == seq![t.take(j as int)] + rest);
            assert(segs[0] == t.take(j as int));
            assert(segs.drop_first() =~= rest);
        } else {
            assert(t =~= v@.subrange(0, j as int));
            assert(segs == seq![t]);
            assert(segs.drop_first() =~= Seq::<Seq<char>>::empty());
        }
    }
    match entry_index(entries, seg.as_str()) {
        None => None,
        Some(i) => {
            let c = &entries[i].1;
            if j == v.len() {
                assert(json_at(*c, Seq::<Seq<char>>::empty()) == Some(*c));
                Some(c)
            } else {
                path_from(c, v, j + 1)
            }
        },
    }
}

fn loose_in<'a>(entries: &'a Vec<(String, Json)>, field: &Vec<char>) -> (r: Option<&'a Json>)
    ensures
        loose_match(entries@, field@) == deref(r),
{
    let mut i: usize = 0;
    assert(entries@.skip(0) =~= entries@);
    while i < entries.len()
        invariant
            i <= entries@.len(),
            loose_match(entries@, field@) == loose_match(entries@.skip(i as int), field@),
        decreases entries@.len() - i,
    {
        let ghost t = entries@.skip(i as int);
        assert(t[0] == entries@[i as int]);
        assert(t.drop_first() =~= entries@.skip(i + 1));
        let key = chars_of(entries[i].0.as_str());
        let same = range_same_ignoring_case(&key, 0, key.len(), field);
        assert(key@.subrange(0, key@.len() as int) =~= key@);
        if same {
            if let Json::Null = &entries[i].1 {
            } else {
                return Some(&entries[i].1);
            }
        }
        i = i + 1;
    }
    None
}

/// A record's field as text (see `record_text`).
pub fn record_field(entries: &Vec<(String, Json)>, field: &str) -> (r: Option<String>)
    ensures
        opt_chars(r) == record_text(entries@, field@),
{
    reveal(record_text);
    let v = chars_of(field);
    match entries_path(entries, &v) {
        Some(x) => {
            if let Json::Null = x {
            } else {
                return Some(json_scalar(x));
            }
        },
        None => {},
    }
    match loose_in(entries, &v) {
        Some(w) => Some(json_scalar(w)),
        None => None,
    }
}

// ---------- the utility/v1 profile ----------

/// The member `key` of an object.
pub open spec fn member(v: Json, key: Seq<char>) -> Option<Json> {
    match v {
        Json::Object { entries, .. } => entry_value(entries@, key),
        _ => None,
    }
}

/// The member `key` of an object, when it is a string.
pub open spec fn member_text(v: Json, key: Seq<char>) -> Option<Seq<char>> {
    match member(v, key) {
        Some(Json::Str(s)) => Some(s@),
        _ => None,
    }
}

/// A `utility-summary/v1` document.
pub open spec fn is_summary_profile(v: Json) -> bool {
    member_text(v, "schema"@) == Some("utility-summary/v1"@)
}

/// The records of a `<record>-list/v1` envelope: its `items`, when that is
/// an array.
pub open spec fn profile_items_of(v: Json) -> Option<Json> {
    match member_text(v, "schema"@) {
        Some(schema) => if schema.len() >= 8 && schema.skip(schema.len() - 8) == "-list/v1"@ {
            match member(v, "items"@) {
                Some(items) => if items is Array { Some(items) } else { None },
                None => None,
            }
        } else {
            None
        },
        None => None,
    }
}

fn member_of<'a>(v: &'a Json, key: &str) -> (r: Option<&'a Json>)
    ensures
        member(*v, key@) == deref(r),
{
    match v {
        Json::Object { entries, .. } => match entry_index(entries, key) {
            Some(i) => Some(&entries[i].1),
            None => None,
        },
        _ => None,
    }
}

fn member_string<'a>(v: &'a Json, key: &str) -> (r: Option<&'a String>)
    ensures
        member_text(*v, key@) == match r { Some(s) => Some(s@), None => None },
{
    match member_of(v, key) {
        Some(Json::Str(s)) => Some(s),
        _ => None,
    }
}

/// The records of a `<record>-list/v1` envelope, if `root` is one.
pub fn profile_items(root: &Json) -> (r: Option<&Json>)
    ensures
        profile_items_of(*root) == deref(r),
{
    let schema = match member_string(root, "schema") {
        Some(s) => s,
        None => return None,
    };
    let sv = chars_of(schema.as_str());
    if sv.len() < 8 {
        return None;
    }
    let tail = string_of(&sv, sv.len() - 8, sv.len());
    assert(sv@.subrange(sv@.len() - 8, sv@.len() as int) =~= sv@.skip(sv@.len() - 8));
    if !str_eq(tail.as_str(), "-list/v1") {
        return None;
    }
    match member_of(root, "items") {
        Some(items) => {
            if let Json::Array { .. } = items {
                Some(items)
            } else {
                None
            }
        },
        None => None,
    }
}

// ---------- summaries ----------

/// A summary as read from CLI output: the balance and due date as printed,
/// and whether the balance is in cents (to be divided by 100).
pub struct RawSummary {
    pub balance: Option<String>,
    pub due_date: Option<String>,
    pub cents: bool,
}

/// The manifest asks for amounts to be read as cents.
pub open spec fn scale_is_cents(scale: Option<String>) -> bool {
    match scale {
        Some(s) => s@ == "cents"@,
        None => false,
    }
}

pub open spec fn scalar_opt(v: Option<Json>) -> Option<Seq<char>> {
    match v {
        Some(x) => Some(scalar_text(x)),
        None => None,
    }
}

/// What a summary query reads from `stdout` (`parsed` being that output
/// read as JSON, where it is JSON): a `utility-summary/v1` document's
/// `balance.amount` and `due_date` whatever the manifest says; otherwise the
/// manifest's field lists, as labels for `text` output and dot-paths for
/// JSON, with its scale.
pub open spec fn summary_of(query: Query, stdout: Seq<char>, parsed: Option<Json>) -> (Option<Seq<char>>, Option<Seq<char>>, bool) {
    match parsed {
        Some(v) => if is_summary_profile(v) {
            let balance = match member(v, "balance"@) {
                Some(m) => member_text(m, "amount"@),
                None => None,
            };
            (balance, member_text(v, "due_date"@), false)
        } else {
            manifest_summary(query, stdout, parsed)
        },
        None => manifest_summary(query, stdout, parsed),
    }
}

pub open spec fn manifest_summary(query: Query, stdout: Seq<char>, parsed: Option<Json>) -> (Option<Seq<char>>, Option<Seq<char>>, bool) {
    let cents = scale_is_cents(query.scale);
    if query.format@ == "text"@ {
        (first_labelled(stdout, query.balance_fields@), first_labelled(stdout, query.due_date_fields@), cents)
    } else {
        match parsed {
            Some(v) => (
                scalar_opt(first_present(v, query.balance_fields@)),
                scalar_opt(first_present(v, query.due_date_fields@)),
                cents,
            ),
            None => (None, None, cents),
        }
    }
}

fn scalar_of(v: Option<&Json>) -> (r: Option<String>)
    ensures
        opt_chars(r) == scalar_opt(deref(v)),
{
    match v {
        Some(x) => Some(json_scalar(x)),
        None => None,
    }
}

fn string_copy(s: Option<&String>) -> (r: Option<String>)
    ensures
        opt_chars(r) == match s { Some(x) => Some(x@), None => None },
{
    match s {
        Some(x) => Some(x.clone()),
        None => None,
    }
}

/// The balance and due date a summary query's output carries, `parsed`
/// being that output read as JSON (see `summary_of`).
pub fn summary_from(query: &Query, stdout: &str, parsed: Option<&Json>) -> (r: RawSummary)
    ensures
        (opt_chars(r.balance), opt_chars(r.due_date), r.cents) == summary_of(*query, stdout@, deref(parsed)),
{
    if let Some(v) = parsed {
        let schema = member_string(v, "schema");
        let is_profile = match schema {
            Some(s) => str_eq(s.as_str(), "utility-summary/v1"),
            None => false,
        };
        if is_profile {
            let balance = match member_of(v, "balance") {
                Some(m) => string_copy(member_string(m, "amount")),
                None => None,
            };
            let due_date = string_copy(member_string(v, "due_date"));
            return RawSummary { balance, due_date, cents: false };
        }
    }
    let cents = match &query.scale {
        Some(s) => str_eq(s.as_str(), "cents"),
        None => false,
    };
    if str_eq(query.format.as_str(), "text") {
        let balance = first_text_field(stdout, &query.balance_fields);
        let due_date = first_text_field(stdout, &query.due_date_fields);
        RawSummary { balance, due_date, cents }
    } else {
        match parsed {
            Some(v) => {
                let balance = scalar_of(first_json_field(v, &query.balance_fields));
                let due_date = scalar_of(first_json_field(v, &query.due_date_fields));
                RawSummary { balance, due_date, cents }
            },
            None => RawSummary { balance: None, due_date: None, cents },
        }
    }
}

// ---------- series ----------

/// One record of a series: its label, and the text of each of the
/// manifest's value fields (`None` where the record lacks it).
pub struct SeriesRow {
    pub label: String,
    pub values: Vec<Option<String>>,
}

/// A series as read from CLI output: its rows, and whether values are in
/// cents (to be divided by 100).
pub struct RawSeries {
    pub rows: Vec<SeriesRow>,
    pub cents: bool,
}

/// The objects among `items`, as their entries.
pub open spec fn objects_of(items: Seq<Json>) -> Seq<Seq<(String, Json)>>
    decreases items.len(),
{
    if items.len() == 0 {
        Seq::empty()
    } else {
        let rest = objects_of(items.drop_last());
        match items.last() {
            Json::Object { entries, .. } => rest.push(entries@),
            _ => rest,
        }
    }
}

/// The records of a JSON series and whether they came from a profile
/// envelope: the envelope's `items`, else the array at `items-path` (the
/// whole document when it is empty); the objects in it.
pub open spec fn json_records(series: Series, parsed: Option<Json>) -> (Seq<Seq<(String, Json)>>, bool) {
    match parsed {
        None => (Seq::empty(), false),
        Some(root) => {
            let profile = profile_items_of(root) is Some;
            let items = match profile_items_of(root) {
                Some(a) => Some(a),
                None => if series.items_path@.len() == 0 {
                    Some(root)
                } else {
                    json_at(root, split_dots(series.items_path@))
                },
            };
            match items {
                Some(Json::Array { items: arr, .. }) => (objects_of(arr@), profile),
                _ => (Seq::empty(), profile),
            }
        },
    }
}

/// The text of each value field in a record.
pub open spec fn row_values(rec: Seq<(String, Json)>, fields: Seq<String>) -> Seq<Option<Seq<char>>> {
    Seq::new(fields.len(), |i: int| record_text(rec, fields[i]@))
}

/// A record's label: the first of the label fields it has.
pub open spec fn first_text(rec: Seq<(String, Json)>, fields: Seq<String>) -> Option<Seq<char>>
    decreases fields.len(),
{
    if fields.len() == 0 {
        None
    } else {
        match record_text(rec, fields[0]@) {
            Some(t) => Some(t),
            None => first_text(rec, fields.drop_first()),
        }
    }
}

/// The rows of the records that have a label.
pub open spec fn rows_of(recs: Seq<Seq<(String, Json)>>, series: Series) -> Seq<(Seq<char>, Seq<Option<Seq<char>>>)>
    decreases recs.len(),
{
    if recs.len() == 0 {
        Seq::empty()
    } else {
        let rest = rows_of(recs.drop_last(), series);
        match first_text(recs.last(), series.label_field@) {
            Some(label) => rest.push((label, row_values(recs.last(), series.value_fields@))),
            None => rest,
        }
    }
}

pub open spec fn row_view(row: SeriesRow) -> (Seq<char>, Seq<Option<Seq<char>>>) {
    (row.label@, Seq::new(row.values@.len(), |j: int| opt_chars(row.values@[j])))
}

pub open spec fn rows_view(rows: Seq<SeriesRow>) -> Seq<(Seq<char>, Seq<Option<Seq<char>>>)> {
    Seq::new(rows.len(), |i: int| row_view(rows[i]))
}

pub open spec fn refs_view(recs: Seq<&Vec<(String, Json)>>) -> Seq<Seq<(String, Json)>> {
    Seq::new(recs.len(), |i: int| recs[i]@)
}

/// The text of the first of `fields` the record has.
fn first_field(rec: &Vec<(String, Json)>, fields: &Vec<String>) -> (r: Option<String>)
    ensures
        opt_chars(r) == first_text(rec@, fields@),
{
    let mut k: usize = 0;
    assert(fields@.skip(0) =~= fields@);
    while k < fields.len()
        invariant
            k <= fields@.len(),
            first_text(rec@, fields@) == first_text(rec@, fields@.skip(k as int)),
        decreases fields@.len() - k,
    {
        let ghost t = fields@.skip(k as int);
        assert(t[0] == fields@[k as int]);
        assert(t.drop_first() =~= fields@.skip(k + 1));
        let found = record_field(rec, fields[k].as_str());
        if found.is_some() {
            return found;
        }
        k = k + 1;
    }
    None
}

fn row_of(rec: &Vec<(String, Json)>, series: &Series) -> (r: Option<SeriesRow>)
    ensures
        match first_text(rec@, series.label_field@) {
            Some(label) => r matches Some(row) && row_view(row) == (label, row_values(rec@, series.value_fields@)),
            None => r is None,
        },
{
    let label = first_field(rec, &series.label_field);
    let label = match label {
        Some(l) => l,
        None => return None,
    };
    let mut values: Vec<Option<String>> = Vec::new();
    let mut i: usize = 0;
    while i < series.value_fields.len()
        invariant
            i <= series.value_fields@.len(),
            values@.len() == i,
            forall|j: int| 0 <= j < i ==> opt_chars(#[trigger] values@[j]) == record_text(rec@, series.value_fields@[j]@),
        decreases series.value_fields@.len() - i,
    {
        let v = record_field(rec, series.value_fields[i].as_str());
        values.push(v);
        i = i + 1;
    }
    let row = SeriesRow { label, values };
    assert(row_view(row).1 =~= row_values(rec@, series.value_fields@));
    Some(row)
}

fn rows_from(recs: &Vec<&Vec<(String, Json)>>, series: &Series) -> (r: Vec<SeriesRow>)
    ensures
        rows_view(r@) == rows_of(refs_view(recs@), *series),
{
    let mut rows: Vec<SeriesRow> = Vec::new();
    let mut i: usize = 0;
    assert(refs_view(recs@).take(0) =~= Seq::<Seq<(String, Json)>>::empty());
    while i < recs.len()
        invariant
            i <= recs@.len(),
            rows_view(rows@) == rows_of(refs_view(recs@).take(i as int), *series),
        decreases recs@.len() - i,
    {
        let ghost t = refs_view(recs@).take(i + 1);
        assert(t.drop_last() =~= refs_view(recs@).take(i as int));
        assert(t.last() == recs@[i as int]@);
        let ghost before = rows@;
        match row_of(recs[i], series) {
            Some(row) => {
                rows.push(row);
                assert(rows_view(rows@) =~= rows_view(before).push(row_view(row)));
            },
            None => {},
        }
        i = i + 1;
    }
    assert(refs_view(recs@).take(recs@.len() as int) =~= refs_view(recs@));
    rows
}

/// The object records among the elements of `arr`.
fn object_refs(arr: &Vec<Json>) -> (r: Vec<&Vec<(String, Json)>>)
    ensures
        refs_view(r@) == objects_of(arr@),
{
    let mut out: Vec<&Vec<(String, Json)>> = Vec::new();
    let mut i: usize = 0;
    assert(arr@.take(0) =~= Seq::<Json>::empty());
    assert(refs_view(out@) =~= Seq::<Seq<(String, Json)>>::empty());
    while i < arr.len()
        invariant
            i <= arr@.len(),
            refs_view(out@) == objects_of(arr@.take(i as int)),
        decreases arr@.len() - i,
    {
        let ghost t = arr@.take(i + 1);
        assert(t.drop_last() =~= arr@.take(i as int));
        assert(t.last() == arr@[i as int]);
        let ghost before = out@;
        if let Json::Object { entries, .. } = &arr[i] {
            out.push(entries);
            assert(refs_view(out@) =~= refs_view(before).push(entries@));
        }
        i = i + 1;
    }
    assert(arr@.take(arr@.len() as int) =~= arr@);
    out
}

/// The labelled rows a series command's output holds, `parsed` being that
/// output read as JSON: for `table` series the rows of its pipe table,
/// otherwise the objects of its JSON records (see `json_records`); with
/// whether values are in cents, which a profile envelope never is.
pub fn series_from(series: &Series, stdout: &str, parsed: Option<&Json>) -> (r: RawSeries)
    ensures
        series.format@ == "table"@ ==> {
            &&& exists|recs: Seq<Seq<(String, Json)>>| {
                &&& recs.len() == table_pairs(stdout@).len()
                &&& forall|i: int| 0 <= i < recs.len() ==> record_of(#[trigger] recs[i], table_pairs(stdout@)[i])
                &&& rows_view(r.rows@) == rows_of(recs, *series)
            }
            &&& r.cents == scale_is_cents(series.scale)
        },
        series.format@ != "table"@ ==> {
            &&& rows_view(r.rows@) == rows_of(json_records(*series, deref(parsed)).0, *series)
            &&& r.cents == (!json_records(*series, deref(parsed)).1 && scale_is_cents(series.scale))
        },
{
    let cents = match &series.scale {
        Some(s) => str_eq(s.as_str(), "cents"),
        None => false,
    };
    if str_eq(series.format.as_str(), "table") {
        let recs = parse_pipe_table(stdout);
        let mut refs: Vec<&Vec<(String, Json)>> = Vec::new();
        let mut i: usize = 0;
        while i < recs.len()
            invariant
                i <= recs@.len(),
                refs@.len() == i,
                forall|k: int| 0 <= k < i ==> (#[trigger] refs@[k])@ == recs@[k]@,
            decreases recs@.len() - i,
        {
            refs.push(&recs[i]);
            i = i + 1;
        }
        let rows = rows_from(&refs, series);
        let ghost rv = refs_view(refs@);
        assert(forall|k: int| 0 <= k < rv.len() ==> #[trigger] rv[k] == recs@[k]@);
        assert(rv.len() == table_pairs(stdout@).len());
        return RawSeries { rows, cents };
    }
    let root = match parsed {
        Some(v) => v,
        None => {
            let rows: Vec<SeriesRow> = Vec::new();
            assert(rows_view(rows@) =~= rows_of(Seq::<Seq<(String, Json)>>::empty(), *series));
            return RawSeries { rows, cents: cents };
        },
    };
    let (items, profile) = match profile_items(root) {
        Some(a) => (Some(a), true),
        None => {
            if series.items_path.as_str().is_empty() {
                (Some(root), false)
            } else {
                (json_path(root, series.items_path.as_str()), false)
            }
        },
    };
    let rows = match items {
        Some(Json::Array { items: arr, .. }) => {
            let refs = object_refs(arr);
            rows_from(&refs, series)
        },
        _ => {
            let rows: Vec<SeriesRow> = Vec::new();
            assert(rows_view(rows@) =~= rows_of(Seq::<Seq<(String, Json)>>::empty(), *series));
            rows
        },
    };
    RawSeries { rows, cents: !profile && cents }
}

// ---------- what the profile decides ----------

/// A `utility-summary/v1` document is read the same whatever the manifest
/// says: its field lists, format and scale play no part, and its balance
/// is never taken as cents.
pub proof fn profile_overrides_manifest(q1: Query, q2: Query, stdout: Seq<char>, v: Json)
    requires
        is_summary_profile(v),
    ensures
        summary_of(q1, stdout, Some(v)) == summary_of(q2, stdout, Some(v)),
        !summary_of(q1, stdout, Some(v)).2,
{
}

/// Records that come from a `<record>-list/v1` envelope are never scaled
/// as cents, whatever the manifest's scale says.
pub proof fn envelope_never_cents(series: Series, root: Json)
    requires
        profile_items_of(root) is Some,
    ensures
        json_records(series, Some(root)).1,
        json_records(series, Some(root)).0 == match profile_items_of(root) {
            Some(Json::Array { items, .. }) => objects_of(items@),
            _ => Seq::empty(),
        },
{
}

// ---------- reading CLI output ----------

/// The balance and due date a summary query's output carries: the output
/// is read as JSON, then as `summary_of` says.
pub fn extract_summary(query: &Query, stdout: &str) -> (r: RawSummary)
    ensures
        (opt_chars(r.balance), opt_chars(r.due_date), r.cents) == summary_of(*query, stdout@, json_of_text(stdout@)),
{
    let parsed = parse_json(stdout);
    summary_from(query, stdout, parsed.as_ref())
}

/// The labelled rows a series command's output holds (see `series_from`);
/// the output is read as JSON unless the series is a `table`.
pub fn extract_series(series: &Series, stdout: &str) -> (r: RawSeries)
    ensures
        series.format@ == "table"@ ==> {
            &&& exists|recs: Seq<Seq<(String, Json)>>| {
                &&& recs.len() == table_pairs(stdout@).len()
                &&& forall|i: int| 0 <= i < recs.len() ==> record_of(#[trigger] recs[i], table_pairs(stdout@)[i])
                &&& rows_view(r.rows@) == rows_of(recs, *series)
            }
            &&& r.cents == scale_is_cents(series.scale)
        },
        series.format@ != "table"@ ==> {
            &&& rows_view(r.rows@) == rows_of(json_records(*series, json_of_text(stdout@)).0, *series)
            &&& r.cents == (!json_records(*series, json_of_text(stdout@)).1 && scale_is_cents(series.scale))
        },
{
    if str_eq(series.format.as_str(), "table") {
        series_from(series, stdout, None)
    } else {
        let parsed = parse_json(stdout);
        series_from(series, stdout, parsed.as_ref())
    }
}

/// What a sign-in status report says: the output read as JSON, the value at
/// the dot-path `field` taken as yes or no; `None` when the output is not
/// JSON or has nothing there.
pub fn auth_answer(stdout: &str, field: &str) -> (r: Option<bool>)
    ensures
        r == match json_of_text(stdout@) {
            Some(v) => match json_at(v, split_dots(field@)) {
                Some(x) => Some(truthy_value(x)),
                None => None,
            },
            None => None,
        },
{
    let parsed = parse_json(stdout);
    match &parsed {
        Some(v) => match json_path(v, field) {
            Some(x) => Some(truthy(x)),
            None => None,
        },
        None => None,
    }
}

} // verus!
