//! The local series archive.
//!
//! Provider CLIs return a limited window of history; utiman keeps its own
//! append-only archive so charts reach further back the longer it runs. Each
//! (provider, series) pair has a JSONL file named after both ids. Merging a
//! fresh fetch is an upsert keyed by the period label: a re-fetched period
//! overwrites its stored value, a new period is added. Histories are shown
//! newest-first, labels that are not dates last.

use vstd::prelude::*;

use crate::dates::{days_fit, label_date_of, parse_label, Date};
use crate::install::strings_view;
use crate::sort::{is_stable_sort, reorder, stable_sort};
use crate::text::{chars_of, push_char, push_str, str_eq};

verus! {

// ---------- file names ----------

/// The characters kept in a file-name segment: ASCII letters, digits, `-`.
pub open spec fn keeps(c: char) -> bool {
    ('a' <= c && c <= 'z') || ('A' <= c && c <= 'Z') || ('0' <= c && c <= '9') || c == '-'
}

/// `seg` with every other character replaced by `_`.
pub open spec fn safe_text(seg: Seq<char>) -> Seq<char> {
    seg.map_values(|c: char| if keeps(c) { c } else { '_' })
}

/// A provider or series id made safe as a file-name segment (ids are
/// kebab-case already, but a user manifest supplies them).
pub fn safe(seg: &str) -> (r: String)
    ensures
        r@ == safe_text(seg@),
{
    let v = chars_of(seg);
    let mut out = String::new();
    let mut i: usize = 0;
    while i < v.len()
        invariant
            v@ == seg@,
            i <= v@.len(),
            out@ == safe_text(v@.take(i as int)),
        decreases v@.len() - i,
    {
        let c = v[i];
        let k = ('a' <= c && c <= 'z') || ('A' <= c && c <= 'Z') || ('0' <= c && c <= '9') || c == '-';
        push_char(&mut out, if k { c } else { '_' });
        assert(safe_text(v@.take(i + 1)) =~= safe_text(v@.take(i as int)).push(if keeps(c) { c } else { '_' }));
        i = i + 1;
    }
    assert(v@.take(v@.len() as int) =~= v@);
    out
}

/// The archive file of a provider's series: `<provider>__<series>.jsonl`,
/// both ids made safe.
pub fn file_for(provider: &str, series: &str) -> (r: String)
    ensures
        r@ == safe_text(provider@) + "__"@ + safe_text(series@) + ".jsonl"@,
{
    let mut s = safe(provider);
    push_str(&mut s, "__");
    let b = safe(series);
    push_str(&mut s, b.as_str());
    push_str(&mut s, ".jsonl");
    s
}

// ---------- newest first ----------

/// Every label that reads as a date has a day count that fits in an `i64`.
pub open spec fn labels_datable(labels: Seq<String>) -> bool {
    forall|i: int| 0 <= i < labels.len() ==>
        (#[trigger] label_date_of(labels[i]@) matches Some(d) ==> days_fit(d))
}

/// The sort key of a label: later dates first, labels that are not dates
/// last.
pub open spec fn newest_key(label: Seq<char>) -> i128 {
    match label_date_of(label) {
        Some(d) => (-d.spec_days()) as i128,
        None => i128::MAX,
    }
}

/// Whether every label's date can be placed in time.
pub fn labels_sortable(labels: &Vec<String>) -> (r: bool)
    ensures
        r == labels_datable(labels@),
{
    let mut i: usize = 0;
    while i < labels.len()
        invariant
            i <= labels@.len(),
            forall|k: int| 0 <= k < i ==>
                (#[trigger] label_date_of(labels@[k]@) matches Some(d) ==> days_fit(d)),
        decreases labels@.len() - i,
    {
        if let Some(d) = parse_label(labels[i].as_str()) {
            if !d.day_count_fits() {
                return false;
            }
        }
        i = i + 1;
    }
    true
}

/// Orders `items` newest-first by their labels (`labels[i]` is the label of
/// `items[i]`): dated labels by descending date, then the rest, equal keys
/// keeping their order.
pub fn sort_newest_first<T>(items: Vec<T>, labels: &Vec<String>) -> (r: Vec<T>)
    requires
        items@.len() == labels@.len(),
        labels_datable(labels@),
    ensures
        exists|order: Seq<usize>|
            is_stable_sort(labels@.map_values(|l: String| newest_key(l@)), order)
            && r@ == reorder(items@, order),
{
    let mut keys: Vec<i128> = Vec::new();
    let mut i: usize = 0;
    while i < labels.len()
        invariant
            i <= labels@.len(),
            labels_datable(labels@),
            keys@ == labels@.take(i as int).map_values(|l: String| newest_key(l@)),
        decreases labels@.len() - i,
    {
        let ghost l = labels@[i as int]@;
        assert(label_date_of(labels@[i as int]@) matches Some(d) ==> days_fit(d));
        let k: i128 = match parse_label(labels[i].as_str()) {
            Some(d) => -(d.days_from_epoch() as i128),
            None => i128::MAX,
        };
        keys.push(k);
        assert(labels@.take(i + 1).map_values(|l: String| newest_key(l@))
            =~= labels@.take(i as int).map_values(|l: String| newest_key(l@)).push(k));
        i = i + 1;
    }
    assert(labels@.take(labels@.len() as int) =~= labels@);
    let (sorted, order) = stable_sort(items, &keys);
    sorted
}

// ---------- merging ----------

/// The first position of `x` in `l`.
pub open spec fn position(l: Seq<Seq<char>>, x: Seq<char>) -> Option<int>
    decreases l.len(),
{
    if l.len() == 0 {
        None
    } else if l[0] == x {
        Some(0)
    } else {
        match position(l.drop_first(), x) {
            Some(i) => Some(i + 1),
            None => None,
        }
    }
}

/// The labels of the archive after merging the labels `fresh` into
/// `existing`: a label already present keeps its place, a new one is added
/// at the end.
pub open spec fn merged_labels(existing: Seq<Seq<char>>, fresh: Seq<Seq<char>>) -> Seq<Seq<char>>
    decreases fresh.len(),
{
    if fresh.len() == 0 {
        existing
    } else {
        let l = merged_labels(existing, fresh.drop_last());
        if position(l, fresh.last()) is Some { l } else { l.push(fresh.last()) }
    }
}

/// Where the `k`-th fresh point lands, and whether it is a new period.
pub open spec fn landing(existing: Seq<Seq<char>>, fresh: Seq<Seq<char>>, k: int) -> (int, bool) {
    let l = merged_labels(existing, fresh.take(k));
    match position(l, fresh[k]) {
        Some(i) => (i, false),
        None => (l.len() as int, true),
    }
}

proof fn lemma_position_at(l: Seq<Seq<char>>, x: Seq<char>, i: int)
    requires
        0 <= i < l.len(),
        l[i] == x,
        forall|j: int| 0 <= j < i ==> l[j] != x,
    ensures
        position(l, x) == Some(i),
    decreases i,
{
    if i > 0 {
        lemma_position_at(l.drop_first(), x, i - 1);
    }
}

proof fn lemma_position_none(l: Seq<Seq<char>>, x: Seq<char>)
    requires
        forall|j: int| 0 <= j < l.len() ==> l[j] != x,
    ensures
        position(l, x) is None,
    decreases l.len(),
{
    if l.len() > 0 {
        lemma_position_none(l.drop_first(), x);
    }
}

/// How merging the fresh labels into the archive's labels goes: for each
/// fresh point, in order, the slot of the merged history it lands in and
/// whether that slot is new (an appended period) or an existing period
/// whose value the fresh one replaces. Later fresh points with a label seen
/// earlier in the same fetch land in that earlier slot.
pub fn merge_plan(existing: &Vec<String>, fresh: &Vec<String>) -> (r: Vec<(usize, bool)>)
    ensures
        r@.len() == fresh@.len(),
        forall|k: int| 0 <= k < fresh@.len() ==>
            (#[trigger] r@[k]).0 as int == landing(strings_view(existing@), strings_view(fresh@), k).0
            && r@[k].1 == landing(strings_view(existing@), strings_view(fresh@), k).1,
{
    let ghost ex = strings_view(existing@);
    let ghost fr = strings_view(fresh@);
    let mut labels: Vec<String> = Vec::new();
    let mut i: usize = 0;
    while i < existing.len()
        invariant
            i <= existing@.len(),
            ex == strings_view(existing@),
            strings_view(labels@) == ex.take(i as int),
        decreases existing@.len() - i,
    {
        let c = existing[i].clone();
        proof {
            crate::install::lemma_strings_view_push(labels@, c);
            assert(ex.take(i + 1) =~= ex.take(i as int).push(existing@[i as int]@));
        }
        labels.push(c);
        i = i + 1;
    }
    assert(ex.take(existing@.len() as int) =~= ex);
    assert(fr.take(0) =~= Seq::<Seq<char>>::empty());
    let mut plan: Vec<(usize, bool)> = Vec::new();
    let mut k: usize = 0;
    while k < fresh.len()
        invariant
            k <= fresh@.len(),
            ex == strings_view(existing@),
            fr == strings_view(fresh@),
            strings_view(labels@) == merged_labels(ex, fr.take(k as int)),
            plan@.len() == k,
            forall|q: int| 0 <= q < k ==>
                (#[trigger] plan@[q]).0 as int == landing(ex, fr, q).0 && plan@[q].1 == landing(ex, fr, q).1,
        decreases fresh@.len() - k,
    {
        let ghost l = strings_view(labels@);
        let mut j: usize = 0;
        while j < labels.len() && !str_eq(labels[j].as_str(), fresh[k].as_str())
            invariant
                k < fresh@.len(),
                j <= labels@.len(),
                l == strings_view(labels@),
                forall|q: int| 0 <= q < j ==> l[q] != fresh@[k as int]@,
            decreases labels@.len() - j,
        {
            j = j + 1;
        }
        proof {
            assert(fr.take(k + 1).drop_last() =~= fr.take(k as int));
            assert(fr.take(k + 1).last() == fresh@[k as int]@);
            assert(fr[k as int] == fresh@[k as int]@);
        }
        if j < labels.len() {
            proof {
                lemma_position_at(l, fresh@[k as int]@, j as int);
            }
            plan.push((j, false));
        } else {
            proof {
                lemma_position_none(l, fresh@[k as int]@);
            }
            plan.push((labels.len(), true));
            let c = fresh[k].clone();
            proof {
                crate::install::lemma_strings_view_push(labels@, c);
            }
            labels.push(c);
        }
        k = k + 1;
    }
    plan
}

// ---------- what merging keeps ----------

/// `x` is one of `l`.
pub open spec fn listed(l: Seq<Seq<char>>, x: Seq<char>) -> bool {
    exists|i: int| 0 <= i < l.len() && l[i] == x
}

proof fn lemma_position_listed(l: Seq<Seq<char>>, x: Seq<char>)
    ensures
        (position(l, x) is Some) == listed(l, x),
        position(l, x) matches Some(i) ==> 0 <= i < l.len() && l[i] == x,
    decreases l.len(),
{
    if l.len() > 0 {
        lemma_position_listed(l.drop_first(), x);
        if l[0] != x && listed(l, x) {
            let i = choose|i: int| 0 <= i < l.len() && l[i] == x;
            assert(l.drop_first()[i - 1] == x);
        }
        if listed(l.drop_first(), x) {
            let i = choose|i: int| 0 <= i < l.drop_first().len() && l.drop_first()[i] == x;
            assert(l[i + 1] == x);
        }
    }
}

/// Merging never loses or moves a stored period: the archive's labels stay
/// a prefix of the merged labels, and every fetched label is among them.
pub proof fn merge_keeps_history(existing: Seq<Seq<char>>, fresh: Seq<Seq<char>>)
    ensures
        merged_labels(existing, fresh).len() >= existing.len(),
        merged_labels(existing, fresh).take(existing.len() as int) == existing,
        forall|k: int| 0 <= k < fresh.len() ==> listed(merged_labels(existing, fresh), #[trigger] fresh[k]),
    decreases fresh.len(),
{
    if fresh.len() > 0 {
        let l = merged_labels(existing, fresh.drop_last());
        merge_keeps_history(existing, fresh.drop_last());
        lemma_position_listed(l, fresh.last());
        let m = merged_labels(existing, fresh);
        if position(l, fresh.last()) is None {
            assert(m == l.push(fresh.last()));
            assert(m.take(existing.len() as int) =~= l.take(existing.len() as int));
            assert(m[l.len() as int] == fresh.last());
        }
        assert forall|k: int| 0 <= k < fresh.len() implies listed(m, #[trigger] fresh[k]) by {
            if k < fresh.len() - 1 {
                assert(fresh.drop_last()[k] == fresh[k]);
                assert(listed(l, fresh.drop_last()[k]));
                let i = choose|i: int| 0 <= i < l.len() && l[i] == fresh[k];
                if position(l, fresh.last()) is None {
                    assert(m[i] == l[i]);
                }
            }
        }
    } else {
        assert(existing.take(existing.len() as int) =~= existing);
    }
}

proof fn lemma_merged_unchanged(existing: Seq<Seq<char>>, fresh: Seq<Seq<char>>)
    requires
        forall|k: int| 0 <= k < fresh.len() ==> listed(existing, #[trigger] fresh[k]),
    ensures
        merged_labels(existing, fresh) == existing,
    decreases fresh.len(),
{
    if fresh.len() > 0 {
        assert forall|k: int| 0 <= k < fresh.drop_last().len() implies listed(existing, #[trigger] fresh.drop_last()[k]) by {
            assert(fresh.drop_last()[k] == fresh[k]);
        }
        lemma_merged_unchanged(existing, fresh.drop_last());
        assert(listed(existing, fresh[fresh.len() - 1]));
        lemma_position_listed(existing, fresh.last());
    }
}

/// Re-merging periods already in the archive learns nothing: the labels
/// stay as they are and every fetched point lands on a stored period.
pub proof fn merge_idempotent(existing: Seq<Seq<char>>, fresh: Seq<Seq<char>>)
    requires
        forall|k: int| 0 <= k < fresh.len() ==> listed(existing, #[trigger] fresh[k]),
    ensures
        merged_labels(existing, fresh) == existing,
        forall|k: int| 0 <= k < fresh.len() ==> !(#[trigger] landing(existing, fresh, k)).1,
{
    lemma_merged_unchanged(existing, fresh);
    assert forall|k: int| 0 <= k < fresh.len() implies !(#[trigger] landing(existing, fresh, k)).1 by {
        assert forall|q: int| 0 <= q < fresh.take(k).len() implies listed(existing, #[trigger] fresh.take(k)[q]) by {
            assert(fresh.take(k)[q] == fresh[q]);
        }
        lemma_merged_unchanged(existing, fresh.take(k));
        lemma_position_listed(existing, fresh[k]);
    }
}

} // verus!
