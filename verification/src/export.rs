//! Records export: local utility data as CSVs packed into one store-only ZIP.
//!
//! The ZIP is built by hand (a few dozen bytes of header per file plus a
//! CRC-32): the data is small text, so compression buys nothing, and the
//! bytes open in Finder, `unzip`, and every spreadsheet app.

use vstd::prelude::*;

use vstd::string::StringSliceAdditionalSpecFns;
use vstd::utf8::encode_utf8;

use crate::dates::{from_unix, valid_date, Date};
use crate::install::{lemma_strings_view_push, strings_view};
use crate::sort::{is_stable_sort, reorder, stable_sort};
use crate::text::{chars_of, decimal, find, push_char, push_decimal, push_str};

verus! {

/// What the bundle's README says.
pub const README: &'static str = "utiman export
=============
balances.csv        Every recorded balance snapshot, across all providers.
series/*.csv         One file per archived series (bill amounts, usage, ...).

Columns in balances.csv: provider, date (UTC), unix_ts, balance, due_date.
Columns in each series file: label, value.
All data came from your own provider CLIs and never left this machine.
";

// ---------- CSV ----------

pub open spec fn needs_quoting(c: char) -> bool {
    c == ',' || c == '"' || c == '\n' || c == '\r'
}

/// `s` with every `"` doubled.
pub open spec fn double_quotes(s: Seq<char>) -> Seq<char>
    decreases s.len(),
{
    if s.len() == 0 {
        Seq::empty()
    } else {
        double_quotes(s.drop_last()) + if s.last() == '"' { seq!['"', '"'] } else { seq![s.last()] }
    }
}

/// RFC 4180 field escaping: quote a field that holds a comma, quote or line
/// break, doubling its quotes; leave any other field as it is.
pub open spec fn csv_field(s: Seq<char>) -> Seq<char> {
    if exists|i: int| 0 <= i < s.len() && needs_quoting(#[trigger] s[i]) {
        seq!['"'] + double_quotes(s) + seq!['"']
    } else {
        s
    }
}

/// CSV-escape a field: quote it when it contains a comma, quote, or newline,
/// doubling any embedded quotes (RFC 4180).
pub fn field(s: &str) -> (r: String)
    ensures
        r@ == csv_field(s@),
{
    let v = chars_of(s);
    let n = v.len();
    let mut quoted = String::new();
    push_char(&mut quoted, '"');
    let mut needs = false;
    let mut i: usize = 0;
    while i < n
        invariant
            n == v@.len(),
            i <= n,
            quoted@ == seq!['"'] + double_quotes(v@.take(i as int)),
            needs == exists|k: int| 0 <= k < i && needs_quoting(#[trigger] v@[k]),
        decreases n - i,
    {
        let c = v[i];
        if c == ',' || c == '"' || c == '\n' || c == '\r' {
            needs = true;
        }
        if c == '"' {
            push_char(&mut quoted, '"');
        }
        push_char(&mut quoted, c);
        assert(v@.take(i + 1).drop_last() =~= v@.take(i as int));
        assert(needs == exists|k: int| 0 <= k < i + 1 && needs_quoting(#[trigger] v@[k])) by {
            if needs_quoting(c) {
                assert(needs_quoting(v@[i as int]));
            }
        }
        i = i + 1;
    }
    assert(v@.take(n as int) =~= v@);
    if needs {
        push_char(&mut quoted, '"');
        quoted
    } else {
        crate::text::string_of(&v, 0, n)
    }
}

// ---------- CRC-32 ----------

/// One bit step of the reflected CRC-32 (IEEE polynomial 0xEDB88320).
pub open spec fn crc_bit(crc: u32) -> u32 {
    if crc & 1 != 0 { (crc >> 1) ^ 0xEDB8_8320 } else { crc >> 1 }
}

pub open spec fn crc_bits(crc: u32, k: nat) -> u32
    decreases k,
{
    if k == 0 { crc } else { crc_bit(crc_bits(crc, (k - 1) as nat)) }
}

/// The register after feeding `data` into a CRC-32 register holding `crc`.
pub open spec fn crc_feed(crc: u32, data: Seq<u8>) -> u32
    decreases data.len(),
{
    if data.len() == 0 {
        crc
    } else {
        crc_bits(crc_feed(crc, data.drop_last()) ^ (data.last() as u32), 8)
    }
}

/// CRC-32 (IEEE, as ZIP uses it) of `data`.
pub open spec fn crc32_of(data: Seq<u8>) -> u32 {
    !crc_feed(0xFFFF_FFFF, data)
}

/// CRC-32 (IEEE, the polynomial ZIP uses), bit-by-bit.
pub fn crc32(data: &[u8]) -> (r: u32)
    ensures
        r == crc32_of(data@),
{
    let mut crc: u32 = 0xFFFF_FFFF;
    let n = data.len();
    let mut i: usize = 0;
    while i < n
        invariant
            n == data@.len(),
            i <= n,
            crc == crc_feed(0xFFFF_FFFF, data@.take(i as int)),
        decreases n - i,
    {
        let byte = data[i];
        let ghost start = crc ^ (byte as u32);
        crc = crc ^ (byte as u32);
        let mut k: u32 = 0;
        while k < 8
            invariant
                k <= 8,
                crc == crc_bits(start, k as nat),
            decreases 8 - k,
        {
            crc = if crc & 1 != 0 { (crc >> 1) ^ 0xEDB8_8320 } else { crc >> 1 };
            k = k + 1;
        }
        assert(data@.take(i + 1).drop_last() =~= data@.take(i as int));
        i = i + 1;
    }
    assert(data@.take(n as int) =~= data@);
    !crc
}


// ---------- balances.csv ----------

/// `k` zeros.
pub open spec fn zeros(k: int) -> Seq<char>
    decreases k,
{
    if k <= 0 { Seq::empty() } else { zeros(k - 1).push('0') }
}

/// An integer written as `{:0w$}` writes it: zero-padded to `width`
/// characters, the sign counted.
pub open spec fn padded(n: int, width: int) -> Seq<char> {
    if n < 0 {
        seq!['-'] + zeros(width - 1 - decimal((-n) as nat).len()) + decimal((-n) as nat)
    } else {
        zeros(width - decimal(n as nat).len()) + decimal(n as nat)
    }
}

pub open spec fn pow10(k: nat) -> nat
    decreases k,
{
    if k == 0 { 1 } else { 10 * pow10((k - 1) as nat) }
}

proof fn lemma_decimal_len(n: nat, k: nat)
    requires
        k >= 1,
        n < pow10(k),
    ensures
        decimal(n).len() <= k,
    decreases k,
{
    if n >= 10 {
        assert(n / 10 < pow10((k - 1) as nat)) by (nonlinear_arith)
            requires
                n < 10 * pow10((k - 1) as nat),
                n >= 10;
        lemma_decimal_len(n / 10, (k - 1) as nat);
    }
}

/// The number of decimal digits of `n`.
fn digit_count(n: u64) -> (r: usize)
    ensures
        r == decimal(n as nat).len(),
        1 <= r <= 20,
    decreases n,
{
    proof {
        assert(pow10(20) == 100_000_000_000_000_000_000nat) by {
            reveal_with_fuel(pow10, 21);
        }
        lemma_decimal_len(n as nat, 20);
    }
    if n < 10 {
        1
    } else {
        let k = digit_count(n / 10);
        assert(decimal(n as nat).len() == decimal((n / 10) as nat).len() + 1);
        k + 1
    }
}

fn push_zeros(s: &mut String, k: usize)
    ensures
        final(s)@ == old(s)@ + zeros(k as int),
{
    let mut i: usize = 0;
    while i < k
        invariant
            i <= k,
            s@ == old(s)@ + zeros(i as int),
        decreases k - i,
    {
        push_char(s, '0');
        i = i + 1;
    }
}

/// Appends `n` zero-padded to `width` characters.
fn push_padded(s: &mut String, n: i64, width: usize)
    ensures
        final(s)@ == old(s)@ + padded(n as int, width as int),
{
    if n < 0 {
        push_char(s, '-');
        let mag: u64 = ((-(n + 1)) as u64) + 1;
        let k = digit_count(mag);
        if width >= 1 && width - 1 > k {
            push_zeros(s, width - 1 - k);
        } else {
            assert(zeros(width as int - 1 - decimal(mag as nat).len()) =~= Seq::<char>::empty());
        }
        push_decimal(s, mag);
        assert(s@ =~= old(s)@ + padded(n as int, width as int));
    } else {
        let k = digit_count(n as u64);
        if width > k {
            push_zeros(s, width - k);
        } else {
            assert(zeros(width as int - decimal(n as nat).len()) =~= Seq::<char>::empty());
        }
        push_decimal(s, n as u64);
        assert(s@ =~= old(s)@ + padded(n as int, width as int));
    }
}

/// One `balances.csv` row for a snapshot of provider `id` taken at unix
/// time `ts` on (UTC) day `d`: provider, date, timestamp, the balance as
/// written, due date (empty when unknown).
pub open spec fn balance_row_text(id: Seq<char>, d: Date, ts: u64, balance: Seq<char>, due: Seq<char>) -> Seq<char> {
    csv_field(id) + ","@ + padded(d.year as int, 4) + "-"@ + padded(d.month as int, 2) + "-"@
        + padded(d.day as int, 2) + ","@ + decimal(ts as nat) + ","@ + balance + ","@ + csv_field(due) + "\n"@
}

/// One `balances.csv` data row: the provider, the UTC date of `ts`, `ts`
/// itself, the balance as the caller writes it, and the due date.
pub fn balance_row(id: &str, ts: u64, balance: &str, due_date: Option<&str>) -> (r: String)
    ensures
        exists|d: Date| {
            &&& valid_date(d.year as int, d.month as int, d.day as int)
            &&& d.spec_days() == (ts as i64) as int / 86400
            &&& r@ == balance_row_text(id@, d, ts, balance@, match due_date { Some(x) => x@, None => ""@ })
        },
{
    let d = from_unix(ts as i64);
    let mut s = field(id);
    push_str(&mut s, ",");
    push_padded(&mut s, d.year, 4);
    push_str(&mut s, "-");
    push_padded(&mut s, d.month as i64, 2);
    push_str(&mut s, "-");
    push_padded(&mut s, d.day as i64, 2);
    push_str(&mut s, ",");
    push_decimal(&mut s, ts);
    push_str(&mut s, ",");
    push_str(&mut s, balance);
    push_str(&mut s, ",");
    let due = match due_date {
        Some(x) => field(x),
        None => field(""),
    };
    push_str(&mut s, due.as_str());
    push_str(&mut s, "\n");
    s
}

/// One `label,value` row of a series CSV, the value as the caller writes it.
pub fn series_row(label: &str, value: &str) -> (r: String)
    ensures
        r@ == csv_field(label@) + ","@ + value@ + "\n"@,
{
    let mut s = field(label);
    push_str(&mut s, ",");
    push_str(&mut s, value);
    push_str(&mut s, "\n");
    s
}

// ---------- archived series files ----------

/// A file name without its `.jsonl` suffix, if it has one.
pub open spec fn stem_of(name: Seq<char>) -> Option<Seq<char>> {
    if name.len() >= 6 && name.skip(name.len() - 6) == ".jsonl"@ { Some(name.take(name.len() - 6)) } else { None }
}

/// The stems of the `.jsonl` files among `names`, in order.
pub open spec fn stems(names: Seq<String>) -> Seq<Seq<char>>
    decreases names.len(),
{
    if names.len() == 0 {
        Seq::empty()
    } else {
        let r = stems(names.drop_last());
        match stem_of(names.last()@) {
            Some(t) => r.push(t),
            None => r,
        }
    }
}

/// A stem `<provider>__<series>` cut at its first `__`.
pub open spec fn split_stem(stem: Seq<char>) -> Option<(Seq<char>, Seq<char>)> {
    match find(stem, seq!['_', '_']) {
        Some(i) => Some((stem.take(i), stem.skip(i + 2))),
        None => None,
    }
}

/// `(stem, provider, series)` for each stem that splits, in order.
pub open spec fn series_files(stems: Seq<Seq<char>>) -> Seq<(Seq<char>, Seq<char>, Seq<char>)>
    decreases stems.len(),
{
    if stems.len() == 0 {
        Seq::empty()
    } else {
        let r = series_files(stems.drop_last());
        match split_stem(stems.last()) {
            Some((p, q)) => r.push((stems.last(), p, q)),
            None => r,
        }
    }
}

pub open spec fn triples_view(v: Seq<(String, String, String)>) -> Seq<(Seq<char>, Seq<char>, Seq<char>)> {
    Seq::new(v.len(), |i: int| (v[i].0@, v[i].1@, v[i].2@))
}

fn copy_strings(v: &Vec<String>) -> (r: Vec<String>)
    ensures
        strings_view(r@) == strings_view(v@),
{
    let mut r: Vec<String> = Vec::new();
    let mut i: usize = 0;
    while i < v.len()
        invariant
            i <= v@.len(),
            strings_view(r@) == strings_view(v@).take(i as int),
        decreases v@.len() - i,
    {
        let c = v[i].clone();
        proof {
            lemma_strings_view_push(r@, c);
            assert(strings_view(v@).take(i + 1) =~= strings_view(v@).take(i as int).push(v@[i as int]@));
        }
        r.push(c);
        i = i + 1;
    }
    assert(strings_view(v@).take(v@.len() as int) =~= strings_view(v@));
    r
}

/// The archived series the export includes, from the file names in the
/// archive directory: the `.jsonl` files, by stem in sorted order, each
/// split at its first `__` into provider and series (a stem without `__`
/// is left out).
pub fn archive_files(names: &Vec<String>) -> (r: Vec<(String, String, String)>)
    ensures
        exists|keys: Seq<String>, order: Seq<usize>| {
            &&& strings_view(keys) == stems(names@)
            &&& is_stable_sort(keys, order)
            &&& triples_view(r@) == series_files(reorder(strings_view(keys), order))
        },
{
    let mut keys: Vec<String> = Vec::new();
    let mut i: usize = 0;
    assert(names@.take(0) =~= Seq::<String>::empty());
    while i < names.len()
        invariant
            i <= names@.len(),
            strings_view(keys@) == stems(names@.take(i as int)),
        decreases names@.len() - i,
    {
        let ghost t = names@.take(i + 1);
        assert(t.drop_last() =~= names@.take(i as int));
        assert(t.last() == names@[i as int]);
        let v = chars_of(names[i].as_str());
        if v.len() >= 6 {
            let n = v.len();
            let suffix = crate::text::string_of(&v, n - 6, n);
            assert(v@.subrange(n - 6, n as int) =~= v@.skip(n - 6));
            if crate::text::str_eq(suffix.as_str(), ".jsonl") {
                let stem = crate::text::string_of(&v, 0, n - 6);
                assert(v@.subrange(0, n - 6) =~= v@.take(n - 6));
                proof {
                    lemma_strings_view_push(keys@, stem);
                }
                keys.push(stem);
            }
        }
        i = i + 1;
    }
    assert(names@.take(names@.len() as int) =~= names@);
    let items = copy_strings(&keys);
    let (sorted, order) = stable_sort(items, &keys);
    let ghost sv = reorder(strings_view(keys@), order@);
    assert(strings_view(sorted@) =~= sv);
    let mut out: Vec<(String, String, String)> = Vec::new();
    let mut k: usize = 0;
    let pat = chars_of("__");
    proof {
        reveal_strlit("__");
        assert(pat@ =~= seq!['_', '_']);
    }
    assert(sv.take(0) =~= Seq::<Seq<char>>::empty());
    while k < sorted.len()
        invariant
            k <= sorted@.len(),
            strings_view(sorted@) == sv,
            pat@ == seq!['_', '_'],
            triples_view(out@) == series_files(sv.take(k as int)),
        decreases sorted@.len() - k,
    {
        let ghost t = sv.take(k + 1);
        assert(t.drop_last() =~= sv.take(k as int));
        assert(t.last() == sorted@[k as int]@);
        let v = chars_of(sorted[k].as_str());
        assert(v@.subrange(0, v@.len() as int) =~= v@);
        let ghost before = triples_view(out@);
        match crate::text::find_in(&v, 0, v.len(), &pat) {
            Some(i) => {
                let p = crate::text::string_of(&v, 0, i);
                let q = crate::text::string_of(&v, i + 2, v.len());
                assert(v@.subrange(0, i as int) =~= v@.take(i as int));
                assert(v@.subrange(i + 2, v@.len() as int) =~= v@.skip(i + 2));
                out.push((sorted[k].clone(), p, q));
                assert(triples_view(out@) =~= before.push((sorted@[k as int]@, v@.take(i as int), v@.skip(i + 2))));
            },
            None => {},
        }
        k = k + 1;
    }
    assert(sv.take(sv.len() as int) =~= sv);
    out
}

// ---------- minimal store-only ZIP writer ----------

pub open spec fn le16(v: u16) -> Seq<u8> {
    seq![v as u8, (v >> 8) as u8]
}

pub open spec fn le32(v: u32) -> Seq<u8> {
    seq![v as u8, (v >> 8) as u8, (v >> 16) as u8, (v >> 24) as u8]
}

/// A file to store: its name (as UTF-8 bytes) and its contents.
pub type ZipFile = (Seq<u8>, Seq<u8>);

/// The local file header and data of a stored (uncompressed) file.
pub open spec fn local_record(f: ZipFile) -> Seq<u8> {
    let (name, data) = f;
    le32(0x0403_4b50) + le16(20) + le16(0) + le16(0) + le16(0) + le16(0)
        + le32(crc32_of(data)) + le32(data.len() as u32) + le32(data.len() as u32)
        + le16(name.len() as u16) + le16(0) + name + data
}

/// The local records of `files`, back to back.
pub open spec fn local_records(files: Seq<ZipFile>) -> Seq<u8>
    decreases files.len(),
{
    if files.len() == 0 {
        Seq::empty()
    } else {
        local_records(files.drop_last()) + local_record(files.last())
    }
}

/// Where the local record of `files[i]` starts.
pub open spec fn record_offset(files: Seq<ZipFile>, i: int) -> u32 {
    local_records(files.take(i)).len() as u32
}

/// The central-directory entry for a file whose local record is at `offset`.
pub open spec fn central_record(f: ZipFile, offset: u32) -> Seq<u8> {
    let (name, data) = f;
    le32(0x0201_4b50) + le16(20) + le16(20) + le16(0) + le16(0) + le16(0) + le16(0)
        + le32(crc32_of(data)) + le32(data.len() as u32) + le32(data.len() as u32)
        + le16(name.len() as u16) + le16(0) + le16(0) + le16(0) + le16(0) + le32(0)
        + le32(offset) + name
}

/// The central directory for the first `k` of `files`.
pub open spec fn central_records(files: Seq<ZipFile>, k: int) -> Seq<u8>
    decreases k,
{
    if k <= 0 {
        Seq::empty()
    } else {
        central_records(files, k - 1) + central_record(files[k - 1], record_offset(files, k - 1))
    }
}

/// End-of-central-directory record.
pub open spec fn end_record(count: u16, cd_size: u32, cd_offset: u32) -> Seq<u8> {
    le32(0x0605_4b50) + le16(0) + le16(0) + le16(count) + le16(count) + le32(cd_size)
        + le32(cd_offset) + le16(0)
}

/// Writing the directory after the records fits the 32-bit size field (the
/// size is the wrapped end offset minus the wrapped start offset).
pub open spec fn directory_fits(files: Seq<ZipFile>) -> bool {
    let l = local_records(files).len();
    let c = central_records(files, files.len() as int).len();
    (l + c) as u32 >= l as u32
}

/// The whole archive holding `files`, in order.
pub open spec fn zip_bytes(files: Seq<ZipFile>) -> Seq<u8> {
    let l = local_records(files);
    let c = central_records(files, files.len() as int);
    l + c + end_record(files.len() as u16, ((l.len() + c.len()) as u32 - l.len() as u32) as u32, l.len() as u32)
}

struct Entry {
    name: Vec<u8>,
    crc: u32,
    size: u32,
    offset: u32,
}

/// An archive under construction.
pub struct Zip {
    buf: Vec<u8>,
    entries: Vec<Entry>,
    files: Ghost<Seq<ZipFile>>,
}

fn push_le16(buf: &mut Vec<u8>, v: u16)
    ensures
        final(buf)@ == old(buf)@ + le16(v),
{
    buf.push(v as u8);
    buf.push((v >> 8) as u8);
    assert(final(buf)@ =~= old(buf)@ + le16(v));
}

fn push_le32(buf: &mut Vec<u8>, v: u32)
    ensures
        final(buf)@ == old(buf)@ + le32(v),
{
    buf.push(v as u8);
    buf.push((v >> 8) as u8);
    buf.push((v >> 16) as u8);
    buf.push((v >> 24) as u8);
    assert(final(buf)@ =~= old(buf)@ + le32(v));
}

fn push_bytes(buf: &mut Vec<u8>, data: &[u8])
    ensures
        final(buf)@ == old(buf)@ + data@,
{
    let n = data.len();
    let mut i: usize = 0;
    while i < n
        invariant
            n == data@.len(),
            i <= n,
            buf@ == old(buf)@ + data@.take(i as int),
        decreases n - i,
    {
        buf.push(data[i]);
        assert(data@.take(i + 1) =~= data@.take(i as int).push(data@[i as int]));
        i = i + 1;
    }
    assert(data@.take(n as int) =~= data@);
}

fn push_central(buf: &mut Vec<u8>, e: &Entry, Ghost(f): Ghost<ZipFile>)
    requires
        e.name@ == f.0,
        e.crc == crc32_of(f.1),
        e.size == f.1.len() as u32,
    ensures
        final(buf)@ == old(buf)@ + central_record(f, e.offset),
{
    let ghost start = buf@;
    push_le32(buf, 0x0201_4b50);
    push_le16(buf, 20);
    push_le16(buf, 20);
    push_le16(buf, 0);
    push_le16(buf, 0);
    push_le16(buf, 0);
    push_le16(buf, 0);
    push_le32(buf, e.crc);
    push_le32(buf, e.size);
    push_le32(buf, e.size);
    push_le16(buf, e.name.len() as u16);
    push_le16(buf, 0);
    push_le16(buf, 0);
    push_le16(buf, 0);
    push_le16(buf, 0);
    push_le32(buf, 0);
    push_le32(buf, e.offset);
    push_bytes(buf, e.name.as_slice());
    assert(buf@ =~= start + central_record(f, e.offset));
}

impl Zip {
    /// The files added so far, in order.
    pub closed spec fn files(&self) -> Seq<ZipFile> {
        self.files@
    }

    pub closed spec fn wf(&self) -> bool {
        &&& self.buf@ == local_records(self.files@)
        &&& self.entries@.len() == self.files@.len()
        &&& forall|i: int| 0 <= i < self.entries@.len() ==> {
            let e = #[trigger] self.entries@[i];
            let f = self.files@[i];
            &&& e.name@ == f.0
            &&& e.crc == crc32_of(f.1)
            &&& e.size == f.1.len() as u32
            &&& e.offset == record_offset(self.files@, i)
        }
    }

    pub fn new() -> (z: Self)
        ensures
            z.wf(),
            z.files() == Seq::<ZipFile>::empty(),
    {
        Zip { buf: Vec::new(), entries: Vec::new(), files: Ghost(Seq::empty()) }
    }

    /// Append a stored (uncompressed) file.
    pub fn add(&mut self, name: &str, data: &[u8])
        requires
            old(self).wf(),
        ensures
            final(self).wf(),
            final(self).files() == old(self).files().push((name.spec_bytes(), data@)),
    {
        let ghost f: ZipFile = (name.spec_bytes(), data@);
        let ghost old_files = self.files@;
        let name_bytes = name.as_bytes();
        let crc = crc32(data);
        let size = data.len() as u32;
        let offset = self.buf.len() as u32;
        push_le32(&mut self.buf, 0x0403_4b50);
        push_le16(&mut self.buf, 20);
        push_le16(&mut self.buf, 0);
        push_le16(&mut self.buf, 0);
        push_le16(&mut self.buf, 0);
        push_le16(&mut self.buf, 0);
        push_le32(&mut self.buf, crc);
        push_le32(&mut self.buf, size);
        push_le32(&mut self.buf, size);
        push_le16(&mut self.buf, name_bytes.len() as u16);
        push_le16(&mut self.buf, 0);
        push_bytes(&mut self.buf, name_bytes);
        push_bytes(&mut self.buf, data);
        let mut name_vec: Vec<u8> = Vec::new();
        push_bytes(&mut name_vec, name_bytes);
        self.entries.push(Entry { name: name_vec, crc, size, offset });
        self.files = Ghost(old_files.push(f));
        proof {
            let files = self.files@;
            assert(files.drop_last() =~= old_files);
            assert(self.buf@ =~= local_records(files));
            assert(files.take(old_files.len() as int) =~= old_files);
            assert forall|i: int| 0 <= i < self.entries@.len() implies {
                let e = #[trigger] self.entries@[i];
                let f = self.files@[i];
                &&& e.name@ == f.0
                &&& e.crc == crc32_of(f.1)
                &&& e.size == f.1.len() as u32
                &&& e.offset == record_offset(self.files@, i)
            } by {
                if i < old_files.len() {
                    assert(files.take(i) =~= old_files.take(i));
                }
            }
        }
    }

    /// Write the central directory + end record and return the ZIP bytes.
    pub fn finish(self) -> (r: Vec<u8>)
        requires
            self.wf(),
            directory_fits(self.files()),
        ensures
            r@ == zip_bytes(self.files()),
    {
        let ghost files = self.files@;
        let mut buf = self.buf;
        let entries = self.entries;
        let cd_offset = buf.len() as u32;
        let n = entries.len();
        let mut k: usize = 0;
        while k < n
            invariant
                n == entries@.len(),
                n == files.len(),
                k <= n,
                cd_offset == local_records(files).len() as u32,
                buf@ == local_records(files) + central_records(files, k as int),
                forall|i: int| 0 <= i < entries@.len() ==> {
                    let e = #[trigger] entries@[i];
                    let f = files[i];
                    &&& e.name@ == f.0
                    &&& e.crc == crc32_of(f.1)
                    &&& e.size == f.1.len() as u32
                    &&& e.offset == record_offset(files, i)
                },
            decreases n - k,
        {
            push_central(&mut buf, &entries[k], Ghost(files[k as int]));
            assert(buf@ =~= local_records(files) + central_records(files, k + 1));
            k = k + 1;
        }
        let cd_size = buf.len() as u32 - cd_offset;
        let count = n as u16;
        push_le32(&mut buf, 0x0605_4b50);
        push_le16(&mut buf, 0);
        push_le16(&mut buf, 0);
        push_le16(&mut buf, count);
        push_le16(&mut buf, count);
        push_le32(&mut buf, cd_size);
        push_le32(&mut buf, cd_offset);
        push_le16(&mut buf, 0);
        assert(buf@ =~= zip_bytes(files));
        buf
    }
}


// ---------- the export bundle ----------

/// The archive path of an archived series' CSV: `series/<stem>.csv`.
pub open spec fn series_entry_name(stem: Seq<char>) -> Seq<char> {
    "series/"@ + stem + ".csv"@
}

/// The files of the export bundle, in order: the README, `balances.csv`,
/// then one CSV per archived series.
pub open spec fn bundle_files(balances_csv: Seq<char>, series: Seq<(String, String)>) -> Seq<ZipFile> {
    seq![
        (encode_utf8("README.txt"@), encode_utf8(README@)),
        (encode_utf8("balances.csv"@), encode_utf8(balances_csv)),
    ] + Seq::new(series.len(), |i: int| (encode_utf8(series_entry_name(series[i].0@)), encode_utf8(series[i].1@)))
}

/// The bytes the local records of `files` take.
pub open spec fn local_len(files: Seq<ZipFile>) -> nat
    decreases files.len(),
{
    if files.len() == 0 { 0 } else { local_len(files.drop_last()) + 30 + files.last().0.len() + files.last().1.len() }
}

/// The bytes the central directory of `files` takes.
pub open spec fn central_len(files: Seq<ZipFile>) -> nat
    decreases files.len(),
{
    if files.len() == 0 { 0 } else { central_len(files.drop_last()) + 46 + files.last().0.len() }
}

proof fn lemma_local_len(files: Seq<ZipFile>)
    ensures
        local_records(files).len() == local_len(files),
    decreases files.len(),
{
    if files.len() > 0 {
        lemma_local_len(files.drop_last());
    }
}

proof fn lemma_central_len(files: Seq<ZipFile>, k: int)
    requires
        0 <= k <= files.len(),
    ensures
        central_records(files, k).len() == central_len(files.take(k)),
    decreases k,
{
    if k > 0 {
        lemma_central_len(files, k - 1);
        assert(files.take(k).drop_last() =~= files.take(k - 1));
    } else {
        assert(files.take(0) =~= Seq::<ZipFile>::empty());
    }
}

proof fn lemma_len_monotone(files: Seq<ZipFile>, i: int)
    requires
        0 <= i <= files.len(),
    ensures
        local_len(files.take(i)) <= local_len(files),
        central_len(files.take(i)) <= central_len(files),
    decreases files.len() - i,
{
    if i < files.len() {
        lemma_len_monotone(files, i + 1);
        assert(files.take(i + 1).drop_last() =~= files.take(i));
    } else {
        assert(files.take(i) =~= files);
    }
}

/// Adds one file's share to the running local and central sizes, unless a
/// sum leaves `u64`.
fn add_sizes(l: u64, c: u64, name_len: usize, data_len: usize) -> (r: Option<(u64, u64)>)
    ensures
        match r {
            Some((l2, c2)) => l2 == l + 30 + name_len + data_len && c2 == c + 46 + name_len,
            None => l + 30 + name_len + data_len > u64::MAX || c + 46 + name_len > u64::MAX,
        },
{
    let l1 = match l.checked_add(30) { Some(x) => x, None => return None };
    let l2 = match l1.checked_add(name_len as u64) { Some(x) => x, None => return None };
    let l3 = match l2.checked_add(data_len as u64) { Some(x) => x, None => return None };
    let c1 = match c.checked_add(46) { Some(x) => x, None => return None };
    let c2 = match c1.checked_add(name_len as u64) { Some(x) => x, None => return None };
    Some((l3, c2))
}

/// Whether the bundle's central directory can be written: its size, taken
/// from 32-bit offsets, must not come out negative (an archive past 4 GiB
/// can break this). `false` too when the sizes do not even fit 64 bits.
pub fn bundle_fits(balances_csv: &str, series: &Vec<(String, String)>) -> (r: bool)
    ensures
        r ==> directory_fits(bundle_files(balances_csv@, series@)),
        !r ==> !directory_fits(bundle_files(balances_csv@, series@))
            || local_len(bundle_files(balances_csv@, series@)) + central_len(bundle_files(balances_csv@, series@)) > u64::MAX,
{
    let ghost files = bundle_files(balances_csv@, series@);
    proof {
        lemma_local_len(files);
        lemma_central_len(files, files.len() as int);
        assert(files.take(files.len() as int) =~= files);
    }
    assert(files.take(0) =~= Seq::<ZipFile>::empty());
    let readme = "README.txt";
    let balances = "balances.csv";
    assert(files[0] == (encode_utf8("README.txt"@), encode_utf8(README@)));
    assert(files[1] == (encode_utf8("balances.csv"@), encode_utf8(balances_csv@)));
    assert(files.take(1).drop_last() =~= files.take(0));
    assert(files.take(1).last() == files[0]);
    assert(files.take(2).drop_last() =~= files.take(1));
    assert(files.take(2).last() == files[1]);
    let (l, c) = match add_sizes(0, 0, readme.as_bytes().len(), README.as_bytes().len()) {
        Some(x) => x,
        None => {
            proof {
                lemma_len_monotone(files, 1);
            }
            return false;
        },
    };
    assert(readme.spec_bytes() == files[0].0);
    assert(README.spec_bytes() == files[0].1);
    assert(local_len(files.take(0)) == 0);
    assert(central_len(files.take(0)) == 0);
    assert(l == local_len(files.take(1)));
    assert(c == central_len(files.take(1)));
    let (mut l, mut c) = match add_sizes(l, c, balances.as_bytes().len(), balances_csv.as_bytes().len()) {
        Some(x) => x,
        None => {
            proof {
                lemma_len_monotone(files, 2);
            }
            return false;
        },
    };
    let n = series.len();
    let mut i: usize = 0;
    while i < n
        invariant
            n == series@.len(),
            files == bundle_files(balances_csv@, series@),
            files.len() == n + 2,
            i <= n,
            l == local_len(files.take(i + 2)),
            c == central_len(files.take(i + 2)),
        decreases n - i,
    {
        let (stem, csv) = &series[i];
        let mut name = String::new();
        push_str(&mut name, "series/");
        push_str(&mut name, stem.as_str());
        push_str(&mut name, ".csv");
        let name_len = name.as_str().as_bytes().len();
        let data_len = csv.as_str().as_bytes().len();
        assert(files.take(i + 3).drop_last() =~= files.take(i + 2));
        assert(name_len == files[i + 2].0.len() && data_len == files[i + 2].1.len());
        match add_sizes(l, c, name_len, data_len) {
            Some((l2, c2)) => {
                l = l2;
                c = c2;
            },
            None => {
                proof {
                    lemma_len_monotone(files, i + 3);
                }
                return false;
            },
        }
        i = i + 1;
    }
    match l.checked_add(c) {
        Some(t) => (#[verifier::truncate] (t as u32)) >= (#[verifier::truncate] (l as u32)),
        None => false,
    }
}

/// Every archive starts with a local file header (when it holds a file)
/// and ends with the end-of-central-directory record counting its files.
pub proof fn zip_framing(files: Seq<ZipFile>)
    ensures
        files.len() > 0 ==> zip_bytes(files).take(4) == le32(0x0403_4b50),
        zip_bytes(files).len() >= 22,
        zip_bytes(files).skip(zip_bytes(files).len() - 22) == end_record(
            files.len() as u16,
            ((local_records(files).len() + central_records(files, files.len() as int).len()) as u32
                - local_records(files).len() as u32) as u32,
            local_records(files).len() as u32,
        ),
{
    let l = local_records(files);
    let c = central_records(files, files.len() as int);
    let e = end_record(
        files.len() as u16,
        ((l.len() + c.len()) as u32 - l.len() as u32) as u32,
        l.len() as u32,
    );
    assert(e.len() == 22);
    assert(zip_bytes(files) == l + c + e);
    assert((l + c + e).skip((l + c + e).len() - 22) =~= e);
    if files.len() > 0 {
        lemma_first_record(files);
        assert((l + c + e).take(4) =~= l.take(4));
    }
}

proof fn lemma_first_record(files: Seq<ZipFile>)
    requires
        files.len() > 0,
    ensures
        local_records(files).len() >= 4,
        local_records(files).take(4) == le32(0x0403_4b50),
    decreases files.len(),
{
    if files.len() == 1 {
        assert(files.drop_last() =~= Seq::<ZipFile>::empty());
        let r = local_record(files.last());
        assert(local_records(files) =~= Seq::<u8>::empty() + r);
        assert(r.take(4) =~= le32(0x0403_4b50));
    } else {
        lemma_first_record(files.drop_last());
        let a = local_records(files.drop_last());
        let b = local_record(files.last());
        assert((a + b).take(4) =~= a.take(4));
    }
}

// ---------- reading an archive back ----------

/// The little-endian 16-bit value at `i`.
pub open spec fn read_u16(b: Seq<u8>, i: int) -> int {
    b[i] as int + 256 * (b[i + 1] as int)
}

/// The little-endian 32-bit value at `i`.
pub open spec fn read_u32(b: Seq<u8>, i: int) -> int {
    read_u16(b, i) + 65536 * read_u16(b, i + 2)
}

/// What a streaming reader gets from `k` local records starting at `pos`:
/// each header must carry the local-header signature; the name follows the
/// 30-byte header, then the extra field, then as many data bytes as the
/// header's size field says.
pub open spec fn read_locals(b: Seq<u8>, pos: int, k: nat) -> Option<Seq<ZipFile>>
    decreases k,
{
    if k == 0 {
        Some(Seq::empty())
    } else if pos < 0 || pos + 30 > b.len() || read_u32(b, pos) != 0x0403_4b50 {
        None
    } else {
        let name_len = read_u16(b, pos + 26);
        let extra_len = read_u16(b, pos + 28);
        let size = read_u32(b, pos + 22);
        let data_at = pos + 30 + name_len + extra_len;
        if data_at + size > b.len() {
            None
        } else {
            match read_locals(b, data_at + size, (k - 1) as nat) {
                Some(rest) => Some(seq![(b.subrange(pos + 30, pos + 30 + name_len), b.subrange(data_at, data_at + size))] + rest),
                None => None,
            }
        }
    }
}

/// What a reader gets from archive bytes: the end record (its signature
/// checked) gives the number of entries, which are then read from the
/// local records at the front.
pub open spec fn read_zip(b: Seq<u8>) -> Option<Seq<ZipFile>> {
    if b.len() < 22 || read_u32(b, b.len() - 22) != 0x0605_4b50 {
        None
    } else {
        read_locals(b, 0, read_u16(b, b.len() - 22 + 10) as nat)
    }
}

proof fn lemma_le16(b: Seq<u8>, i: int, v: u16)
    requires
        0 <= i,
        i + 2 <= b.len(),
        b.subrange(i, i + 2) == le16(v),
    ensures
        read_u16(b, i) == v,
{
    assert(b[i] == b.subrange(i, i + 2)[0] && b[i + 1] == b.subrange(i, i + 2)[1]);
    assert((v as u8) as int + 256 * (((v >> 8) as u8) as int) == v) by (bit_vector);
}

proof fn lemma_le32(b: Seq<u8>, i: int, v: u32)
    requires
        0 <= i,
        i + 4 <= b.len(),
        b.subrange(i, i + 4) == le32(v),
    ensures
        read_u32(b, i) == v,
{
    let w = b.subrange(i, i + 4);
    assert(b[i] == w[0] && b[i + 1] == w[1] && b[i + 2] == w[2] && b[i + 3] == w[3]);
    assert((v as u8) as int + 256 * (((v >> 8) as u8) as int)
        + 65536 * ((((v >> 16) as u8) as int) + 256 * (((v >> 24) as u8) as int)) == v) by (bit_vector);
}

/// The local record of `files[j]` stands at the length of the records
/// before it.
proof fn lemma_local_at(files: Seq<ZipFile>, j: int)
    requires
        0 <= j < files.len(),
    ensures
        local_records(files.take(j)).len() + local_record(files[j]).len() <= local_records(files).len(),
        local_records(files).subrange(
            local_records(files.take(j)).len() as int,
            (local_records(files.take(j)).len() + local_record(files[j]).len()) as int,
        ) == local_record(files[j]),
        local_records(files.take(j + 1)) == local_records(files.take(j)) + local_record(files[j]),
    decreases files.len(),
{
    assert(files.take(j + 1).drop_last() =~= files.take(j));
    assert(files.take(j + 1).last() == files[j]);
    if j == files.len() - 1 {
        assert(files.take(j + 1) =~= files);
        assert(files.drop_last() =~= files.take(j));
        let a = local_records(files.take(j));
        let r = local_record(files[j]);
        assert((a + r).subrange(a.len() as int, (a.len() + r.len()) as int) =~= r);
    } else {
        let d = files.drop_last();
        lemma_local_at(d, j);
        assert(d.take(j) =~= files.take(j));
        assert(d[j] == files[j]);
        assert(d.take(j + 1) =~= files.take(j + 1));
        let a = local_records(d);
        let r = local_record(files.last());
        let lo = local_records(files.take(j)).len() as int;
        let hi = lo + local_record(files[j]).len();
        assert((a + r).subrange(lo, hi) =~= a.subrange(lo, hi));
    }
}

/// A piece of a piece of `b` is a piece of `b`.
proof fn lemma_sub(b: Seq<u8>, pos: int, r: Seq<u8>, a: int, c: int)
    requires
        0 <= pos,
        pos + r.len() <= b.len(),
        b.subrange(pos, pos + r.len()) == r,
        0 <= a <= c <= r.len(),
    ensures
        b.subrange(pos + a, pos + c) == r.subrange(a, c),
{
    assert(b.subrange(pos + a, pos + c) =~= r.subrange(a, c)) by {
        assert forall|k: int| 0 <= k < c - a implies b.subrange(pos + a, pos + c)[k] == r.subrange(a, c)[k] by {
            assert(b.subrange(pos, pos + r.len())[a + k] == b[pos + a + k]);
        }
    }
}

/// The fields a reader takes from a local record.
proof fn lemma_local_fields(f: ZipFile)
    requires
        f.0.len() < 0x1_0000,
        f.1.len() < 0x1_0000_0000,
    ensures
        local_record(f).len() == 30 + f.0.len() + f.1.len(),
        local_record(f).subrange(0, 4) == le32(0x0403_4b50),
        local_record(f).subrange(22, 26) == le32(f.1.len() as u32),
        local_record(f).subrange(26, 28) == le16(f.0.len() as u16),
        local_record(f).subrange(28, 30) == le16(0),
        local_record(f).subrange(30, 30 + f.0.len() as int) == f.0,
        local_record(f).subrange(30 + f.0.len() as int, 30 + f.0.len() as int + f.1.len() as int) == f.1,
{
    let (name, data) = f;
    let hdr = le32(0x0403_4b50) + le16(20) + le16(0) + le16(0) + le16(0) + le16(0)
        + le32(crc32_of(data)) + le32(data.len() as u32) + le32(data.len() as u32)
        + le16(name.len() as u16) + le16(0);
    let r = local_record(f);
    assert(r == hdr + name + data);
    assert(r.subrange(0, 4) =~= le32(0x0403_4b50));
    assert(r.subrange(22, 26) =~= le32(data.len() as u32));
    assert(r.subrange(26, 28) =~= le16(name.len() as u16));
    assert(r.subrange(28, 30) =~= le16(0));
    assert(r.subrange(30, 30 + name.len() as int) =~= name);
    assert(r.subrange(30 + name.len() as int, 30 + name.len() as int + data.len() as int) =~= data);
}

/// What a reader takes from a local record standing at `pos`.
proof fn lemma_read_record(b: Seq<u8>, pos: int, f: ZipFile)
    requires
        0 <= pos,
        pos + local_record(f).len() <= b.len(),
        b.subrange(pos, pos + local_record(f).len()) == local_record(f),
        f.0.len() < 0x1_0000,
        f.1.len() < 0x1_0000_0000,
    ensures
        read_u32(b, pos) == 0x0403_4b50,
        read_u32(b, pos + 22) == f.1.len(),
        read_u16(b, pos + 26) == f.0.len(),
        read_u16(b, pos + 28) == 0,
        b.subrange(pos + 30, pos + 30 + f.0.len()) == f.0,
        b.subrange(pos + 30 + f.0.len(), pos + 30 + f.0.len() + f.1.len()) == f.1,
{
    let r = local_record(f);
    let n = f.0.len() as int;
    let d = f.1.len() as int;
    lemma_local_fields(f);
    lemma_sub(b, pos, r, 0, 4);
    lemma_sub(b, pos, r, 22, 26);
    lemma_sub(b, pos, r, 26, 28);
    lemma_sub(b, pos, r, 28, 30);
    lemma_sub(b, pos, r, 30, 30 + n);
    lemma_sub(b, pos, r, 30 + n, 30 + n + d);
    lemma_le32(b, pos, 0x0403_4b50);
    lemma_le32(b, pos + 22, f.1.len() as u32);
    lemma_le16(b, pos + 26, f.0.len() as u16);
    lemma_le16(b, pos + 28, 0);
}

/// A reader walking the local records from the `j`-th on reads back the
/// files from the `j`-th on.
proof fn lemma_read_from(files: Seq<ZipFile>, t: Seq<u8>, j: int)
    requires
        0 <= j <= files.len(),
        forall|i: int| 0 <= i < files.len() ==>
            (#[trigger] files[i]).0.len() < 0x1_0000 && files[i].1.len() < 0x1_0000_0000,
    ensures
        read_locals(local_records(files) + t, local_records(files.take(j)).len() as int, (files.len() - j) as nat)
            == Some(files.skip(j)),
    decreases files.len() - j,
{
    let b = local_records(files) + t;
    if j == files.len() {
        assert(files.skip(j) =~= Seq::<ZipFile>::empty());
    } else {
        let f = files[j];
        let n = f.0.len() as int;
        let d = f.1.len() as int;
        let pos = local_records(files.take(j)).len() as int;
        let next = local_records(files.take(j + 1)).len() as int;
        assert(n < 0x1_0000 && d < 0x1_0000_0000);
        assert({
            &&& next == pos + 30 + n + d
            &&& next <= b.len()
            &&& read_u32(b, pos) == 0x0403_4b50
            &&& read_u32(b, pos + 22) == d
            &&& read_u16(b, pos + 26) == n
            &&& read_u16(b, pos + 28) == 0
            &&& b.subrange(pos + 30, pos + 30 + n) == f.0
            &&& b.subrange(pos + 30 + n, pos + 30 + n + d) == f.1
        }) by {
            lemma_local_at(files, j);
            lemma_local_fields(f);
            let r = local_record(f);
            assert(b.subrange(pos, pos + r.len()) =~= local_records(files).subrange(pos, pos + r.len()));
            lemma_read_record(b, pos, f);
        }
        lemma_read_from(files, t, j + 1);
        assert(files.skip(j) =~= seq![f] + files.skip(j + 1));
        assert(read_locals(b, pos, (files.len() - j) as nat)
            == Some(seq![(f.0, f.1)] + files.skip(j + 1)));
    }
}

/// An archive reads back as the files written into it: a reader that takes
/// the entry count from the end record and walks the local records (their
/// signature, name length, extra length and size) gets exactly the added
/// `(name, data)` pairs, in order, whenever the count, each name length and
/// each size fit their fields.
pub proof fn zip_reads_back(files: Seq<ZipFile>)
    requires
        files.len() < 0x1_0000,
        forall|i: int| 0 <= i < files.len() ==>
            (#[trigger] files[i]).0.len() < 0x1_0000 && files[i].1.len() < 0x1_0000_0000,
    ensures
        read_zip(zip_bytes(files)) == Some(files),
{
    let l = local_records(files);
    let c = central_records(files, files.len() as int);
    let e = end_record(
        files.len() as u16,
        ((l.len() + c.len()) as u32 - l.len() as u32) as u32,
        l.len() as u32,
    );
    let b = zip_bytes(files);
    assert(b == l + (c + e));
    assert(e.len() == 22);
    let at = b.len() - 22;
    assert(b.subrange(at, at + 4) =~= le32(0x0605_4b50));
    assert(b.subrange(at + 10, at + 12) =~= le16(files.len() as u16));
    lemma_le32(b, at, 0x0605_4b50);
    lemma_le16(b, at + 10, files.len() as u16);
    lemma_read_from(files, c + e, 0);
    assert(files.take(0) =~= Seq::<ZipFile>::empty());
    assert(files.skip(0) =~= files);
}

/// Build the export ZIP in memory from the balances CSV and the archived
/// series CSVs (`(file stem, CSV)` pairs), and return its bytes.
pub fn build_bundle(balances_csv: &str, series: &Vec<(String, String)>) -> (r: Vec<u8>)
    requires
        directory_fits(bundle_files(balances_csv@, series@)),
    ensures
        r@ == zip_bytes(bundle_files(balances_csv@, series@)),
{
    let ghost files = bundle_files(balances_csv@, series@);
    let mut zip = Zip::new();
    zip.add("README.txt", README.as_bytes());
    zip.add("balances.csv", balances_csv.as_bytes());
    let n = series.len();
    let mut i: usize = 0;
    while i < n
        invariant
            n == series@.len(),
            i <= n,
            files == bundle_files(balances_csv@, series@),
            zip.wf(),
            zip.files() == files.take(i + 2),
        decreases n - i,
    {
        let (stem, csv) = &series[i];
        let mut name = String::new();
        push_str(&mut name, "series/");
        push_str(&mut name, stem.as_str());
        push_str(&mut name, ".csv");
        zip.add(name.as_str(), csv.as_str().as_bytes());
        assert(files.take(i + 3) =~= files.take(i + 2).push(files[i + 2]));
        i = i + 1;
    }
    assert(files.take(n + 2) =~= files);
    zip.finish()
}

} // verus!
