//! The decisions behind the local HTTP API.
//!
//! The server runs provider CLIs, so it answers only requests whose Host
//! header names the loopback interface (a DNS-rebinding guard). Each endpoint
//! looks a provider and one of its manifest entries up, builds the argv it
//! runs, and shapes the answer; the HTTP plumbing, the process spawning and
//! the file system belong to the application around this library.

use vstd::prelude::*;

use crate::install::{
    command_line, install_argv, install_command, lemma_strings_view_push, next_after, problem_text, running_in,
    strings_view, InstallProblem,
    InstallTasks, TaskState,
};
use crate::manifest::{Auth, Document, Install, Manifest, Operation, Provider, Series, SetupInput, Source};
use crate::check::applescript_escaped;
use crate::text::{
    chars_of, decimal, first_index, first_pos, last_index, last_pos, push_decimal, push_str, str_eq, string_of, trim,
    trim_bounds,
};

pub use crate::check::applescript_escape;

verus! {

/// The shared state of a running server: the install task table.
pub struct App {
    pub tasks: InstallTasks,
}

impl App {
    /// A server with no install tasks yet.
    pub fn new() -> (a: App)
        ensures
            a.tasks.wf(),
            a.tasks.table() == Map::<u64, crate::install::TaskView>::empty(),
            a.tasks.next() == 0,
    {
        App { tasks: InstallTasks::new() }
    }
}

/// A refused request: the HTTP status and the message sent back.
pub struct ApiError {
    pub status: u16,
    pub message: String,
}

// ---------- the Host check ----------

/// A Host header without its port: for the bracketed IPv6 form `[::1]:port`
/// what lies inside the brackets, otherwise what precedes the last `:`.
pub open spec fn bare_host(h: Seq<char>) -> Seq<char> {
    if h.len() > 0 && h[0] == '[' {
        h.drop_first().take(first_pos(h.drop_first(), ']') as int)
    } else if last_pos(h, ':') < 0 {
        h
    } else {
        h.take(last_pos(h, ':'))
    }
}

/// The Host header names this machine.
pub open spec fn local_host(h: Seq<char>) -> bool {
    let b = bare_host(h);
    b == "localhost"@ || b == "127.0.0.1"@ || b == "::1"@
}

/// Whether a request with this Host header may be served: only the
/// loopback names `localhost`, `127.0.0.1` and `::1`, with any port.
pub fn is_local_host(host: &str) -> (r: bool)
    ensures
        r == local_host(host@),
{
    let v = chars_of(host);
    let bare: String = if v.len() > 0 && v[0] == '[' {
        let j = first_index(&v, 1, ']');
        proof {
            assert(v@.skip(1) =~= v@.drop_first());
            assert(v@.subrange(1, j as int) =~= v@.drop_first().take(j - 1));
        }
        string_of(&v, 1, j)
    } else {
        match last_index(&v, ':') {
            Some(i) => {
                assert(v@.subrange(0, i as int) =~= v@.take(i as int));
                string_of(&v, 0, i)
            },
            None => {
                assert(v@.subrange(0, v@.len() as int) =~= v@);
                string_of(&v, 0, v.len())
            },
        }
    };
    str_eq(bare.as_str(), "localhost") || str_eq(bare.as_str(), "127.0.0.1") || str_eq(bare.as_str(), "::1")
}

// ---------- trimming long output ----------

/// How many bytes UTF-8 spends on `c`.
pub open spec fn utf8_len(c: char) -> nat {
    let u = c as u32;
    if u < 0x80 { 1 } else if u < 0x800 { 2 } else if u < 0x10000 { 3 } else { 4 }
}

/// The UTF-8 length of `s` in bytes (`str::len`).
pub open spec fn utf8_bytes(s: Seq<char>) -> nat
    decreases s.len(),
{
    if s.len() == 0 { 0 } else { utf8_len(s[0]) + utf8_bytes(s.drop_first()) }
}

/// How many leading characters must go for the rest to fit in `max` bytes.
pub open spec fn tail_start(s: Seq<char>, max: nat) -> nat
    decreases s.len(),
{
    if s.len() == 0 || utf8_bytes(s) <= max { 0 } else { 1 + tail_start(s.drop_first(), max) }
}

/// The end of `s` that fits in `max` bytes, marked with a leading `…` when
/// anything was cut.
pub open spec fn tail_text(s: Seq<char>, max: nat) -> Seq<char> {
    if utf8_bytes(s) <= max { s } else { "…"@ + s.skip(tail_start(s, max) as int) }
}

fn utf8_len_exec(c: char) -> (r: usize)
    ensures
        r == utf8_len(c),
{
    let u = c as u32;
    if u < 0x80 { 1 } else if u < 0x800 { 2 } else if u < 0x10000 { 3 } else { 4 }
}

proof fn lemma_bytes_step(s: Seq<char>, i: int)
    requires
        0 <= i < s.len(),
    ensures
        utf8_bytes(s.skip(i)) == utf8_len(s[i]) + utf8_bytes(s.skip(i + 1)),
{
    assert(s.skip(i).drop_first() =~= s.skip(i + 1));
}

proof fn lemma_bytes_skip_le(s: Seq<char>, k: int)
    requires
        0 <= k <= s.len(),
    ensures
        utf8_bytes(s.skip(k)) <= utf8_bytes(s),
    decreases k,
{
    if k > 0 {
        lemma_bytes_skip_le(s, k - 1);
        lemma_bytes_step(s, k - 1);
    } else {
        assert(s.skip(0) =~= s);
    }
}

proof fn lemma_tail_start(s: Seq<char>, max: nat, i: int)
    requires
        0 < i <= s.len(),
        utf8_bytes(s.skip(i)) <= max,
        utf8_bytes(s.skip(i - 1)) > max,
    ensures
        tail_start(s, max) == i,
    decreases i,
{
    lemma_bytes_skip_le(s, i - 1);
    assert(s.drop_first().skip(i - 1) =~= s.skip(i));
    if i > 1 {
        assert(s.drop_first().skip(i - 2) =~= s.skip(i - 1));
        lemma_tail_start(s.drop_first(), max, i - 1);
    } else {
        assert(s.skip(1) =~= s.drop_first());
    }
}

/// The last `max` bytes of `s` or fewer, cut at a character boundary and
/// prefixed with `…` when anything was dropped.
pub fn tail(s: &str, max: usize) -> (r: String)
    ensures
        r@ == tail_text(s@, max as nat),
{
    let v = chars_of(s);
    let mut i = v.len();
    let mut acc: usize = 0;
    assert(v@.skip(v@.len() as int) =~= Seq::<char>::empty());
    loop
        invariant
            v@ == s@,
            i <= v@.len(),
            acc == utf8_bytes(v@.skip(i as int)),
            acc <= max,
        ensures
            i <= v@.len(),
            acc == utf8_bytes(v@.skip(i as int)),
            acc <= max,
            i > 0 ==> utf8_bytes(v@.skip(i - 1)) > max,
        decreases i,
    {
        if i == 0 {
            break;
        }
        let l = utf8_len_exec(v[i - 1]);
        proof {
            lemma_bytes_step(v@, i - 1);
        }
        if l > max - acc {
            break;
        }
        acc = acc + l;
        i = i - 1;
    }
    if i == 0 {
        assert(v@.skip(0) =~= v@);
        return string_of(&v, 0, v.len());
    }
    proof {
        lemma_tail_start(v@, max as nat, i as int);
        lemma_bytes_skip_le(v@, i - 1);
        assert(v@.subrange(i as int, v@.len() as int) =~= v@.skip(i as int));
    }
    let mut out = String::new();
    push_str(&mut out, "…");
    let rest = string_of(&v, i, v.len());
    push_str(&mut out, rest.as_str());
    out
}

proof fn lemma_bytes_concat(a: Seq<char>, b: Seq<char>)
    ensures
        utf8_bytes(a + b) == utf8_bytes(a) + utf8_bytes(b),
    decreases a.len(),
{
    if a.len() > 0 {
        assert((a + b).drop_first() =~= a.drop_first() + b);
        lemma_bytes_concat(a.drop_first(), b);
    } else {
        assert(a + b =~= b);
    }
}

proof fn lemma_tail_start_fits(s: Seq<char>, max: nat)
    ensures
        tail_start(s, max) <= s.len(),
        utf8_bytes(s.skip(tail_start(s, max) as int)) <= max,
    decreases s.len(),
{
    if s.len() == 0 || utf8_bytes(s) <= max {
        assert(s.skip(0) =~= s);
    } else {
        lemma_tail_start_fits(s.drop_first(), max);
        assert(s.drop_first().skip(tail_start(s.drop_first(), max) as int) =~= s.skip(tail_start(s, max) as int));
    }
}

/// What `tail` keeps is never longer than `max` bytes plus the three bytes
/// of the `…` that marks a cut, and ends the way the input ends.
pub proof fn tail_fits(s: Seq<char>, max: nat)
    ensures
        utf8_bytes(tail_text(s, max)) <= max + 3,
        exists|k: int| 0 <= k <= s.len() && tail_text(s, max).len() >= s.len() - k
            && tail_text(s, max).skip(tail_text(s, max).len() - (s.len() - k)) == s.skip(k),
{
    if utf8_bytes(s) <= max {
        assert(s.skip(0) =~= s);
        assert(tail_text(s, max).skip(0) =~= s.skip(0));
    } else {
        let k = tail_start(s, max) as int;
        lemma_tail_start_fits(s, max);
        reveal_strlit("…");
        let e = "…"@;
        assert(e =~= seq!['…']);
        assert(utf8_bytes(e) == 3) by {
            assert(e.len() == 1);
            assert(e[0] == '…');
            assert(('…' as u32) == 0x2026u32);
            assert(utf8_len(e[0]) == 3);
            assert(e.drop_first() =~= Seq::<char>::empty());
            assert(utf8_bytes(e.drop_first()) == 0);
        }
        lemma_bytes_concat(e, s.skip(k));
        let t = tail_text(s, max);
        assert(t.skip(t.len() - (s.len() - k)) =~= s.skip(k));
    }
}

// ---------- documents ----------

/// What follows the last `.` of a file name (all of it when there is none).
pub open spec fn extension(name: Seq<char>) -> Seq<char> {
    if last_pos(name, '.') < 0 { name } else { name.skip(last_pos(name, '.') + 1) }
}

/// The Content-Type a document is served with, by its extension.
pub open spec fn content_type_text(name: Seq<char>) -> Seq<char> {
    let e = extension(name);
    if e == "pdf"@ {
        "application/pdf"@
    } else if e == "csv"@ {
        "text/csv"@
    } else if e == "json"@ {
        "application/json"@
    } else if e == "txt"@ {
        "text/plain"@
    } else {
        "application/octet-stream"@
    }
}

pub fn content_type_for(filename: &str) -> (r: &'static str)
    ensures
        r@ == content_type_text(filename@),
{
    let v = chars_of(filename);
    let n = v.len();
    let ext: String = match last_index(&v, '.') {
        Some(i) => {
            assert(i < n);
            assert(v@.subrange(i + 1, v@.len() as int) =~= v@.skip(i + 1));
            string_of(&v, i + 1, v.len())
        },
        None => {
            assert(v@.subrange(0, v@.len() as int) =~= v@);
            string_of(&v, 0, v.len())
        },
    };
    if str_eq(ext.as_str(), "pdf") {
        "application/pdf"
    } else if str_eq(ext.as_str(), "csv") {
        "text/csv"
    } else if str_eq(ext.as_str(), "json") {
        "application/json"
    } else if str_eq(ext.as_str(), "txt") {
        "text/plain"
    } else {
        "application/octet-stream"
    }
}

/// The Content-Disposition header that offers `filename` as a download.
pub fn content_disposition(filename: &str) -> (r: String)
    ensures
        r@ == "attachment; filename=\""@ + filename@ + "\""@,
{
    let mut s = String::new();
    push_str(&mut s, "attachment; filename=\"");
    push_str(&mut s, filename);
    push_str(&mut s, "\"");
    s
}

// ---------- refusals ----------

/// `"no provider <id>"`, 404.
pub fn no_provider(id: &str) -> (e: ApiError)
    ensures
        e.status == 404,
        e.message@ == "no provider "@ + id@,
{
    let mut m = String::new();
    push_str(&mut m, "no provider ");
    push_str(&mut m, id);
    ApiError { status: 404, message: m }
}

/// `"<id> has no <what>"`, 400: the manifest leaves out what was asked for.
pub fn lacks(id: &str, what: &str) -> (e: ApiError)
    ensures
        e.status == 400,
        e.message@ == id@ + " has no "@ + what@,
{
    let mut m = String::new();
    push_str(&mut m, id);
    push_str(&mut m, " has no ");
    push_str(&mut m, what);
    ApiError { status: 400, message: m }
}

/// `"<id> has no <kind> <item>"`, 404: no manifest entry with that id.
pub fn missing(id: &str, kind: &str, item: &str) -> (e: ApiError)
    ensures
        e.status == 404,
        e.message@ == id@ + " has no "@ + kind@ + " "@ + item@,
{
    let mut m = String::new();
    push_str(&mut m, id);
    push_str(&mut m, " has no ");
    push_str(&mut m, kind);
    push_str(&mut m, " ");
    push_str(&mut m, item);
    ApiError { status: 404, message: m }
}

/// `"<binary> is not installed"`, 409.
pub fn not_installed(binary: &str) -> (e: ApiError)
    ensures
        e.status == 409,
        e.message@ == binary@ + " is not installed"@,
{
    let mut m = String::new();
    push_str(&mut m, binary);
    push_str(&mut m, " is not installed");
    ApiError { status: 409, message: m }
}

// ---------- lookups ----------

/// A manifest entry addressed by id in the API's paths.
pub trait Identified {
    spec fn key(&self) -> Seq<char>;

    fn id_str(&self) -> (r: &str)
        ensures
            r@ == self.key(),
    ;
}

impl Identified for Series {
    open spec fn key(&self) -> Seq<char> {
        self.id@
    }

    fn id_str(&self) -> (r: &str) {
        self.id.as_str()
    }
}

impl Identified for Document {
    open spec fn key(&self) -> Seq<char> {
        self.id@
    }

    fn id_str(&self) -> (r: &str) {
        self.id.as_str()
    }
}

impl Identified for Operation {
    open spec fn key(&self) -> Seq<char> {
        self.id@
    }

    fn id_str(&self) -> (r: &str) {
        self.id.as_str()
    }
}

impl Identified for SetupInput {
    open spec fn key(&self) -> Seq<char> {
        self.id@
    }

    fn id_str(&self) -> (r: &str) {
        self.id.as_str()
    }
}

/// `x` is the first entry of `items` whose id is `key`.
pub open spec fn first_with<T: Identified>(items: Seq<T>, key: Seq<char>, x: T) -> bool {
    exists|i: int| 0 <= i < items.len() && items[i] == x && x.key() == key
        && forall|j: int| 0 <= j < i ==> (#[trigger] items[j]).key() != key
}

/// No entry of `items` has id `key`.
pub open spec fn none_with<T: Identified>(items: Seq<T>, key: Seq<char>) -> bool {
    forall|j: int| 0 <= j < items.len() ==> (#[trigger] items[j]).key() != key
}

/// The first entry with id `key`.
pub fn find_by_id<'a, T: Identified>(items: &'a Vec<T>, key: &str) -> (r: Option<&'a T>)
    ensures
        match r {
            Some(x) => first_with(items@, key@, *x),
            None => none_with(items@, key@),
        },
{
    let mut i: usize = 0;
    while i < items.len()
        invariant
            i <= items@.len(),
            forall|j: int| 0 <= j < i ==> (#[trigger] items@[j]).key() != key@,
        decreases items@.len() - i,
    {
        let x = &items[i];
        if str_eq(x.id_str(), key) {
            return Some(x);
        }
        i = i + 1;
    }
    None
}

/// The series `sid` of provider `id`, or `"<id> has no series <sid>"`.
pub fn lookup_series<'a>(m: &'a Manifest, id: &str, sid: &str) -> (r: Result<&'a Series, ApiError>)
    ensures
        match r {
            Ok(x) => first_with(m.series@, sid@, *x),
            Err(e) => none_with(m.series@, sid@) && e.status == 404
                && e.message@ == id@ + " has no "@ + "series"@ + " "@ + sid@,
        },
{
    match find_by_id(&m.series, sid) {
        Some(x) => Ok(x),
        None => Err(missing(id, "series", sid)),
    }
}

/// The document `docid` of provider `id`, or `"<id> has no document <docid>"`.
pub fn lookup_document<'a>(m: &'a Manifest, id: &str, docid: &str) -> (r: Result<&'a Document, ApiError>)
    ensures
        match r {
            Ok(x) => first_with(m.documents@, docid@, *x),
            Err(e) => none_with(m.documents@, docid@) && e.status == 404
                && e.message@ == id@ + " has no "@ + "document"@ + " "@ + docid@,
        },
{
    match find_by_id(&m.documents, docid) {
        Some(x) => Ok(x),
        None => Err(missing(id, "document", docid)),
    }
}

/// The operation `opid` of provider `id`, or `"<id> has no operation <opid>"`.
pub fn lookup_operation<'a>(m: &'a Manifest, id: &str, opid: &str) -> (r: Result<&'a Operation, ApiError>)
    ensures
        match r {
            Ok(x) => first_with(m.operations@, opid@, *x),
            Err(e) => none_with(m.operations@, opid@) && e.status == 404
                && e.message@ == id@ + " has no "@ + "operation"@ + " "@ + opid@,
        },
{
    match find_by_id(&m.operations, opid) {
        Some(x) => Ok(x),
        None => Err(missing(id, "operation", opid)),
    }
}

/// The setup input `setup_id` of provider `id`, or `"<id> has no setup <setup_id>"`.
pub fn lookup_setup<'a>(m: &'a Manifest, id: &str, setup_id: &str) -> (r: Result<&'a SetupInput, ApiError>)
    ensures
        match r {
            Ok(x) => first_with(m.setup@, setup_id@, *x),
            Err(e) => none_with(m.setup@, setup_id@) && e.status == 404
                && e.message@ == id@ + " has no "@ + "setup"@ + " "@ + setup_id@,
        },
{
    match find_by_id(&m.setup, setup_id) {
        Some(x) => Ok(x),
        None => Err(missing(id, "setup", setup_id)),
    }
}

// ---------- argv building ----------

fn text(s: &str) -> (r: String)
    ensures
        r@ == s@,
{
    String::from_str(s)
}

/// A copy of `v`, string by string.
fn clone_strings(v: &Vec<String>) -> (r: Vec<String>)
    ensures
        strings_view(r@) == strings_view(v@),
{
    let mut r: Vec<String> = Vec::new();
    let mut i: usize = 0;
    while i < v.len()
        invariant
            i <= v@.len(),
            strings_view(r@) == strings_view(v@).take(i as int),
        decreases v@.len() - i,
    {
        let c = v[i].clone();
        proof {
            lemma_strings_view_push(r@, c);
            assert(strings_view(v@).take(i + 1) =~= strings_view(v@).take(i as int).push(v@[i as int]@));
        }
        r.push(c);
        i = i + 1;
    }
    assert(strings_view(v@).take(v@.len() as int) =~= strings_view(v@));
    r
}

/// The hint shown with a failed summary: the login command when the
/// provider requires signing in and has one, else its setup command.
pub open spec fn hint_text(m: Manifest) -> Option<Seq<char>> {
    let login = match m.auth {
        Some(a) => if a.required {
            match a.login_command { Some(c) => Some(c@), None => None }
        } else {
            None
        },
        None => None,
    };
    match login {
        Some(c) => Some(c),
        None => match m.setup_command { Some(c) => Some(c@), None => None },
    }
}

pub fn summary_hint(m: &Manifest) -> (r: Option<String>)
    ensures
        match r { Some(h) => hint_text(*m) == Some(h@), None => hint_text(*m) is None },
{
    if let Some(a) = &m.auth {
        if a.required {
            if let Some(c) = &a.login_command {
                return Some(c.clone());
            }
        }
    }
    match &m.setup_command {
        Some(c) => Some(c.clone()),
        None => None,
    }
}

/// The argv a setup input runs with `value` (trimmed) appended as a single
/// trailing word; a blank value is refused with `"<name> requires a value"`.
pub fn setup_argv(input: &SetupInput, value: &str) -> (r: Result<Vec<String>, ApiError>)
    ensures
        trim(value@).len() == 0 ==> (r matches Err(e) && e.status == 400
            && e.message@ == input.name@ + " requires a value"@),
        trim(value@).len() > 0 ==> (r matches Ok(v)
            && strings_view(v@) == strings_view(input.args@).push(trim(value@))),
{
    let cv = chars_of(value);
    let (a, b) = trim_bounds(&cv, 0, cv.len());
    assert(cv@.subrange(0, cv@.len() as int) =~= cv@);
    if a == b {
        let mut m = String::new();
        push_str(&mut m, input.name.as_str());
        push_str(&mut m, " requires a value");
        return Err(ApiError { status: 400, message: m });
    }
    let mut v = clone_strings(&input.args);
    let word = string_of(&cv, a, b);
    v.push(word);
    assert(strings_view(v@) =~= strings_view(input.args@).push(trim(value@)));
    Ok(v)
}

/// The argv a document command runs: its args, then its output flag and the
/// path the file is to be written to.
pub fn document_argv(doc: &Document, out_path: &str) -> (r: Vec<String>)
    ensures
        strings_view(r@) == strings_view(doc.args@).push(doc.out_flag@).push(out_path@),
{
    let mut v = clone_strings(&doc.args);
    v.push(doc.out_flag.clone());
    v.push(text(out_path));
    assert(strings_view(v@) =~= strings_view(doc.args@).push(doc.out_flag@).push(out_path@));
    v
}

/// The temporary file name a document is written to:
/// `utiman-<id>-<pid>-<filename>`.
pub fn temp_file_name(id: &str, pid: u32, filename: &str) -> (r: String)
    ensures
        r@ == "utiman-"@ + id@ + "-"@ + decimal(pid as nat) + "-"@ + filename@,
{
    let mut s = String::new();
    push_str(&mut s, "utiman-");
    push_str(&mut s, id);
    push_str(&mut s, "-");
    push_decimal(&mut s, pid as u64);
    push_str(&mut s, "-");
    push_str(&mut s, filename);
    s
}

/// How a document download ended: the command failed (502, with the end of
/// its stderr), or it succeeded without writing the file (502), or `None`
/// when the file can be served.
pub fn document_failure(ok: bool, produced: bool, stderr: &str) -> (r: Option<ApiError>)
    ensures
        !ok ==> (r matches Some(e) && e.status == 502
            && e.message@ == "document command failed: "@ + tail_text(stderr@, 500)),
        ok && !produced ==> (r matches Some(e) && e.status == 502
            && e.message@ == "command succeeded but produced no file"@),
        ok && produced ==> r is None,
{
    if !ok {
        let mut m = String::new();
        push_str(&mut m, "document command failed: ");
        let t = tail(stderr, 500);
        push_str(&mut m, t.as_str());
        return Some(ApiError { status: 502, message: m });
    }
    if !produced {
        return Some(ApiError { status: 502, message: text("command succeeded but produced no file") });
    }
    None
}

// ---------- install and update ----------

/// The argv an install request runs: the installed CLI updating itself
/// (its `self-update-args`, by default `self-update`), or, when it is not
/// installed, the manifest's install command; or the message it is
/// refused with.
pub open spec fn install_plan_of(spec: Install, installed: Option<Seq<char>>) -> Result<Seq<Seq<char>>, Seq<char>> {
    match installed {
        Some(bin) => Ok(seq![bin] + match spec.self_update_args {
            Some(a) => strings_view(a@),
            None => seq!["self-update"@],
        }),
        None => match install_command(spec) {
            None => Err(problem_text(InstallProblem::UnknownKind(spec.kind@))),
            Some(argv) => if argv.len() == 0 {
                Err(problem_text(InstallProblem::EmptyCommand))
            } else {
                Ok(argv)
            },
        },
    }
}

pub open spec fn opt_view(o: Option<&str>) -> Option<Seq<char>> {
    match o { Some(s) => Some(s@), None => None }
}

/// The argv of an install request, `installed` being the CLI's path when
/// it is on the PATH. A spec that builds no command is refused with 400.
pub fn install_plan(spec: &Install, installed: Option<&str>) -> (r: Result<Vec<String>, ApiError>)
    ensures
        match install_plan_of(*spec, opt_view(installed)) {
            Ok(argv) => r matches Ok(v) && strings_view(v@) == argv,
            Err(msg) => r matches Err(e) && e.status == 400 && e.message@ == msg,
        },
{
    match installed {
        Some(bin) => {
            let mut v: Vec<String> = Vec::new();
            v.push(text(bin));
            match &spec.self_update_args {
                Some(a) => {
                    let mut i: usize = 0;
                    while i < a.len()
                        invariant
                            i <= a@.len(),
                            strings_view(v@) == seq![bin@] + strings_view(a@).take(i as int),
                        decreases a@.len() - i,
                    {
                        let c = a[i].clone();
                        proof {
                            lemma_strings_view_push(v@, c);
                            assert(seq![bin@] + strings_view(a@).take(i + 1)
                                =~= (seq![bin@] + strings_view(a@).take(i as int)).push(a@[i as int]@));
                        }
                        v.push(c);
                        i = i + 1;
                    }
                    assert(strings_view(a@).take(a@.len() as int) =~= strings_view(a@));
                },
                None => {
                    v.push(text("self-update"));
                    assert(strings_view(v@) =~= seq![bin@] + seq!["self-update"@]);
                },
            }
            Ok(v)
        },
        None => match install_argv(spec) {
            Ok(v) => Ok(v),
            Err(e) => Err(ApiError { status: 400, message: e.message() }),
        },
    }
}

/// An install request for provider `id`: refused with 400 when the manifest
/// has no install spec or it builds no command, with 409 while an install
/// for the provider is running; otherwise the task is started and its id
/// returned with the argv it is to run.
pub fn begin_install(app: &mut App, id: &str, spec: Option<&Install>, installed: Option<&str>) -> (r: Result<(u64, Vec<String>), ApiError>)
    requires
        old(app).tasks.wf(),
    ensures
        final(app).tasks.wf(),
        match spec {
            None => r matches Err(e) && e.status == 400 && e.message@ == id@ + " has no "@ + "install spec"@
                && final(app).tasks.table() == old(app).tasks.table()
                && final(app).tasks.next() == old(app).tasks.next(),
            Some(s) => match install_plan_of(*s, opt_view(installed)) {
                Err(msg) => r matches Err(e) && e.status == 400 && e.message@ == msg
                    && final(app).tasks.table() == old(app).tasks.table()
                    && final(app).tasks.next() == old(app).tasks.next(),
                Ok(argv) => if running_in(old(app).tasks.table(), id@) {
                    &&& r matches Err(e) && e.status == 409
                        && e.message@ == problem_text(InstallProblem::AlreadyRunning(id@))
                    &&& final(app).tasks.table() == old(app).tasks.table()
                    &&& final(app).tasks.next() == old(app).tasks.next()
                } else if argv.len() == 0 {
                    &&& r matches Err(e) && e.status == 409
                        && e.message@ == problem_text(InstallProblem::EmptyCommand)
                    &&& final(app).tasks.table() == old(app).tasks.table()
                    &&& final(app).tasks.next() == old(app).tasks.next()
                } else {
                    &&& r matches Ok((task, v)) && task == old(app).tasks.next() && strings_view(v@) == argv
                    &&& final(app).tasks.table() == old(app).tasks.table().insert(
                        old(app).tasks.next(),
                        (id@, TaskState::Running, command_line(argv)),
                    )
                    &&& final(app).tasks.next() == next_after(old(app).tasks.next())
                },
            },
        },
{
    let spec = match spec {
        Some(s) => s,
        None => return Err(lacks(id, "install spec")),
    };
    let argv = match install_plan(spec, installed) {
        Ok(v) => v,
        Err(e) => return Err(e),
    };
    match app.tasks.start(id, &argv) {
        Ok(task) => Ok((task, argv)),
        Err(e) => Err(ApiError { status: 409, message: e.message() }),
    }
}

/// The argv of an update check: the manifest's `update-check-args`, by
/// default `self-update --check --json`.
pub fn update_check_args(install: &Install) -> (r: Vec<String>)
    ensures
        strings_view(r@) == match install.update_check_args {
            Some(a) => strings_view(a@),
            None => seq!["self-update"@, "--check"@, "--json"@],
        },
{
    match &install.update_check_args {
        Some(a) => clone_strings(a),
        None => {
            let v = vec![text("self-update"), text("--check"), text("--json")];
            assert(strings_view(v@) =~= seq!["self-update"@, "--check"@, "--json"@]);
            v
        },
    }
}

// ---------- signing in ----------

/// The argv of an auth-status probe (by default `auth status --json`) and
/// the dot-path of its "signed in" field (by default `authenticated`).
pub fn auth_probe(auth: &Auth) -> (r: (Vec<String>, String))
    ensures
        strings_view(r.0@) == match auth.status_args {
            Some(a) => strings_view(a@),
            None => seq!["auth"@, "status"@, "--json"@],
        },
        r.1@ == match auth.authenticated_field {
            Some(f) => f@,
            None => "authenticated"@,
        },
{
    let args = match &auth.status_args {
        Some(a) => clone_strings(a),
        None => {
            let v = vec![text("auth"), text("status"), text("--json")];
            assert(strings_view(v@) =~= seq!["auth"@, "status"@, "--json"@]);
            v
        },
    };
    let field = match &auth.authenticated_field {
        Some(f) => f.clone(),
        None => text("authenticated"),
    };
    (args, field)
}

/// The sign-in state reported for what the probe's field said.
pub fn auth_state(authed: Option<bool>) -> (r: &'static str)
    ensures
        r@ == match authed {
            Some(true) => "authenticated"@,
            Some(false) => "unauthenticated"@,
            None => "unknown"@,
        },
{
    match authed {
        Some(true) => "authenticated",
        Some(false) => "unauthenticated",
        None => "unknown",
    }
}

/// The provider's interactive login command, or `"<id> has no login command"`.
pub fn login_command(m: &Manifest, id: &str) -> (r: Result<String, ApiError>)
    ensures
        match m.auth {
            Some(a) => match a.login_command {
                Some(c) => r matches Ok(s) && s@ == c@,
                None => r matches Err(e) && e.status == 400 && e.message@ == id@ + " has no "@ + "login command"@,
            },
            None => r matches Err(e) && e.status == 400 && e.message@ == id@ + " has no "@ + "login command"@,
        },
{
    if let Some(a) = &m.auth {
        if let Some(c) = &a.login_command {
            return Ok(c.clone());
        }
    }
    Err(lacks(id, "login command"))
}

/// The AppleScript that opens Terminal running `cmd`.
pub fn login_script(cmd: &str) -> (r: String)
    ensures
        r@ == "tell application \"Terminal\"\nactivate\ndo script \""@ + applescript_escaped(cmd@)
            + "\"\nend tell"@,
{
    let mut s = String::new();
    push_str(&mut s, "tell application \"Terminal\"\nactivate\ndo script \"");
    let e = applescript_escape(cmd);
    push_str(&mut s, e.as_str());
    push_str(&mut s, "\"\nend tell");
    s
}

/// The refusal where no terminal can be opened: run the command yourself.
pub fn login_unsupported(cmd: &str) -> (e: ApiError)
    ensures
        e.status == 501,
        e.message@ == "opening a terminal isn't wired up on this platform yet \u{2014} run `"@ + cmd@
            + "` yourself"@,
{
    let mut m = String::new();
    push_str(&mut m, "opening a terminal isn't wired up on this platform yet \u{2014} run `");
    push_str(&mut m, cmd);
    push_str(&mut m, "` yourself");
    ApiError { status: 501, message: m }
}

// ---------- paying ----------

/// The argv that opens the provider's pay page, or `"<id> has no pay open-args"`.
pub fn pay_args(m: &Manifest, id: &str) -> (r: Result<Vec<String>, ApiError>)
    ensures
        match m.pay {
            Some(p) => match p.open_args {
                Some(a) => r matches Ok(v) && strings_view(v@) == strings_view(a@),
                None => r matches Err(e) && e.status == 400 && e.message@ == id@ + " has no "@ + "pay open-args"@,
            },
            None => r matches Err(e) && e.status == 400 && e.message@ == id@ + " has no "@ + "pay open-args"@,
        },
{
    if let Some(p) = &m.pay {
        if let Some(a) = &p.open_args {
            return Ok(clone_strings(a));
        }
    }
    Err(lacks(id, "pay open-args"))
}

// ---------- registering and removing ----------

/// A new manifest may not replace a provider with the same id unless asked
/// to: `"provider <id> already exists (set overwrite to replace)"`, 409.
pub fn register_conflict(providers: &Vec<Provider>, id: &str, overwrite: bool) -> (r: Option<ApiError>)
    ensures
        ((exists|i: int| 0 <= i < providers@.len() && (#[trigger] providers@[i]).manifest.id@ == id@) && !overwrite)
            ==> (r matches Some(e) && e.status == 409
                && e.message@ == "provider "@ + id@ + " already exists (set overwrite to replace)"@),
        !((exists|i: int| 0 <= i < providers@.len() && (#[trigger] providers@[i]).manifest.id@ == id@) && !overwrite)
            ==> r is None,
{
    if overwrite {
        return None;
    }
    let mut i: usize = 0;
    while i < providers.len()
        invariant
            !overwrite,
            i <= providers@.len(),
            forall|j: int| 0 <= j < i ==> (#[trigger] providers@[j]).manifest.id@ != id@,
        decreases providers@.len() - i,
    {
        if str_eq(providers[i].manifest.id.as_str(), id) {
            assert(providers@[i as int].manifest.id@ == id@);
            let mut m = String::new();
            push_str(&mut m, "provider ");
            push_str(&mut m, id);
            push_str(&mut m, " already exists (set overwrite to replace)");
            return Some(ApiError { status: 409, message: m });
        }
        i = i + 1;
    }
    None
}

/// The file a user-registered provider was loaded from; built-in providers
/// cannot be removed: `"<id> is built in and can't be removed"`, 400.
pub fn removable_path(p: &Provider, id: &str) -> (r: Result<String, ApiError>)
    ensures
        (p.source == Source::User && p.path is Some) ==> (r matches Ok(s) && s@ == p.path->0@),
        !(p.source == Source::User && p.path is Some) ==> (r matches Err(e) && e.status == 400
            && e.message@ == id@ + " is built in and can't be removed"@),
{
    if p.source == Source::User {
        if let Some(path) = &p.path {
            return Ok(path.clone());
        }
    }
    let mut m = String::new();
    push_str(&mut m, id);
    push_str(&mut m, " is built in and can't be removed");
    Err(ApiError { status: 400, message: m })
}

} // verus!
