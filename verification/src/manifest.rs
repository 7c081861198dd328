//! Provider manifests: the extensibility contract.
//!
//! A provider is described entirely by a manifest: which binary to run, how
//! to install it, and how to turn its output into dashboard data. A built-in
//! catalog ships with the app and users add manifests of their own; a user
//! manifest with the same `id` as a built-in overrides it.

use vstd::prelude::*;
use vstd::string::StringExecFns;

use crate::sort::{reorder, stable_sort, is_stable_sort};
use crate::install::{debug_quoted, quoted};
use crate::text::{chars_of, push_str, starts_with, str_eq, str_starts_with};

verus! {

#[derive(Debug, Clone)]
pub struct Manifest {
    /// Unique id (kebab-case). User manifests with a built-in id override it.
    pub id: String,
    /// Display name, e.g. "FPL Electric".
    pub name: String,
    /// electric | water | sewer | gas | internet | trash | other
    pub kind: String,
    /// Binary name looked up on PATH (no path separators allowed).
    pub binary: String,
    /// Source repository (shown as a link in the catalog).
    pub repo: String,
    pub description: Option<String>,
    /// One-time, non-secret setup the user runs in their own terminal.
    pub setup_command: Option<String>,
    /// Non-secret setup inputs collected in a form and applied by running
    /// the CLI. Never for secrets.
    pub setup: Vec<SetupInput>,
    pub install: Option<Install>,
    pub auth: Option<Auth>,
    pub summary: Option<Query>,
    /// How to pay: hand off to the provider's official payment page.
    pub pay: Option<Pay>,
    pub operations: Vec<Operation>,
    /// Time-series data (usage, bill amounts, payments) rendered as charts.
    pub series: Vec<Series>,
    /// Files the CLI can produce (bill PDFs etc.), offered as downloads.
    pub documents: Vec<Document>,
}

#[derive(Debug, Clone)]
pub struct Install {
    /// "cargo-git" (cargo install --git), "cargo" (crates.io), or "custom".
    pub kind: String,
    pub git: Option<String>,
    /// Package to select within a workspace (cargo-git).
    pub package: Option<String>,
    /// Crate name on crates.io (kind = "cargo").
    pub krate: Option<String>,
    /// Full argv for kind = "custom", e.g. ["brew", "install", "foo"].
    pub command: Option<Vec<String>>,
    /// Args that make the installed CLI update itself in place.
    pub self_update_args: Option<Vec<String>>,
    /// Args that only report whether an update exists.
    pub update_check_args: Option<Vec<String>>,
}

#[derive(Debug, Clone)]
pub struct Auth {
    pub required: bool,
    /// Interactive login the user runs in their own terminal.
    pub login_command: Option<String>,
    /// Non-secret args that report auth state as JSON.
    pub status_args: Option<Vec<String>>,
    /// Dot-path into the status JSON whose truthy value means "signed in".
    pub authenticated_field: Option<String>,
    /// Ordered human steps shown before the login command.
    pub login_steps: Vec<String>,
}

/// A non-secret setup value collected in a form and applied by running
/// `<binary> <args...> <value>`.
#[derive(Debug, Clone)]
pub struct SetupInput {
    pub id: String,
    pub name: String,
    pub description: Option<String>,
    /// CLI args before the value; the user's value is appended last.
    pub args: Vec<String>,
    /// Example value shown in the empty field.
    pub placeholder: Option<String>,
}

/// How to run the CLI and pull dashboard fields out of what it prints.
#[derive(Debug, Clone)]
pub struct Query {
    pub args: Vec<String>,
    /// "json": stdout is JSON, fields are dot-paths. "text": stdout is
    /// `Key: value` lines, fields are labels matched case-insensitively.
    pub format: String,
    /// Candidate fields for the amount due, tried in order.
    pub balance_fields: Vec<String>,
    /// Candidate fields for the due date, tried in order.
    pub due_date_fields: Vec<String>,
    /// "cents" divides the extracted balance by 100.
    pub scale: Option<String>,
}

#[derive(Debug, Clone)]
pub struct Operation {
    pub id: String,
    pub name: String,
    pub args: Vec<String>,
}

/// How to pay a provider: open its official payment page, via the CLI
/// (`open_args`) or a portal URL (`url`) — exactly one of them.
#[derive(Debug, Clone)]
pub struct Pay {
    pub open_args: Option<Vec<String>>,
    pub url: Option<String>,
    /// Button label (default "Pay bill").
    pub label: Option<String>,
}

/// A time series the CLI can report: one labelled number per record.
#[derive(Debug, Clone)]
pub struct Series {
    pub id: String,
    pub name: String,
    pub args: Vec<String>,
    /// "json" (default) or "table" (pipe-delimited text table).
    pub format: String,
    /// Dot-path to the array of records; empty string = the JSON root.
    pub items_path: String,
    /// Fields holding each record's label (a period or date string),
    /// tried in order: one field, or a fallback chain.
    pub label_field: Vec<String>,
    /// Candidate fields for the value, tried in order.
    pub value_fields: Vec<String>,
    /// Display unit: "usd" formats as money; anything else is shown as-is.
    pub unit: Option<String>,
    /// "cents" divides values by 100.
    pub scale: Option<String>,
    /// "bar" (default) or "line".
    pub chart: String,
}

/// A file-producing command: `out-flag <temp path>` is appended to `args`.
#[derive(Debug, Clone)]
pub struct Document {
    pub id: String,
    pub name: String,
    pub args: Vec<String>,
    /// Flag that names the output file, e.g. "--out".
    pub out_flag: String,
    /// Suggested download filename (extension sets the content type).
    pub filename: String,
}

#[derive(Debug, Clone, Copy, PartialEq, Eq, Structural)]
pub enum Source {
    Builtin,
    User,
}

#[derive(Debug, Clone)]
pub struct Provider {
    pub manifest: Manifest,
    pub source: Source,
    /// Manifest file path for user providers (needed to delete them).
    pub path: Option<String>,
}

/// The default `kind`: "other".
pub fn default_kind() -> (r: String)
    ensures
        r@ == "other"@,
{
    String::from_str("other")
}

/// The default output format: "json".
pub fn default_format() -> (r: String)
    ensures
        r@ == "json"@,
{
    String::from_str("json")
}

/// The default chart style: "bar".
pub fn default_chart() -> (r: String)
    ensures
        r@ == "bar"@,
{
    String::from_str("bar")
}


// ---------- validation ----------

/// Why a manifest is rejected.
#[derive(Debug, Clone)]
pub enum ManifestError {
    /// The id is empty or not kebab-case.
    BadId(String),
    /// The binary is empty or a path rather than a bare command name.
    BadBinary(String),
    /// `summary.format` is neither "json" nor "text".
    BadSummaryFormat(String),
    /// A series' format is neither "json" nor "table" (series id).
    BadSeriesFormat(String),
    /// A series' chart is neither "bar" nor "line" (series id).
    BadSeriesChart(String),
    /// A series lists no value fields (series id).
    EmptyValueFields(String),
    /// A document's filename is not a plain name (document id).
    BadDocumentFilename(String),
    /// A setup input has no args (setup id).
    EmptySetupArgs(String),
    /// `[pay]` sets neither `open-args` nor `url`.
    PayNeither,
    /// `[pay]` sets both `open-args` and `url`.
    PayBoth,
    /// `pay.open-args` is empty.
    PayEmptyOpenArgs,
    /// `pay.url` is not an http(s) URL.
    PayBadUrl,
    /// `install.kind = cargo-git` without `install.git`.
    InstallMissingGit,
    /// `install.kind = cargo` without `install.crate`.
    InstallMissingCrate,
    /// `install.kind = custom` without a non-empty `install.command`.
    InstallMissingCommand,
    /// An `install.kind` other than cargo-git, cargo or custom.
    UnknownInstallKind(String),
}

/// A manifest problem, with its text as characters.
pub enum Problem {
    BadId(Seq<char>),
    BadBinary(Seq<char>),
    BadSummaryFormat(Seq<char>),
    BadSeriesFormat(Seq<char>),
    BadSeriesChart(Seq<char>),
    EmptyValueFields(Seq<char>),
    BadDocumentFilename(Seq<char>),
    EmptySetupArgs(Seq<char>),
    PayNeither,
    PayBoth,
    PayEmptyOpenArgs,
    PayBadUrl,
    InstallMissingGit,
    InstallMissingCrate,
    InstallMissingCommand,
    UnknownInstallKind(Seq<char>),
}

impl View for ManifestError {
    type V = Problem;

    open spec fn view(&self) -> Problem {
        match self {
            ManifestError::BadId(s) => Problem::BadId(s@),
            ManifestError::BadBinary(s) => Problem::BadBinary(s@),
            ManifestError::BadSummaryFormat(s) => Problem::BadSummaryFormat(s@),
            ManifestError::BadSeriesFormat(s) => Problem::BadSeriesFormat(s@),
            ManifestError::BadSeriesChart(s) => Problem::BadSeriesChart(s@),
            ManifestError::EmptyValueFields(s) => Problem::EmptyValueFields(s@),
            ManifestError::BadDocumentFilename(s) => Problem::BadDocumentFilename(s@),
            ManifestError::EmptySetupArgs(s) => Problem::EmptySetupArgs(s@),
            ManifestError::PayNeither => Problem::PayNeither,
            ManifestError::PayBoth => Problem::PayBoth,
            ManifestError::PayEmptyOpenArgs => Problem::PayEmptyOpenArgs,
            ManifestError::PayBadUrl => Problem::PayBadUrl,
            ManifestError::InstallMissingGit => Problem::InstallMissingGit,
            ManifestError::InstallMissingCrate => Problem::InstallMissingCrate,
            ManifestError::InstallMissingCommand => Problem::InstallMissingCommand,
            ManifestError::UnknownInstallKind(s) => Problem::UnknownInstallKind(s@),
        }
    }
}

/// The message a manifest problem is reported with.
pub open spec fn problem_message(p: Problem) -> Seq<char> {
    match p {
        Problem::BadId(s) => "id must be non-empty kebab-case (got "@ + debug_quoted(s) + ")"@,
        Problem::BadBinary(s) => "binary must be a bare command name, not a path (got "@ + debug_quoted(s) + ")"@,
        Problem::BadSummaryFormat(s) => "summary.format must be \"json\" or \"text\" (got "@ + debug_quoted(s) + ")"@,
        Problem::BadSeriesFormat(s) => "series "@ + s + ": format must be \"json\" or \"table\""@,
        Problem::BadSeriesChart(s) => "series "@ + s + ": chart must be \"bar\" or \"line\""@,
        Problem::EmptyValueFields(s) => "series "@ + s + ": value-fields must not be empty"@,
        Problem::BadDocumentFilename(s) => "document "@ + s + ": filename must be a plain name"@,
        Problem::EmptySetupArgs(s) => "setup "@ + s + ": args must not be empty"@,
        Problem::PayNeither => "pay: set either open-args or url"@,
        Problem::PayBoth => "pay: set only one of open-args or url"@,
        Problem::PayEmptyOpenArgs => "pay.open-args must not be empty"@,
        Problem::PayBadUrl => "pay.url must be an http(s) URL"@,
        Problem::InstallMissingGit => "install.kind = cargo-git requires install.git"@,
        Problem::InstallMissingCrate => "install.kind = cargo requires install.krate"@,
        Problem::InstallMissingCommand => "install.kind = custom requires a non-empty install.command"@,
        Problem::UnknownInstallKind(s) => "unknown install.kind "@ + debug_quoted(s),
    }
}

impl ManifestError {
    /// The error as the API and the command line report it.
    pub fn message(&self) -> (r: String)
        ensures
            r@ == problem_message(self@),
    {
        let mut m = String::new();
        match self {
            ManifestError::BadId(s) => {
                push_str(&mut m, "id must be non-empty kebab-case (got ");
                let q = quoted(s.as_str());
                push_str(&mut m, q.as_str());
                push_str(&mut m, ")");
            },
            ManifestError::BadBinary(s) => {
                push_str(&mut m, "binary must be a bare command name, not a path (got ");
                let q = quoted(s.as_str());
                push_str(&mut m, q.as_str());
                push_str(&mut m, ")");
            },
            ManifestError::BadSummaryFormat(s) => {
                push_str(&mut m, "summary.format must be \"json\" or \"text\" (got ");
                let q = quoted(s.as_str());
                push_str(&mut m, q.as_str());
                push_str(&mut m, ")");
            },
            ManifestError::BadSeriesFormat(s) => {
                push_str(&mut m, "series ");
                push_str(&mut m, s.as_str());
                push_str(&mut m, ": format must be \"json\" or \"table\"");
            },
            ManifestError::BadSeriesChart(s) => {
                push_str(&mut m, "series ");
                push_str(&mut m, s.as_str());
                push_str(&mut m, ": chart must be \"bar\" or \"line\"");
            },
            ManifestError::EmptyValueFields(s) => {
                push_str(&mut m, "series ");
                push_str(&mut m, s.as_str());
                push_str(&mut m, ": value-fields must not be empty");
            },
            ManifestError::BadDocumentFilename(s) => {
                push_str(&mut m, "document ");
                push_str(&mut m, s.as_str());
                push_str(&mut m, ": filename must be a plain name");
            },
            ManifestError::EmptySetupArgs(s) => {
                push_str(&mut m, "setup ");
                push_str(&mut m, s.as_str());
                push_str(&mut m, ": args must not be empty");
            },
            ManifestError::PayNeither => push_str(&mut m, "pay: set either open-args or url"),
            ManifestError::PayBoth => push_str(&mut m, "pay: set only one of open-args or url"),
            ManifestError::PayEmptyOpenArgs => push_str(&mut m, "pay.open-args must not be empty"),
            ManifestError::PayBadUrl => push_str(&mut m, "pay.url must be an http(s) URL"),
            ManifestError::InstallMissingGit => push_str(&mut m, "install.kind = cargo-git requires install.git"),
            ManifestError::InstallMissingCrate => push_str(&mut m, "install.kind = cargo requires install.krate"),
            ManifestError::InstallMissingCommand => {
                push_str(&mut m, "install.kind = custom requires a non-empty install.command")
            },
            ManifestError::UnknownInstallKind(s) => {
                push_str(&mut m, "unknown install.kind ");
                let q = quoted(s.as_str());
                push_str(&mut m, q.as_str());
            },
        }
        m
    }
}

pub open spec fn kebab_char(c: char) -> bool {
    ('a' <= c && c <= 'z') || ('0' <= c && c <= '9') || c == '-'
}

pub open spec fn id_ok(id: Seq<char>) -> bool {
    id.len() > 0 && forall|i: int| 0 <= i < id.len() ==> kebab_char(#[trigger] id[i])
}

pub open spec fn is_path_sep(c: char) -> bool {
    c == '/' || c == '\\'
}

pub open spec fn has_path_sep(s: Seq<char>) -> bool {
    exists|i: int| 0 <= i < s.len() && is_path_sep(#[trigger] s[i])
}

pub open spec fn binary_ok(b: Seq<char>) -> bool {
    b.len() > 0 && !has_path_sep(b)
}

pub open spec fn series_problem(s: Series) -> Option<Problem> {
    if !(s.format@ == "json"@ || s.format@ == "table"@) {
        Some(Problem::BadSeriesFormat(s.id@))
    } else if !(s.chart@ == "bar"@ || s.chart@ == "line"@) {
        Some(Problem::BadSeriesChart(s.id@))
    } else if s.value_fields@.len() == 0 {
        Some(Problem::EmptyValueFields(s.id@))
    } else {
        None
    }
}

/// A series raises no problem exactly when its format is `json` or
/// `table`, its chart is `bar` or `line`, and it names at least one value
/// field; so switching a good series between a bar and a line chart keeps
/// it good.
pub proof fn series_problem_law(s: Series, other_chart: String)
    ensures
        series_problem(s) is None <==> ((s.format@ == "json"@ || s.format@ == "table"@)
            && (s.chart@ == "bar"@ || s.chart@ == "line"@)
            && s.value_fields@.len() > 0),
        (s.chart@ == "bar"@ || s.chart@ == "line"@) && (other_chart@ == "bar"@ || other_chart@ == "line"@)
            ==> series_problem((Series { chart: other_chart, ..s })) == series_problem(s),
{
}

pub open spec fn document_problem(d: Document) -> Option<Problem> {
    if has_path_sep(d.filename@) || starts_with(d.filename@, "."@) {
        Some(Problem::BadDocumentFilename(d.id@))
    } else {
        None
    }
}

pub open spec fn setup_problem(s: SetupInput) -> Option<Problem> {
    if s.args@.len() == 0 { Some(Problem::EmptySetupArgs(s.id@)) } else { None }
}

/// The first problem among `xs`, in order.
pub open spec fn first_series_problem(xs: Seq<Series>) -> Option<Problem>
    decreases xs.len(),
{
    if xs.len() == 0 {
        None
    } else if series_problem(xs[0]) is Some {
        series_problem(xs[0])
    } else {
        first_series_problem(xs.drop_first())
    }
}

pub open spec fn first_document_problem(xs: Seq<Document>) -> Option<Problem>
    decreases xs.len(),
{
    if xs.len() == 0 {
        None
    } else if document_problem(xs[0]) is Some {
        document_problem(xs[0])
    } else {
        first_document_problem(xs.drop_first())
    }
}

pub open spec fn first_setup_problem(xs: Seq<SetupInput>) -> Option<Problem>
    decreases xs.len(),
{
    if xs.len() == 0 {
        None
    } else if setup_problem(xs[0]) is Some {
        setup_problem(xs[0])
    } else {
        first_setup_problem(xs.drop_first())
    }
}

pub open spec fn pay_problem(p: Pay) -> Option<Problem> {
    match (p.open_args, p.url) {
        (None, None) => Some(Problem::PayNeither),
        (Some(_), Some(_)) => Some(Problem::PayBoth),
        (Some(a), None) => if a@.len() == 0 { Some(Problem::PayEmptyOpenArgs) } else { None },
        (None, Some(u)) => if !starts_with(u@, "https://"@) && !starts_with(u@, "http://"@) {
            Some(Problem::PayBadUrl)
        } else {
            None
        },
    }
}

pub open spec fn install_problem(i: Install) -> Option<Problem> {
    if i.kind@ == "cargo-git"@ {
        if i.git is None { Some(Problem::InstallMissingGit) } else { None }
    } else if i.kind@ == "cargo"@ {
        if i.krate is None { Some(Problem::InstallMissingCrate) } else { None }
    } else if i.kind@ == "custom"@ {
        match i.command {
            None => Some(Problem::InstallMissingCommand),
            Some(c) => if c@.len() == 0 { Some(Problem::InstallMissingCommand) } else { None },
        }
    } else {
        Some(Problem::UnknownInstallKind(i.kind@))
    }
}

/// The first problem with a manifest, checking in this order: id, binary,
/// summary format, each series, each document, each setup input, pay,
/// install. `None` when the manifest is acceptable.
pub open spec fn manifest_problem(m: Manifest) -> Option<Problem> {
    if !id_ok(m.id@) {
        Some(Problem::BadId(m.id@))
    } else if !binary_ok(m.binary@) {
        Some(Problem::BadBinary(m.binary@))
    } else if m.summary is Some && !(m.summary->0.format@ == "json"@ || m.summary->0.format@ == "text"@) {
        Some(Problem::BadSummaryFormat(m.summary->0.format@))
    } else if first_series_problem(m.series@) is Some {
        first_series_problem(m.series@)
    } else if first_document_problem(m.documents@) is Some {
        first_document_problem(m.documents@)
    } else if first_setup_problem(m.setup@) is Some {
        first_setup_problem(m.setup@)
    } else if m.pay is Some && pay_problem(m.pay->0) is Some {
        pay_problem(m.pay->0)
    } else if m.install is Some && install_problem(m.install->0) is Some {
        install_problem(m.install->0)
    } else {
        None
    }
}

fn has_path_sep_exec(s: &str) -> (r: bool)
    ensures
        r == has_path_sep(s@),
{
    let v = chars_of(s);
    let mut i: usize = 0;
    while i < v.len()
        invariant
            i <= v@.len(),
            v@ == s@,
            forall|k: int| 0 <= k < i ==> !is_path_sep(#[trigger] v@[k]),
        decreases v@.len() - i,
    {
        if v[i] == '/' || v[i] == '\\' {
            assert(is_path_sep(v@[i as int]));
            return true;
        }
        i = i + 1;
    }
    false
}

fn id_ok_exec(id: &str) -> (r: bool)
    ensures
        r == id_ok(id@),
{
    let v = chars_of(id);
    if v.len() == 0 {
        return false;
    }
    let mut i: usize = 0;
    while i < v.len()
        invariant
            i <= v@.len(),
            v@ == id@,
            forall|k: int| 0 <= k < i ==> kebab_char(#[trigger] v@[k]),
        decreases v@.len() - i,
    {
        let c = v[i];
        if !(('a' <= c && c <= 'z') || ('0' <= c && c <= '9') || c == '-') {
            assert(!kebab_char(v@[i as int]));
            return false;
        }
        i = i + 1;
    }
    true
}

fn series_check(s: &Series) -> (r: Result<(), ManifestError>)
    ensures
        match r {
            Ok(()) => series_problem(*s) is None,
            Err(e) => series_problem(*s) == Some(e@),
        },
{
    if !(str_eq(s.format.as_str(), "json") || str_eq(s.format.as_str(), "table")) {
        return Err(ManifestError::BadSeriesFormat(s.id.clone()));
    }
    if !(str_eq(s.chart.as_str(), "bar") || str_eq(s.chart.as_str(), "line")) {
        return Err(ManifestError::BadSeriesChart(s.id.clone()));
    }
    if s.value_fields.len() == 0 {
        return Err(ManifestError::EmptyValueFields(s.id.clone()));
    }
    Ok(())
}

fn document_check(d: &Document) -> (r: Result<(), ManifestError>)
    ensures
        match r {
            Ok(()) => document_problem(*d) is None,
            Err(e) => document_problem(*d) == Some(e@),
        },
{
    if has_path_sep_exec(d.filename.as_str()) || str_starts_with(d.filename.as_str(), ".") {
        return Err(ManifestError::BadDocumentFilename(d.id.clone()));
    }
    Ok(())
}

fn pay_check(p: &Pay) -> (r: Result<(), ManifestError>)
    ensures
        match r {
            Ok(()) => pay_problem(*p) is None,
            Err(e) => pay_problem(*p) == Some(e@),
        },
{
    match (&p.open_args, &p.url) {
        (None, None) => Err(ManifestError::PayNeither),
        (Some(_), Some(_)) => Err(ManifestError::PayBoth),
        (Some(a), None) => if a.len() == 0 { Err(ManifestError::PayEmptyOpenArgs) } else { Ok(()) },
        (None, Some(u)) => {
            if !str_starts_with(u.as_str(), "https://") && !str_starts_with(u.as_str(), "http://") {
                Err(ManifestError::PayBadUrl)
            } else {
                Ok(())
            }
        },
    }
}

fn install_check(i: &Install) -> (r: Result<(), ManifestError>)
    ensures
        match r {
            Ok(()) => install_problem(*i) is None,
            Err(e) => install_problem(*i) == Some(e@),
        },
{
    if str_eq(i.kind.as_str(), "cargo-git") {
        if i.git.is_none() { Err(ManifestError::InstallMissingGit) } else { Ok(()) }
    } else if str_eq(i.kind.as_str(), "cargo") {
        if i.krate.is_none() { Err(ManifestError::InstallMissingCrate) } else { Ok(()) }
    } else if str_eq(i.kind.as_str(), "custom") {
        match &i.command {
            None => Err(ManifestError::InstallMissingCommand),
            Some(c) => if c.len() == 0 { Err(ManifestError::InstallMissingCommand) } else { Ok(()) },
        }
    } else {
        Err(ManifestError::UnknownInstallKind(i.kind.clone()))
    }
}

/// Check a parsed manifest: a kebab-case id, a bare binary name, known
/// summary/series formats and chart styles, non-empty series value fields,
/// plain document filenames, non-empty setup args, exactly one way to pay
/// (an http(s) URL or non-empty CLI args), and a complete install spec.
/// Returns the first problem found.
pub fn validate(m: &Manifest) -> (r: Result<(), ManifestError>)
    ensures
        match r {
            Ok(()) => manifest_problem(*m) is None,
            Err(e) => manifest_problem(*m) == Some(e@),
        },
{
    if !id_ok_exec(m.id.as_str()) {
        return Err(ManifestError::BadId(m.id.clone()));
    }
    if m.binary.as_str().is_empty() || has_path_sep_exec(m.binary.as_str()) {
        return Err(ManifestError::BadBinary(m.binary.clone()));
    }
    if let Some(q) = &m.summary {
        if !(str_eq(q.format.as_str(), "json") || str_eq(q.format.as_str(), "text")) {
            return Err(ManifestError::BadSummaryFormat(q.format.clone()));
        }
    }
    let mut i: usize = 0;
    assert(m.series@.skip(0) =~= m.series@);
    while i < m.series.len()
        invariant
            i <= m.series@.len(),
            id_ok(m.id@),
            binary_ok(m.binary@),
            !(m.summary is Some && !(m.summary->0.format@ == "json"@ || m.summary->0.format@ == "text"@)),
            first_series_problem(m.series@) == first_series_problem(m.series@.skip(i as int)),
        decreases m.series@.len() - i,
    {
        assert(m.series@.skip(i as int).drop_first() =~= m.series@.skip(i + 1));
        if let Err(e) = series_check(&m.series[i]) {
            return Err(e);
        }
        i = i + 1;
    }
    let mut i: usize = 0;
    assert(m.documents@.skip(0) =~= m.documents@);
    while i < m.documents.len()
        invariant
            i <= m.documents@.len(),
            id_ok(m.id@),
            binary_ok(m.binary@),
            !(m.summary is Some && !(m.summary->0.format@ == "json"@ || m.summary->0.format@ == "text"@)),
            first_series_problem(m.series@) is None,
            first_document_problem(m.documents@) == first_document_problem(m.documents@.skip(i as int)),
        decreases m.documents@.len() - i,
    {
        assert(m.documents@.skip(i as int).drop_first() =~= m.documents@.skip(i + 1));
        if let Err(e) = document_check(&m.documents[i]) {
            return Err(e);
        }
        i = i + 1;
    }
    let mut i: usize = 0;
    assert(m.setup@.skip(0) =~= m.setup@);
    while i < m.setup.len()
        invariant
            i <= m.setup@.len(),
            id_ok(m.id@),
            binary_ok(m.binary@),
            !(m.summary is Some && !(m.summary->0.format@ == "json"@ || m.summary->0.format@ == "text"@)),
            first_series_problem(m.series@) is None,
            first_document_problem(m.documents@) is None,
            first_setup_problem(m.setup@) == first_setup_problem(m.setup@.skip(i as int)),
        decreases m.setup@.len() - i,
    {
        assert(m.setup@.skip(i as int).drop_first() =~= m.setup@.skip(i + 1));
        if m.setup[i].args.len() == 0 {
            return Err(ManifestError::EmptySetupArgs(m.setup[i].id.clone()));
        }
        i = i + 1;
    }
    if let Some(p) = &m.pay {
        pay_check(p)?;
    }
    if let Some(inst) = &m.install {
        install_check(inst)?;
    }
    Ok(())
}


// ---------- the provider list ----------

/// `ps` without the providers whose id is `id`.
pub open spec fn without_id(ps: Seq<Provider>, id: Seq<char>) -> Seq<Provider>
    decreases ps.len(),
{
    if ps.len() == 0 {
        Seq::empty()
    } else {
        let rest = without_id(ps.drop_last(), id);
        if ps.last().manifest.id@ == id { rest } else { rest.push(ps.last()) }
    }
}

/// `ps` with each of `users` added in turn, each replacing any provider
/// with the same id.
pub open spec fn overlay(ps: Seq<Provider>, users: Seq<Provider>) -> Seq<Provider>
    decreases users.len(),
{
    if users.len() == 0 {
        ps
    } else {
        overlay(without_id(ps, users[0].manifest.id@).push(users[0]), users.drop_first())
    }
}

/// No two providers share an id.
pub open spec fn ids_distinct(ps: Seq<Provider>) -> bool {
    forall|i: int, j: int| 0 <= i < j < ps.len() ==> (#[trigger] ps[i]).manifest.id@ != (#[trigger] ps[j]).manifest.id@
}

/// `p` is one of `ps`.
pub open spec fn has_provider(ps: Seq<Provider>, p: Provider) -> bool {
    exists|i: int| 0 <= i < ps.len() && ps[i] == p
}

/// Some provider of `ps` has id `id`.
pub open spec fn has_id(ps: Seq<Provider>, id: Seq<char>) -> bool {
    exists|i: int| 0 <= i < ps.len() && (#[trigger] ps[i]).manifest.id@ == id
}

proof fn lemma_without_id(ps: Seq<Provider>, id: Seq<char>)
    ensures
        forall|p: Provider| #[trigger] has_provider(without_id(ps, id), p)
            <==> (has_provider(ps, p) && p.manifest.id@ != id),
        ids_distinct(ps) ==> ids_distinct(without_id(ps, id)),
    decreases ps.len(),
{
    if ps.len() > 0 {
        let rest = without_id(ps.drop_last(), id);
        lemma_without_id(ps.drop_last(), id);
        let w = without_id(ps, id);
        assert forall|p: Provider| has_provider(w, p) <==> (has_provider(ps, p) && p.manifest.id@ != id) by {
            if has_provider(ps, p) && p.manifest.id@ != id {
                let i = choose|i: int| 0 <= i < ps.len() && ps[i] == p;
                if i < ps.len() - 1 {
                    assert(ps.drop_last()[i] == p);
                    assert(has_provider(ps.drop_last(), p));
                    assert(has_provider(rest, p));
                    let j = choose|j: int| 0 <= j < rest.len() && rest[j] == p;
                    if ps.last().manifest.id@ != id {
                        assert(w[j] == p);
                    }
                } else {
                    assert(w[w.len() - 1] == p);
                }
            }
            if has_provider(w, p) {
                let j = choose|j: int| 0 <= j < w.len() && w[j] == p;
                if ps.last().manifest.id@ != id && j == w.len() - 1 {
                    assert(ps[ps.len() - 1] == p);
                } else {
                    assert(rest[j] == p);
                    assert(has_provider(rest, p));
                    let i = choose|i: int| 0 <= i < ps.drop_last().len() && ps.drop_last()[i] == p;
                    assert(ps[i] == p);
                }
            }
        }
        if ids_distinct(ps) {
            assert(ids_distinct(ps.drop_last())) by {
                assert forall|i: int, j: int| 0 <= i < j < ps.drop_last().len() implies
                    (#[trigger] ps.drop_last()[i]).manifest.id@ != (#[trigger] ps.drop_last()[j]).manifest.id@ by {
                    assert(ps.drop_last()[i] == ps[i] && ps.drop_last()[j] == ps[j]);
                }
            }
            if ps.last().manifest.id@ != id {
                assert forall|i: int, j: int| 0 <= i < j < w.len() implies
                    (#[trigger] w[i]).manifest.id@ != (#[trigger] w[j]).manifest.id@ by {
                    if j == w.len() - 1 {
                        assert(w[i] == rest[i]);
                        assert(has_provider(rest, rest[i]));
                        assert(has_provider(ps.drop_last(), rest[i]));
                        let k = choose|k: int| 0 <= k < ps.drop_last().len() && ps.drop_last()[k] == rest[i];
                        assert(ps[k] == rest[i]);
                        assert(ps[k].manifest.id@ != ps[ps.len() - 1].manifest.id@);
                    } else {
                        assert(w[i] == rest[i] && w[j] == rest[j]);
                    }
                }
            }
        }
    }
}

/// User manifests override built-ins by id. Merging users into providers
/// with distinct ids leaves ids distinct; every user manifest that no later
/// user manifest replaces is kept; every provider whose id no user manifest
/// takes is kept; and nothing else appears.
pub proof fn overlay_law(ps: Seq<Provider>, users: Seq<Provider>)
    requires
        ids_distinct(ps),
    ensures
        ids_distinct(overlay(ps, users)),
        forall|p: Provider| #[trigger] has_provider(overlay(ps, users), p) ==> has_provider(ps, p) || has_provider(users, p),
        forall|b: Provider| has_provider(ps, b) && !has_id(users, b.manifest.id@) ==> #[trigger] has_provider(overlay(ps, users), b),
        forall|k: int| 0 <= k < users.len()
            && (forall|j: int| k < j < users.len() ==> (#[trigger] users[j]).manifest.id@ != users[k].manifest.id@)
            ==> #[trigger] has_provider(overlay(ps, users), users[k]),
    decreases users.len(),
{
    if users.len() > 0 {
        let u = users[0];
        let next = without_id(ps, u.manifest.id@).push(u);
        lemma_without_id(ps, u.manifest.id@);
        let w = without_id(ps, u.manifest.id@);
        assert(ids_distinct(next)) by {
            assert forall|i: int, j: int| 0 <= i < j < next.len() implies
                (#[trigger] next[i]).manifest.id@ != (#[trigger] next[j]).manifest.id@ by {
                if j == next.len() - 1 {
                    assert(next[i] == w[i]);
                    assert(has_provider(w, w[i]));
                    assert(w[i].manifest.id@ != u.manifest.id@);
                } else {
                    assert(next[i] == w[i] && next[j] == w[j]);
                }
            }
        }
        let rest = users.drop_first();
        overlay_law(next, rest);
        let o = overlay(ps, users);
        assert(o == overlay(next, rest));
        assert forall|p: Provider| #[trigger] has_provider(o, p) implies has_provider(ps, p) || has_provider(users, p) by {
            if has_provider(next, p) {
                let i = choose|i: int| 0 <= i < next.len() && next[i] == p;
                if i == next.len() - 1 {
                    assert(users[0] == p);
                } else {
                    assert(w[i] == p);
                    assert(has_provider(w, p));
                }
            }
            if has_provider(rest, p) {
                let i = choose|i: int| 0 <= i < rest.len() && rest[i] == p;
                assert(users[i + 1] == p);
            }
        }
        assert forall|b: Provider| has_provider(ps, b) && !has_id(users, b.manifest.id@) implies #[trigger] has_provider(o, b) by {
            assert(users[0].manifest.id@ != b.manifest.id@) by {
                if users[0].manifest.id@ == b.manifest.id@ {
                    assert(has_id(users, b.manifest.id@));
                }
            }
            assert(has_provider(w, b));
            let i = choose|i: int| 0 <= i < w.len() && w[i] == b;
            assert(next[i] == b);
            assert(!has_id(rest, b.manifest.id@)) by {
                if has_id(rest, b.manifest.id@) {
                    let j = choose|j: int| 0 <= j < rest.len() && (#[trigger] rest[j]).manifest.id@ == b.manifest.id@;
                    assert(users[j + 1].manifest.id@ == b.manifest.id@);
                }
            }
        }
        assert forall|k: int| 0 <= k < users.len()
            && (forall|j: int| k < j < users.len() ==> (#[trigger] users[j]).manifest.id@ != users[k].manifest.id@)
            implies #[trigger] has_provider(o, users[k]) by {
            if k == 0 {
                assert(next[next.len() - 1] == u);
                assert(!has_id(rest, u.manifest.id@)) by {
                    if has_id(rest, u.manifest.id@) {
                        let j = choose|j: int| 0 <= j < rest.len() && (#[trigger] rest[j]).manifest.id@ == u.manifest.id@;
                        assert(users[j + 1].manifest.id@ == u.manifest.id@);
                    }
                }
            } else {
                assert(rest[k - 1] == users[k]);
                assert forall|j: int| k - 1 < j < rest.len() implies (#[trigger] rest[j]).manifest.id@ != rest[k - 1].manifest.id@ by {
                    assert(rest[j] == users[j + 1]);
                }
            }
        }
    }
}

pub open spec fn provider_names(ps: Seq<Provider>) -> Seq<String> {
    Seq::new(ps.len(), |i: int| ps[i].manifest.name)
}

fn remove_id(ps: Vec<Provider>, id: &String) -> (r: Vec<Provider>)
    ensures
        r@ == without_id(ps@, id@),
{
    let ghost all = ps@;
    let mut out: Vec<Provider> = Vec::new();
    for p in it: ps.into_iter()
        invariant
            it.seq() == all,
            out@ == without_id(all.take(it.index() as int), id@),
    {
        let ghost k = it.index();
        assert(all.take(k + 1).drop_last() =~= all.take(k as int));
        if !str_eq(p.manifest.id.as_str(), id.as_str()) {
            out.push(p);
        }
    }
    assert(all.take(all.len() as int) =~= all);
    out
}

/// Built-ins merged with user manifests (user ids override built-in ids),
/// ordered by display name; providers with equal names keep their order.
/// `users` is `None` when the user provider directory could not be read:
/// the built-ins are then returned as they are, in catalog order.
pub fn merge_providers(builtins: Vec<Provider>, users: Option<Vec<Provider>>) -> (r: Vec<Provider>)
    ensures
        match users {
            None => r@ == builtins@,
            Some(users) => exists|order: Seq<usize>|
                #[trigger] is_stable_sort(provider_names(overlay(builtins@, users@)), order)
                && r@ == reorder(overlay(builtins@, users@), order),
        },
{
    let users = match users {
        None => return builtins,
        Some(users) => users,
    };
    let ghost us = users@;
    let mut out = builtins;
    let ghost start = out@;
    assert(us.skip(0) =~= us);
    for u in it: users.into_iter()
        invariant
            it.seq() == us,
            overlay(start, us) == overlay(out@, us.skip(it.index() as int)),
    {
        let ghost k = it.index();
        assert(us.skip(k as int)[0] == u);
        assert(us.skip(k as int).drop_first() =~= us.skip(k + 1));
        out = remove_id(out, &u.manifest.id);
        out.push(u);
    }
    assert(us.skip(us.len() as int) =~= Seq::<Provider>::empty());
    let ghost merged = out@;
    let mut names: Vec<String> = Vec::new();
    let mut i: usize = 0;
    while i < out.len()
        invariant
            i <= out@.len(),
            out@ == merged,
            names@ == provider_names(merged).take(i as int),
        decreases out@.len() - i,
    {
        names.push(out[i].manifest.name.clone());
        assert(names@ =~= provider_names(merged).take(i + 1));
        i = i + 1;
    }
    assert(names@ =~= provider_names(merged));
    let (sorted, order) = stable_sort(out, &names);
    sorted
}

/// The first provider with id `id`, if any.
pub fn find_provider(providers: Vec<Provider>, id: &str) -> (r: Option<Provider>)
    ensures
        match r {
            Some(p) => exists|i: int| 0 <= i < providers@.len() && providers@[i] == p
                && p.manifest.id@ == id@
                && forall|j: int| 0 <= j < i ==> (#[trigger] providers@[j]).manifest.id@ != id@,
            None => forall|j: int| 0 <= j < providers@.len() ==> (#[trigger] providers@[j]).manifest.id@ != id@,
        },
{
    let ghost all = providers@;
    for p in it: providers.into_iter()
        invariant
            it.seq() == all,
            forall|j: int| 0 <= j < it.index() ==> (#[trigger] all[j]).manifest.id@ != id@,
    {
        if str_eq(p.manifest.id.as_str(), id) {
            return Some(p);
        }
    }
    None
}

} // verus!
