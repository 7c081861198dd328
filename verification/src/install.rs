//! Install/update tasks.
//!
//! Installing a provider CLI runs `cargo install` (or the manifest's custom
//! command) in the background; the dashboard polls task state and the
//! accumulated log. Install and update are the same operation: `--force`
//! reinstalls, picking up whatever is now at the source. This module keeps
//! the task table; running the command is the caller's job.

use vstd::prelude::*;
use vstd::string::StringExecFns;

use crate::manifest::Install;
use crate::text::{push_signed, push_str, signed_decimal, str_eq};

verus! {

/// The characters of each string.
pub open spec fn strings_view(v: Seq<String>) -> Seq<Seq<char>> {
    Seq::new(v.len(), |i: int| v[i]@)
}

pub proof fn lemma_strings_view_push(v: Seq<String>, x: String)
    ensures
        strings_view(v.push(x)) == strings_view(v).push(x@),
{
    assert(strings_view(v.push(x)) =~= strings_view(v).push(x@));
}

/// Why no install command could be built or started.
#[derive(Debug, Clone)]
pub enum InstallError {
    /// An install kind other than cargo-git, cargo or custom.
    UnknownKind(String),
    /// The command would be empty.
    EmptyCommand,
    /// An install for this provider is already running.
    AlreadyRunning(String),
}

pub enum InstallProblem {
    UnknownKind(Seq<char>),
    EmptyCommand,
    AlreadyRunning(Seq<char>),
}

impl View for InstallError {
    type V = InstallProblem;

    open spec fn view(&self) -> InstallProblem {
        match self {
            InstallError::UnknownKind(k) => InstallProblem::UnknownKind(k@),
            InstallError::EmptyCommand => InstallProblem::EmptyCommand,
            InstallError::AlreadyRunning(p) => InstallProblem::AlreadyRunning(p@),
        }
    }
}

/// How `Debug` writes a string: quoted, with quotes, backslashes and
/// control characters escaped.
pub uninterp spec fn debug_quoted(s: Seq<char>) -> Seq<char>;

/// `format!("{s:?}")`: the string as `Debug` writes it.
#[verifier::external_body]
pub(crate) fn quoted(s: &str) -> (r: String)
    ensures
        r@ == debug_quoted(s@),
{
    format!("{s:?}")
}

/// The message an install error is reported with.
pub open spec fn problem_text(p: InstallProblem) -> Seq<char> {
    match p {
        InstallProblem::UnknownKind(k) => "unknown install kind "@ + debug_quoted(k),
        InstallProblem::EmptyCommand => "empty install command"@,
        InstallProblem::AlreadyRunning(id) => "an install for "@ + id + " is already running"@,
    }
}

impl InstallError {
    /// The error as the API and the command line report it.
    pub fn message(&self) -> (r: String)
        ensures
            r@ == problem_text(self@),
    {
        let mut s = String::new();
        match self {
            InstallError::UnknownKind(k) => {
                push_str(&mut s, "unknown install kind ");
                let q = quoted(k.as_str());
                push_str(&mut s, q.as_str());
            },
            InstallError::EmptyCommand => {
                push_str(&mut s, "empty install command");
            },
            InstallError::AlreadyRunning(id) => {
                push_str(&mut s, "an install for ");
                push_str(&mut s, id.as_str());
                push_str(&mut s, " is already running");
            },
        }
        s
    }
}

/// The argv an install spec runs, before the emptiness check.
pub open spec fn install_command(spec: Install) -> Option<Seq<Seq<char>>> {
    if spec.kind@ == "cargo-git"@ {
        let git = match spec.git { Some(g) => g@, None => Seq::empty() };
        let base = seq!["cargo"@, "install"@, "--force"@, "--git"@, git];
        Some(match spec.package { Some(p) => base.push(p@), None => base })
    } else if spec.kind@ == "cargo"@ {
        let krate = match spec.krate { Some(k) => k@, None => Seq::empty() };
        Some(seq!["cargo"@, "install"@, "--force"@, krate])
    } else if spec.kind@ == "custom"@ {
        Some(match spec.command { Some(c) => strings_view(c@), None => Seq::empty() })
    } else {
        None
    }
}

/// A cargo-git install always runs `cargo install --force --git <git>`,
/// then the package when one is named, and nothing else: the command
/// without a package is the command with one, less its last word.
pub proof fn cargo_git_command(spec: Install, package: String)
    requires
        spec.kind@ == "cargo-git"@,
    ensures
        install_command(spec) matches Some(argv) && {
            &&& argv.len() == (if spec.package is Some { 6int } else { 5int })
            &&& argv[0] == "cargo"@
            &&& argv[1] == "install"@
            &&& argv[2] == "--force"@
            &&& argv[3] == "--git"@
            &&& argv[4] == (match spec.git { Some(g) => g@, None => Seq::<char>::empty() })
            &&& (spec.package matches Some(p) ==> argv[5] == p@)
        },
        install_command((Install { package: None, ..spec }))
            == Some(install_command((Install { package: Some(package), ..spec }))->0.drop_last()),
{
    let with = install_command((Install { package: Some(package), ..spec }));
    let without = install_command((Install { package: None, ..spec }));
    assert(with->0.drop_last() =~= without->0);
}

/// A cargo install runs `cargo install --force <crate>`, a custom install
/// runs its command word for word, and any other kind runs nothing.
pub proof fn other_install_commands(spec: Install)
    ensures
        spec.kind@ == "cargo"@ ==> install_command(spec) == Some(seq![
            "cargo"@,
            "install"@,
            "--force"@,
            match spec.krate { Some(k) => k@, None => Seq::<char>::empty() },
        ]),
        spec.kind@ == "custom"@ ==> (install_command(spec) matches Some(argv)
            && argv.len() == (match spec.command { Some(c) => c@.len(), None => 0 })
            && forall|i: int| 0 <= i < argv.len() ==> #[trigger] argv[i] == spec.command->0@[i]@),
        !(spec.kind@ == "cargo-git"@ || spec.kind@ == "cargo"@ || spec.kind@ == "custom"@)
            ==> install_command(spec) is None,
{
    reveal_strlit("cargo");
    reveal_strlit("cargo-git");
    reveal_strlit("custom");
    assert("cargo"@.len() == 5 && "cargo-git"@.len() == 9 && "custom"@.len() == 6);
    if spec.kind@ == "cargo"@ {
        assert(spec.kind@ != "cargo-git"@);
    }
    if spec.kind@ == "custom"@ {
        assert(spec.kind@ != "cargo-git"@ && spec.kind@ != "cargo"@);
    }
}

fn string_of(s: &str) -> (r: String)
    ensures
        r@ == s@,
{
    String::from_str(s)
}

/// The argv `cargo install ...` (or custom) equivalent of this install spec:
/// `cargo install --force --git <git> [package]` for cargo-git,
/// `cargo install --force <crate>` for cargo, the command as given for
/// custom. A missing field counts as empty.
pub fn install_argv(spec: &Install) -> (r: Result<Vec<String>, InstallError>)
    ensures
        match install_command(*spec) {
            None => r matches Err(e) && e@ == InstallProblem::UnknownKind(spec.kind@),
            Some(argv) => if argv.len() == 0 {
                r matches Err(e) && e@ == InstallProblem::EmptyCommand
            } else {
                r matches Ok(v) && strings_view(v@) == argv
            },
        },
{
    let argv: Vec<String> = if str_eq(spec.kind.as_str(), "cargo-git") {
        let git = match &spec.git { Some(g) => g.clone(), None => String::new() };
        let mut v = vec![string_of("cargo"), string_of("install"), string_of("--force"), string_of("--git"), git];
        if let Some(pkg) = &spec.package {
            v.push(pkg.clone());
        }
        assert(strings_view(v@) =~= install_command(*spec)->0);
        v
    } else if str_eq(spec.kind.as_str(), "cargo") {
        let krate = match &spec.krate { Some(k) => k.clone(), None => String::new() };
        let v = vec![string_of("cargo"), string_of("install"), string_of("--force"), krate];
        assert(strings_view(v@) =~= install_command(*spec)->0);
        v
    } else if str_eq(spec.kind.as_str(), "custom") {
        match &spec.command {
            Some(c) => {
                let v = c.clone();
                assert(strings_view(v@) =~= strings_view(c@)) by {
                    assert forall|i: int| 0 <= i < v@.len() implies v@[i]@ == c@[i]@ by {
                        assert(cloned::<String>(c@[i], v@[i]));
                    }
                }
                v
            },
            None => {
                let v: Vec<String> = Vec::new();
                assert(strings_view(v@) =~= Seq::<Seq<char>>::empty());
                v
            },
        }
    } else {
        return Err(InstallError::UnknownKind(spec.kind.clone()));
    };
    if argv.len() == 0 {
        return Err(InstallError::EmptyCommand);
    }
    Ok(argv)
}


/// The last log line of a run: `exit: <code>`, or `exit: signal` when the
/// process was killed by a signal.
pub fn exit_line(code: Option<i32>) -> (r: String)
    ensures
        r@ == "exit: "@ + match code {
            Some(c) => signed_decimal(c as int),
            None => "signal"@,
        } + "\n"@,
{
    let mut s = String::new();
    push_str(&mut s, "exit: ");
    match code {
        Some(c) => push_signed(&mut s, c as i64),
        None => push_str(&mut s, "signal"),
    }
    push_str(&mut s, "\n");
    s
}

/// A task that ends frees its provider: once the only running task of a
/// provider is recorded as finished, another install for it can start.
pub proof fn finishing_frees_provider(table: Map<u64, TaskView>, id: u64, succeeded: bool)
    requires
        table.contains_key(id),
        forall|other: u64| #[trigger] table.contains_key(other) && other != id ==>
            !(table[other].0 == table[id].0 && table[other].1 == TaskState::Running),
    ensures
        !running_in(
            table.insert(id, (table[id].0, if succeeded { TaskState::Succeeded } else { TaskState::Failed }, table[id].2)),
            table[id].0,
        ),
{
    let after = table.insert(id, (table[id].0, if succeeded { TaskState::Succeeded } else { TaskState::Failed }, table[id].2));
    assert forall|other: u64| #[trigger] after.contains_key(other) implies
        !(after[other].0 == table[id].0 && after[other].1 == TaskState::Running) by {
        if other != id {
            assert(after[other] == table[other]);
        }
    }
}

/// Every task id in `table` is below `next`.
pub open spec fn ids_below(table: Map<u64, TaskView>, next: u64) -> bool {
    forall|id: u64| #[trigger] table.contains_key(id) ==> id < next
}

/// Task ids are fresh until the counter wraps: while every id handed out is
/// below the next one, the id a start hands out names no task yet, and
/// afterwards every id is again below the next one. A new table (empty,
/// next id 0) starts this way.
pub proof fn start_ids_fresh(table: Map<u64, TaskView>, next: u64, v: TaskView)
    requires
        ids_below(table, next),
        next < u64::MAX,
    ensures
        !table.contains_key(next),
        ids_below(table.insert(next, v), next_after(next)),
        ids_below(Map::<u64, TaskView>::empty(), 0),
{
}

/// Updating a task already in the table (its log or its end state) keeps
/// every id below the next one.
pub proof fn updates_keep_ids_below(table: Map<u64, TaskView>, next: u64, id: u64, v: TaskView)
    requires
        ids_below(table, next),
        table.contains_key(id),
    ensures
        ids_below(table.insert(id, v), next),
{
}

// ---------- the task table ----------

#[derive(Debug, Clone, Copy, PartialEq, Eq, Structural)]
pub enum TaskState {
    Running,
    Succeeded,
    Failed,
}

/// One install/update run: whose it is, where it stands, and its output.
#[derive(Debug)]
pub struct InstallTask {
    pub provider_id: String,
    pub state: TaskState,
    pub log: String,
}

/// A task as the contracts see it: provider id, state, log.
pub type TaskView = (Seq<char>, TaskState, Seq<char>);

pub open spec fn task_view(t: InstallTask) -> TaskView {
    (t.provider_id@, t.state, t.log@)
}

/// The first log line of a task: `$ <argv joined by spaces>` and a newline.
pub open spec fn command_line(argv: Seq<Seq<char>>) -> Seq<char> {
    "$ "@ + join_spaced(argv) + seq!['\n']
}

/// The words of `argv` separated by single spaces.
pub open spec fn join_spaced(argv: Seq<Seq<char>>) -> Seq<char>
    decreases argv.len(),
{
    if argv.len() == 0 {
        Seq::empty()
    } else if argv.len() == 1 {
        argv[0]
    } else {
        join_spaced(argv.drop_last()) + seq![' '] + argv.last()
    }
}

/// Some task of `provider` is running.
pub open spec fn running_in(table: Map<u64, TaskView>, provider: Seq<char>) -> bool {
    exists|id: u64| #[trigger] table.contains_key(id) && table[id].0 == provider
        && table[id].1 == TaskState::Running
}

pub open spec fn next_after(id: u64) -> u64 {
    if id == u64::MAX { 0 } else { (id + 1) as u64 }
}

/// The install tasks started so far, by id.
pub struct InstallTasks {
    next_id: u64,
    tasks: Vec<(u64, InstallTask)>,
}

impl InstallTasks {
    pub closed spec fn wf(&self) -> bool {
        forall|i: int, j: int| 0 <= i < j < self.tasks@.len() ==>
            (#[trigger] self.tasks@[i]).0 != (#[trigger] self.tasks@[j]).0
    }

    /// The tasks by id.
    pub closed spec fn table(&self) -> Map<u64, TaskView> {
        Map::new(
            |id: u64| exists|j: int| 0 <= j < self.tasks@.len() && (#[trigger] self.tasks@[j]).0 == id,
            |id: u64| task_view(self.tasks@[choose|j: int| 0 <= j < self.tasks@.len() && (#[trigger] self.tasks@[j]).0 == id].1),
        )
    }

    /// The id the next started task gets.
    pub closed spec fn next(&self) -> u64 {
        self.next_id
    }

    proof fn lemma_lookup(&self, j: int)
        requires
            self.wf(),
            0 <= j < self.tasks@.len(),
        ensures
            self.table().contains_key(self.tasks@[j].0),
            self.table()[self.tasks@[j].0] == task_view(self.tasks@[j].1),
    {
        let id = self.tasks@[j].0;
        assert(self.tasks@[j].0 == id);
        let k = choose|k: int| 0 <= k < self.tasks@.len() && (#[trigger] self.tasks@[k]).0 == id;
        if k != j {
            if k < j {
                assert(self.tasks@[k].0 != self.tasks@[j].0);
            } else {
                assert(self.tasks@[j].0 != self.tasks@[k].0);
            }
        }
    }

    pub fn new() -> (r: Self)
        ensures
            r.wf(),
            r.table() == Map::<u64, TaskView>::empty(),
            r.next() == 0,
    {
        let r = InstallTasks { next_id: 0, tasks: Vec::new() };
        assert(r.table() =~= Map::<u64, TaskView>::empty());
        r
    }

    /// The task with this id, if any.
    pub fn get(&self, id: u64) -> (r: Option<&InstallTask>)
        requires
            self.wf(),
        ensures
            match r {
                Some(t) => self.table().contains_key(id) && self.table()[id] == task_view(*t),
                None => !self.table().contains_key(id),
            },
    {
        let mut j: usize = 0;
        while j < self.tasks.len()
            invariant
                j <= self.tasks@.len(),
                self.wf(),
                forall|k: int| 0 <= k < j ==> (#[trigger] self.tasks@[k]).0 != id,
            decreases self.tasks@.len() - j,
        {
            if self.tasks[j].0 == id {
                proof { self.lemma_lookup(j as int); }
                return Some(&self.tasks[j].1);
            }
            j = j + 1;
        }
        None
    }

    /// True if an install for this provider is currently running.
    pub fn running_for(&self, provider_id: &str) -> (r: bool)
        requires
            self.wf(),
        ensures
            r == running_in(self.table(), provider_id@),
    {
        let mut j: usize = 0;
        while j < self.tasks.len()
            invariant
                j <= self.tasks@.len(),
                self.wf(),
                forall|k: int| 0 <= k < j ==> !((#[trigger] self.tasks@[k]).1.provider_id@ == provider_id@
                    && self.tasks@[k].1.state == TaskState::Running),
            decreases self.tasks@.len() - j,
        {
            if str_eq(self.tasks[j].1.provider_id.as_str(), provider_id) && self.tasks[j].1.state == TaskState::Running {
                proof { self.lemma_lookup(j as int); }
                return true;
            }
            j = j + 1;
        }
        proof {
            assert forall|id: u64| #[trigger] self.table().contains_key(id)
                implies !(self.table()[id].0 == provider_id@ && self.table()[id].1 == TaskState::Running) by {
                let k = choose|k: int| 0 <= k < self.tasks@.len() && (#[trigger] self.tasks@[k]).0 == id;
                self.lemma_lookup(k);
            }
        }
        false
    }

    /// Sets the task with id `id` to `t`, adding it if there is none.
    fn put(&mut self, id: u64, t: InstallTask)
        requires
            old(self).wf(),
        ensures
            final(self).wf(),
            final(self).next() == old(self).next(),
            final(self).table() == old(self).table().insert(id, task_view(t)),
    {
        let ghost before = self.table();
        let ghost v = task_view(t);
        let mut j: usize = 0;
        while j < self.tasks.len() && self.tasks[j].0 != id
            invariant
                j <= self.tasks@.len(),
                self.wf(),
                forall|k: int| 0 <= k < j ==> (#[trigger] self.tasks@[k]).0 != id,
            decreases self.tasks@.len() - j,
        {
            j = j + 1;
        }
        let ghost old_tasks = self.tasks@;
        if j < self.tasks.len() {
            self.tasks.set(j, (id, t));
        } else {
            self.tasks.push((id, t));
        }
        proof {
            assert(self.wf()) by {
                assert forall|a: int, b: int| 0 <= a < b < self.tasks@.len() implies
                    (#[trigger] self.tasks@[a]).0 != (#[trigger] self.tasks@[b]).0 by {
                    if a != j && b != j {
                        assert(self.tasks@[a] == old_tasks[a] && self.tasks@[b] == old_tasks[b]);
                    } else if a == j {
                        assert(self.tasks@[b] == old_tasks[b]);
                    } else {
                        assert(self.tasks@[a] == old_tasks[a]);
                    }
                }
            }
            assert(self.table() =~= before.insert(id, v)) by {
                assert forall|k: u64| #[trigger] self.table().contains_key(k) <==> before.insert(id, v).contains_key(k) by {
                    if self.table().contains_key(k) {
                        let m = choose|m: int| 0 <= m < self.tasks@.len() && (#[trigger] self.tasks@[m]).0 == k;
                        if m != j {
                            assert(old_tasks[m].0 == k);
                        }
                    }
                    if before.contains_key(k) && k != id {
                        let m = choose|m: int| 0 <= m < old_tasks.len() && (#[trigger] old_tasks[m]).0 == k;
                        assert(self.tasks@[m] == old_tasks[m]);
                    }
                    if k == id {
                        assert(self.tasks@[j as int].0 == id);
                    }
                }
                assert forall|k: u64| #[trigger] self.table().contains_key(k) implies self.table()[k] == before.insert(id, v)[k] by {
                    let m = choose|m: int| 0 <= m < self.tasks@.len() && (#[trigger] self.tasks@[m]).0 == k;
                    self.lemma_lookup(m);
                    if m != j {
                        assert(old_tasks[m] == self.tasks@[m]);
                        let mm = choose|mm: int| 0 <= mm < old_tasks.len() && (#[trigger] old_tasks[mm]).0 == k;
                        if mm != m {
                            if mm < m { assert(old_tasks[mm].0 != old_tasks[m].0); }
                            else { assert(old_tasks[m].0 != old_tasks[mm].0); }
                        }
                    }
                }
            }
        }
    }
}


impl InstallTasks {
    /// Registers an install/update run of `argv` for `provider_id` and
    /// returns its task id, refusing while another run for the same
    /// provider is in progress. The task starts out running, its log holding
    /// the command line. Ids are handed out in sequence (wrapping at the
    /// top, where a reused id replaces its old task).
    pub fn start(&mut self, provider_id: &str, argv: &Vec<String>) -> (r: Result<u64, InstallError>)
        requires
            old(self).wf(),
        ensures
            final(self).wf(),
            running_in(old(self).table(), provider_id@) ==> {
                &&& r matches Err(e) && e@ == InstallProblem::AlreadyRunning(provider_id@)
                &&& final(self).table() == old(self).table()
                &&& final(self).next() == old(self).next()
            },
            !running_in(old(self).table(), provider_id@) && argv@.len() == 0 ==> {
                &&& r matches Err(e) && e@ == InstallProblem::EmptyCommand
                &&& final(self).table() == old(self).table()
                &&& final(self).next() == old(self).next()
            },
            !running_in(old(self).table(), provider_id@) && argv@.len() > 0 ==> {
                &&& r == Ok::<u64, InstallError>(old(self).next())
                &&& final(self).table() == old(self).table().insert(
                    old(self).next(),
                    (provider_id@, TaskState::Running, command_line(strings_view(argv@))),
                )
                &&& final(self).next() == next_after(old(self).next())
            },
    {
        if self.running_for(provider_id) {
            return Err(InstallError::AlreadyRunning(String::from_str(provider_id)));
        }
        if argv.len() == 0 {
            return Err(InstallError::EmptyCommand);
        }
        let id = self.next_id;
        self.next_id = if id == u64::MAX { 0 } else { id + 1 };
        let mut log = String::from_str("$ ");
        let mut i: usize = 0;
        while i < argv.len()
            invariant
                0 < argv@.len(),
                i <= argv@.len(),
                log@ == "$ "@ + if i == 0 { Seq::empty() } else { join_spaced(strings_view(argv@).take(i as int)) },
            decreases argv@.len() - i,
        {
            if i > 0 {
                push_str(&mut log, " ");
            }
            push_str(&mut log, argv[i].as_str());
            proof {
                reveal_strlit(" ");
                assert(" "@ =~= seq![' ']);
                let w = strings_view(argv@);
                assert(w.take(i + 1).drop_last() =~= w.take(i as int));
                assert(w.take(i + 1).last() == argv@[i as int]@);
                if i == 0 {
                    assert(w.take(1) =~= seq![w[0]]);
                } else {
                    assert(join_spaced(w.take(i + 1)) == join_spaced(w.take(i as int)) + seq![' '] + argv@[i as int]@);
                }
            }
            i = i + 1;
        }
        push_str(&mut log, "\n");
        proof {
            reveal_strlit("\n");
            assert("\n"@ =~= seq!['\n']);
            assert(strings_view(argv@).take(argv@.len() as int) =~= strings_view(argv@));
            assert(log@ =~= command_line(strings_view(argv@)));
        }
        let task = InstallTask { provider_id: String::from_str(provider_id), state: TaskState::Running, log };
        self.put(id, task);
        Ok(id)
    }

    fn index_of(&self, id: u64) -> (r: Option<usize>)
        requires
            self.wf(),
        ensures
            match r {
                Some(j) => j < self.tasks@.len() && self.tasks@[j as int].0 == id
                    && self.table().contains_key(id) && self.table()[id] == task_view(self.tasks@[j as int].1),
                None => !self.table().contains_key(id),
            },
    {
        let mut j: usize = 0;
        while j < self.tasks.len()
            invariant
                j <= self.tasks@.len(),
                self.wf(),
                forall|k: int| 0 <= k < j ==> (#[trigger] self.tasks@[k]).0 != id,
            decreases self.tasks@.len() - j,
        {
            if self.tasks[j].0 == id {
                proof { self.lemma_lookup(j as int); }
                return Some(j);
            }
            j = j + 1;
        }
        None
    }

    /// Appends `text` to the log of task `id` (no effect if there is none).
    pub fn append_log(&mut self, id: u64, text: &str)
        requires
            old(self).wf(),
        ensures
            final(self).wf(),
            final(self).next() == old(self).next(),
            old(self).table().contains_key(id) ==> final(self).table() == old(self).table().insert(
                id,
                (old(self).table()[id].0, old(self).table()[id].1, old(self).table()[id].2 + text@),
            ),
            !old(self).table().contains_key(id) ==> final(self).table() == old(self).table(),
    {
        if let Some(j) = self.index_of(id) {
            let t = &self.tasks[j].1;
            let mut log = t.log.clone();
            push_str(&mut log, text);
            let task = InstallTask { provider_id: t.provider_id.clone(), state: t.state, log };
            self.put(id, task);
        }
    }

    /// Records how task `id` ended (no effect if there is none).
    pub fn finish(&mut self, id: u64, succeeded: bool)
        requires
            old(self).wf(),
        ensures
            final(self).wf(),
            final(self).next() == old(self).next(),
            old(self).table().contains_key(id) ==> final(self).table() == old(self).table().insert(
                id,
                (old(self).table()[id].0, if succeeded { TaskState::Succeeded } else { TaskState::Failed }, old(self).table()[id].2),
            ),
            !old(self).table().contains_key(id) ==> final(self).table() == old(self).table(),
    {
        if let Some(j) = self.index_of(id) {
            let t = &self.tasks[j].1;
            let state = if succeeded { TaskState::Succeeded } else { TaskState::Failed };
            let task = InstallTask { provider_id: t.provider_id.clone(), state, log: t.log.clone() };
            self.put(id, task);
        }
    }
}

} // verus!
