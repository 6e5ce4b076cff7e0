//! Tasks, the manifests they come from, and how a project's tasks are
//! gathered: every recognised manifest of one directory is read, and their
//! tasks are merged in a fixed order of precedence.
use vstd::prelude::*;
use std::path::PathBuf;
use crate::cargo::{cargo_task_list, cargo_tasks};
use crate::justfile::{justfile_tasks, lemma_justfile_tasks, parse_justfile};
use crate::makefile::{lemma_makefile_tasks, makefile_tasks, parse_makefile};
use crate::npm::{
    lemma_lex_antisym, lemma_lex_total, lemma_lex_trans, lemma_sort_by_name, lex_le, name_le,
    npm_candidates, npm_tasks, parse_npm, PackageJson,
};
use crate::procfile::{lemma_procfile_tasks, parse_procfile, procfile_tasks};
use crate::python::{
    lemma_pipfile_tasks, lemma_pyproject_source, parse_pipfile, parse_pyproject_in, pipfile_tasks,
    pyproject_tasks,
};
use crate::taskfile::{lemma_taskfile_tasks, parse_taskfile, taskfile_tasks};
use crate::text::{slice_of, string_of, string_of_then, to_chars, trim, trim_in};

verus! {

/// How to run a discovered task.
#[derive(Debug, Clone, PartialEq)]
pub enum RunSpec {
    /// A raw command line, run directly or through the shell
    /// (npm scripts, Procfile entries, taskipy tasks).
    Shell(String),
    /// A fixed argv prefix to exec directly; the user's extra args are
    /// appended. Used to delegate to a project tool, e.g. `["make", "build"]`.
    Exec(Vec<String>),
    /// Run `command` inside the project's Python virtualenv when one can be
    /// found (and, where `required` is set, it holds that executable);
    /// otherwise run `fallback`.
    Venv { command: String, required: Option<String>, fallback: Vec<String> },
}

/// The kind of manifest a task comes from.
#[derive(Debug, Clone, Copy, PartialEq, Eq, Structural)]
pub enum SourceKind {
    Npm,
    Make,
    Just,
    Cargo,
    Python,
    Pipenv,
    Procfile,
    Taskfile,
}

impl SourceKind {
    /// The lower-case label shown as a group header when listing tasks.
    pub open spec fn label_text(self) -> Seq<char> {
        match self {
            SourceKind::Npm => "package.json"@,
            SourceKind::Make => "makefile"@,
            SourceKind::Just => "justfile"@,
            SourceKind::Cargo => "cargo.toml"@,
            SourceKind::Python => "pyproject.toml"@,
            SourceKind::Pipenv => "pipfile"@,
            SourceKind::Procfile => "procfile"@,
            SourceKind::Taskfile => "taskfile"@,
        }
    }

    /// Lower-case label shown as a group header when listing tasks.
    pub fn label(self) -> (r: &'static str)
        ensures
            r@ == self.label_text(),
    {
        match self {
            SourceKind::Npm => "package.json",
            SourceKind::Make => "makefile",
            SourceKind::Just => "justfile",
            SourceKind::Cargo => "cargo.toml",
            SourceKind::Python => "pyproject.toml",
            SourceKind::Pipenv => "pipfile",
            SourceKind::Procfile => "procfile",
            SourceKind::Taskfile => "taskfile",
        }
    }
}

/// No label holds an upper-case letter.
pub proof fn lemma_labels_lower_case(k: SourceKind)
    ensures
        forall|i: int|
            0 <= i < k.label_text().len() ==> !(0x41 <= #[trigger] k.label_text()[i] as u32 <= 0x5a),
{
    reveal_strlit("package.json");
    reveal_strlit("makefile");
    reveal_strlit("justfile");
    reveal_strlit("cargo.toml");
    reveal_strlit("pyproject.toml");
    reveal_strlit("pipfile");
    reveal_strlit("procfile");
    reveal_strlit("taskfile");
}

/// Whether a `RunSpec::Venv` task runs its command in the virtualenv: only
/// where a local environment was found and, for a task that requires an
/// executable, that executable is installed in it. Otherwise the launcher
/// fallback runs.
pub fn takes_venv_fast_path(bin_found: bool, required: &Option<String>, required_installed: bool) -> (r:
    bool)
    ensures
        r == (bin_found && (required is None || required_installed)),
{
    bin_found && match required {
        Some(_) => required_installed,
        None => true,
    }
}

/// A runnable task.
#[derive(Debug, Clone)]
pub struct Task {
    pub name: String,
    /// Short preview shown when listing (command line or a hint).
    pub detail: String,
    pub source: SourceKind,
    pub run: RunSpec,
}

/// The abstract value of a `RunSpec`.
pub enum RunView {
    Shell(Seq<char>),
    Exec(Seq<Seq<char>>),
    Venv { command: Seq<char>, required: Option<Seq<char>>, fallback: Seq<Seq<char>> },
}

/// The abstract value of a `Task`.
pub struct TaskView {
    pub name: Seq<char>,
    pub detail: Seq<char>,
    pub source: SourceKind,
    pub run: RunView,
}

pub open spec fn strings_view(v: Seq<String>) -> Seq<Seq<char>> {
    v.map_values(|s: String| s@)
}

pub open spec fn option_string_view(o: Option<String>) -> Option<Seq<char>> {
    match o {
        Some(s) => Some(s@),
        None => None,
    }
}

impl View for RunSpec {
    type V = RunView;

    open spec fn view(&self) -> RunView {
        match self {
            RunSpec::Shell(c) => RunView::Shell(c@),
            RunSpec::Exec(v) => RunView::Exec(strings_view(v@)),
            RunSpec::Venv { command, required, fallback } => RunView::Venv {
                command: command@,
                required: option_string_view(*required),
                fallback: strings_view(fallback@),
            },
        }
    }
}

impl View for Task {
    type V = TaskView;

    open spec fn view(&self) -> TaskView {
        TaskView { name: self.name@, detail: self.detail@, source: self.source, run: self.run@ }
    }
}

pub open spec fn tasks_view(v: Seq<Task>) -> Seq<TaskView> {
    v.map_values(|t: Task| t@)
}

/// Some task of `ts` is named `n`.
pub open spec fn has_name(ts: Seq<TaskView>, n: Seq<char>) -> bool {
    exists|i: int| 0 <= i < ts.len() && (#[trigger] ts[i]).name == n
}

/// `ts` with every task dropped whose name an earlier task already has.
pub open spec fn dedup_tasks(ts: Seq<TaskView>) -> Seq<TaskView>
    decreases ts.len(),
{
    if ts.len() == 0 {
        seq![]
    } else {
        let d = dedup_tasks(ts.drop_last());
        if has_name(d, ts.last().name) {
            d
        } else {
            d.push(ts.last())
        }
    }
}

/// Deduplicating one more task keeps it exactly when its name is new.
pub proof fn lemma_dedup_push(ts: Seq<TaskView>, t: TaskView)
    ensures
        dedup_tasks(ts.push(t)) == if has_name(dedup_tasks(ts), t.name) {
            dedup_tasks(ts)
        } else {
            dedup_tasks(ts).push(t)
        },
{
    assert(ts.push(t).drop_last() =~= ts);
}

/// No two tasks of `ts` share a name.
pub open spec fn names_distinct(ts: Seq<TaskView>) -> bool {
    forall|i: int, j: int| 0 <= i < j < ts.len() ==> (#[trigger] ts[i]).name != (#[trigger] ts[j]).name
}

/// Deduplication leaves no two tasks with one name, keeps only tasks of the
/// input, and keeps a task of every name the input has: the first one.
pub proof fn lemma_dedup_tasks(ts: Seq<TaskView>)
    ensures
        names_distinct(dedup_tasks(ts)),
        forall|i: int| 0 <= i < dedup_tasks(ts).len() ==> ts.contains(#[trigger] dedup_tasks(ts)[i]),
        forall|n: Seq<char>| has_name(ts, n) <==> has_name(dedup_tasks(ts), n),
    decreases ts.len(),
{
    if ts.len() > 0 {
        let p = ts.drop_last();
        let d = dedup_tasks(p);
        lemma_dedup_tasks(p);
        assert forall|i: int| 0 <= i < dedup_tasks(ts).len() implies ts.contains(
            #[trigger] dedup_tasks(ts)[i],
        ) by {
            if i < d.len() {
                let k = choose|k: int| 0 <= k < p.len() && p[k] == d[i];
                assert(ts[k] == p[k]);
            } else {
                assert(ts[ts.len() - 1] == ts.last());
            }
        }
        assert forall|n: Seq<char>| has_name(ts, n) <==> has_name(dedup_tasks(ts), n) by {
            if has_name(ts, n) {
                let k = choose|k: int| 0 <= k < ts.len() && (#[trigger] ts[k]).name == n;
                if k < p.len() {
                    assert(p[k].name == n);
                    assert(has_name(p, n));
                    assert(has_name(d, n));
                    let j = choose|j: int| 0 <= j < d.len() && (#[trigger] d[j]).name == n;
                    assert(dedup_tasks(ts)[j] == d[j]);
                } else if !has_name(d, n) {
                    assert(dedup_tasks(ts)[d.len() as int] == ts.last());
                } else {
                    let j = choose|j: int| 0 <= j < d.len() && (#[trigger] d[j]).name == n;
                    assert(dedup_tasks(ts)[j] == d[j]);
                }
            }
            if has_name(dedup_tasks(ts), n) {
                let j = choose|j: int| 0 <= j < dedup_tasks(ts).len() && (#[trigger] dedup_tasks(ts)[j]).name == n;
                if j < d.len() {
                    assert(dedup_tasks(ts)[j] == d[j]);
                    assert(has_name(d, n));
                    assert(has_name(p, n));
                    let k = choose|k: int| 0 <= k < p.len() && (#[trigger] p[k]).name == n;
                    assert(ts[k] == p[k]);
                } else {
                    assert(ts[ts.len() - 1].name == n);
                }
            }
        }
    }
}

/// Deduplication keeps the first task of each name, where it can be found
/// among the kept tasks by its name.
pub proof fn lemma_dedup_keeps_first(ts: Seq<TaskView>, n: Seq<char>, k: int)
    requires
        is_first_named(ts, n, k),
    ensures
        exists|i: int| is_first_named(dedup_tasks(ts), n, i) && dedup_tasks(ts)[i] == ts[k],
    decreases ts.len(),
{
    let p = ts.drop_last();
    let d = dedup_tasks(p);
    lemma_dedup_tasks(p);
    if k < ts.len() - 1 {
        assert forall|j: int| 0 <= j < k implies (#[trigger] p[j]).name != n by {
            assert(p[j] == ts[j]);
        }
        assert(p[k] == ts[k]);
        lemma_dedup_keeps_first(p, n, k);
        let i = choose|i: int| is_first_named(d, n, i) && d[i] == p[k];
        assert(dedup_tasks(ts)[i] == d[i]);
        assert forall|j: int| 0 <= j < i implies (#[trigger] dedup_tasks(ts)[j]).name != n by {
            assert(dedup_tasks(ts)[j] == d[j]);
        }
        assert(is_first_named(dedup_tasks(ts), n, i));
    } else {
        assert(!has_name(p, n)) by {
            if has_name(p, n) {
                let j = choose|j: int| 0 <= j < p.len() && (#[trigger] p[j]).name == n;
                assert(ts[j] == p[j]);
            }
        }
        assert(!has_name(d, n));
        let i = d.len() as int;
        assert(dedup_tasks(ts) == d.push(ts.last()));
        assert forall|j: int| 0 <= j < i implies (#[trigger] dedup_tasks(ts)[j]).name != n by {
            assert(dedup_tasks(ts)[j] == d[j]);
        }
        assert(is_first_named(dedup_tasks(ts), n, i));
    }
}

/// Every kept task is the first task of its name in the input.
pub proof fn lemma_dedup_element(ts: Seq<TaskView>, i: int)
    requires
        0 <= i < dedup_tasks(ts).len(),
    ensures
        exists|k: int| is_first_named(ts, dedup_tasks(ts)[i].name, k) && ts[k] == dedup_tasks(ts)[i],
{
    let d = dedup_tasks(ts);
    let n = d[i].name;
    lemma_dedup_tasks(ts);
    assert(has_name(d, n));
    assert(has_name(ts, n));
    lemma_first_named_exists(ts, n);
    let k = choose|k: int| is_first_named(ts, n, k);
    lemma_dedup_keeps_first(ts, n, k);
    let i2 = choose|i2: int| is_first_named(d, n, i2) && d[i2] == ts[k];
    if i2 != i {
        if i2 < i {
            assert(d[i2].name == d[i].name);
        } else {
            assert(d[i].name == d[i2].name);
        }
    }
}

/// The names of the deduplicated tasks are the deduplicated names.
pub proof fn lemma_dedup_task_names(ts: Seq<TaskView>)
    ensures
        dedup_tasks(ts).map_values(|t: TaskView| t.name) == dedup_names(
            ts.map_values(|t: TaskView| t.name),
        ),
    decreases ts.len(),
{
    if ts.len() > 0 {
        let p = ts.drop_last();
        lemma_dedup_task_names(p);
        let d = dedup_tasks(p);
        let dn = d.map_values(|t: TaskView| t.name);
        assert(ts.map_values(|t: TaskView| t.name).drop_last() =~= p.map_values(
            |t: TaskView| t.name,
        ));
        assert(has_name(d, ts.last().name) <==> dn.contains(ts.last().name)) by {
            if has_name(d, ts.last().name) {
                let j = choose|j: int| 0 <= j < d.len() && (#[trigger] d[j]).name == ts.last().name;
                assert(dn[j] == ts.last().name);
            }
            if dn.contains(ts.last().name) {
                let j = choose|j: int| 0 <= j < dn.len() && dn[j] == ts.last().name;
                assert(d[j].name == ts.last().name);
            }
        }
        if !has_name(d, ts.last().name) {
            assert(d.push(ts.last()).map_values(|t: TaskView| t.name) =~= dn.push(ts.last().name));
        }
    } else {
        assert(dedup_tasks(ts).map_values(|t: TaskView| t.name) =~= Seq::<Seq<char>>::empty());
    }
}

/// Deduplicating tasks with distinct names keeps them all.
pub proof fn lemma_dedup_distinct(ts: Seq<TaskView>)
    requires
        names_distinct(ts),
    ensures
        dedup_tasks(ts) == ts,
    decreases ts.len(),
{
    if ts.len() > 0 {
        let p = ts.drop_last();
        assert(names_distinct(p)) by {
            assert forall|i: int, j: int| 0 <= i < j < p.len() implies (#[trigger] p[i]).name != (
            #[trigger] p[j]).name by {
                assert(p[i] == ts[i] && p[j] == ts[j]);
            }
        }
        lemma_dedup_distinct(p);
        if has_name(p, ts.last().name) {
            let j = choose|j: int| 0 <= j < p.len() && (#[trigger] p[j]).name == ts.last().name;
            assert(ts[j] == p[j]);
            assert(false);
        }
        assert(ts =~= p.push(ts.last()));
    }
}

/// Deduplicating a longer sequence only adds tasks after those kept from its
/// start.
pub proof fn lemma_dedup_prefix(a: Seq<TaskView>, b: Seq<TaskView>)
    ensures
        dedup_tasks(a).len() <= dedup_tasks(a + b).len(),
        dedup_tasks(a + b).take(dedup_tasks(a).len() as int) == dedup_tasks(a),
    decreases b.len(),
{
    if b.len() == 0 {
        assert(a + b =~= a);
        assert(dedup_tasks(a).take(dedup_tasks(a).len() as int) =~= dedup_tasks(a));
    } else {
        let b2 = b.drop_last();
        lemma_dedup_prefix(a, b2);
        assert((a + b).drop_last() =~= a + b2);
        let d2 = dedup_tasks(a + b2);
        let n = dedup_tasks(a).len() as int;
        assert(dedup_tasks(a + b).take(n) =~= d2.take(n));
    }
}

/// `ns` with every name dropped that occurs earlier.
pub open spec fn dedup_names(ns: Seq<Seq<char>>) -> Seq<Seq<char>>
    decreases ns.len(),
{
    if ns.len() == 0 {
        seq![]
    } else {
        let d = dedup_names(ns.drop_last());
        if d.contains(ns.last()) {
            d
        } else {
            d.push(ns.last())
        }
    }
}

/// Deduplicated names hold no name twice.
pub proof fn lemma_dedup_names(ns: Seq<Seq<char>>)
    ensures
        dedup_names(ns).no_duplicates(),
    decreases ns.len(),
{
    if ns.len() > 0 {
        lemma_dedup_names(ns.drop_last());
    }
}

/// Deduplicating names keeps every name that occurs and adds none.
pub proof fn lemma_dedup_names_contains(ns: Seq<Seq<char>>)
    ensures
        forall|n: Seq<char>| dedup_names(ns).contains(n) <==> ns.contains(n),
    decreases ns.len(),
{
    if ns.len() > 0 {
        let p = ns.drop_last();
        lemma_dedup_names_contains(p);
        let d = dedup_names(p);
        let dn = dedup_names(ns);
        assert(forall|n: Seq<char>| d.contains(n) <==> p.contains(n));
        if d.contains(ns.last()) {
            assert(dn == d);
            assert forall|n: Seq<char>| dn.contains(n) <==> ns.contains(n) by {
                if ns.contains(n) {
                    let k = choose|k: int| 0 <= k < ns.len() && ns[k] == n;
                    if k < p.len() {
                        assert(p[k] == n);
                    }
                    assert(p.contains(n));
                }
                if dn.contains(n) {
                    assert(p.contains(n));
                    let k = choose|k: int| 0 <= k < p.len() && p[k] == n;
                    assert(ns[k] == p[k]);
                }
            }
        } else {
            assert(dn == d.push(ns.last()));
            assert forall|n: Seq<char>| dn.contains(n) <==> ns.contains(n) by {
                if ns.contains(n) {
                    let k = choose|k: int| 0 <= k < ns.len() && ns[k] == n;
                    if k < p.len() {
                        assert(p[k] == n);
                        assert(p.contains(n));
                        let j = choose|j: int| 0 <= j < d.len() && d[j] == n;
                        assert(dn[j] == n);
                    } else {
                        assert(dn[d.len() as int] == n);
                    }
                }
                if dn.contains(n) {
                    let j = choose|j: int| 0 <= j < dn.len() && dn[j] == n;
                    if j < d.len() {
                        assert(d[j] == n);
                        assert(p.contains(n));
                        let k = choose|k: int| 0 <= k < p.len() && p[k] == n;
                        assert(ns[k] == p[k]);
                    } else {
                        assert(ns[ns.len() - 1] == n);
                    }
                }
            }
        }
    }
}

/// Appends `t` unless a task of `out` already has its name: the earlier
/// task keeps the name.
pub fn push_unique(out: &mut Vec<Task>, t: Task)
    ensures
        tasks_view(final(out)@) == if has_name(tasks_view(old(out)@), t@.name) {
            tasks_view(old(out)@)
        } else {
            tasks_view(old(out)@).push(t@)
        },
{
    let ghost old_v = tasks_view(out@);
    let mut i: usize = 0;
    while i < out.len()
        invariant
            i <= out@.len(),
            old_v == tasks_view(out@),
            forall|j: int| 0 <= j < i ==> (#[trigger] old_v[j]).name != t@.name,
        decreases out@.len() - i,
    {
        if out[i].name == t.name {
            assert(old_v[i as int].name == t@.name);
            return;
        }
        i += 1;
    }
    out.push(t);
    assert(tasks_view(out@) =~= old_v.push(t@));
}

/// Appends `n` unless `out` already holds that name.
pub fn push_unique_name(out: &mut Vec<String>, n: String)
    ensures
        strings_view(final(out)@) == if strings_view(old(out)@).contains(n@) {
            strings_view(old(out)@)
        } else {
            strings_view(old(out)@).push(n@)
        },
{
    let ghost old_v = strings_view(out@);
    let mut i: usize = 0;
    while i < out.len()
        invariant
            i <= out@.len(),
            old_v == strings_view(out@),
            forall|j: int| 0 <= j < i ==> old_v[j] != n@,
        decreases out@.len() - i,
    {
        if out[i] == n {
            assert(old_v[i as int] == n@);
            return;
        }
        i += 1;
    }
    out.push(n);
    assert(strings_view(out@) =~= old_v.push(n@));
}

/// The preview of a command shown when listing: the trimmed command, cut to
/// at most 64 characters with an ellipsis as the last one.
pub open spec fn truncated(s: Seq<char>) -> Seq<char> {
    let t = trim(s);
    if t.len() > 64 {
        t.take(63).push('…')
    } else {
        t
    }
}

/// `truncated(s[lo..hi])`.
pub fn truncate_in(s: &Vec<char>, lo: usize, hi: usize) -> (r: String)
    requires
        lo <= hi <= s@.len(),
    ensures
        r@ == truncated(slice_of(s@, lo as int, hi as int)),
        r@.len() <= 64,
{
    let (a, b) = trim_in(s, lo, hi);
    if b - a > 64 {
        let r = string_of_then(s, a, a + 63, '…');
        assert(slice_of(s@, a as int, b as int).take(63) =~= s@.subrange(a as int, a + 63));
        r
    } else {
        string_of(s, a, b)
    }
}

/// The preview of a command shown when listing.
pub fn truncate(s: &str) -> (r: String)
    ensures
        r@ == truncated(s@),
        r@.len() <= 64,
        trim(s@).len() <= 64 ==> r@ == trim(s@),
{
    let v = to_chars(s);
    assert(slice_of(v@, 0, v@.len() as int) =~= s@);
    truncate_in(&v, 0, v.len())
}

/// A vector of two strings.
pub fn strings2(a: String, b: String) -> (r: Vec<String>)
    ensures
        strings_view(r@) == seq![a@, b@],
{
    let r = vec![a, b];
    assert(strings_view(r@) =~= seq![a@, b@]);
    r
}

/// A vector of three strings.
pub fn strings3(a: String, b: String, c: String) -> (r: Vec<String>)
    ensures
        strings_view(r@) == seq![a@, b@, c@],
{
    let r = vec![a, b, c];
    assert(strings_view(r@) =~= seq![a@, b@, c@]);
    r
}

/// A directory path, carried through as it is.
#[verifier::external_type_specification]
#[verifier::external_body]
pub struct ExPathBuf(PathBuf);

/// The recognised manifests of one directory, as read from it: the text of
/// each one that could be read (`None` where none could), whether a
/// Cargo.toml and a uv.lock exist, and for package.json the decoded document
/// (`Some(None)` where the file was read but could not be decoded).
pub struct DirFiles {
    pub package_json: Option<Option<PackageJson>>,
    pub makefile: Option<String>,
    pub justfile: Option<String>,
    pub cargo_toml: bool,
    pub pyproject: Option<String>,
    pub uv_lock: bool,
    pub pipfile: Option<String>,
    pub procfile: Option<String>,
    pub taskfile: Option<String>,
}

pub open spec fn kind_if(present: bool, kind: SourceKind) -> Seq<SourceKind> {
    if present {
        seq![kind]
    } else {
        seq![]
    }
}

pub open spec fn text_tasks(text: Option<String>, f: spec_fn(Seq<char>) -> Seq<TaskView>) -> Seq<
    TaskView,
> {
    match text {
        Some(c) => f(c@),
        None => seq![],
    }
}

/// The manifests present in a directory, in precedence order: package.json,
/// Makefile, justfile, Cargo.toml, pyproject.toml, Pipfile, Procfile,
/// Taskfile. A manifest counts even if it yields no task.
pub open spec fn collected_manifests(f: &DirFiles) -> Seq<SourceKind> {
    kind_if(f.package_json is Some, SourceKind::Npm) + kind_if(f.makefile is Some, SourceKind::Make)
        + kind_if(f.justfile is Some, SourceKind::Just) + kind_if(f.cargo_toml, SourceKind::Cargo)
        + kind_if(f.pyproject is Some, SourceKind::Python) + kind_if(
        f.pipfile is Some,
        SourceKind::Pipenv,
    ) + kind_if(f.procfile is Some, SourceKind::Procfile) + kind_if(
        f.taskfile is Some,
        SourceKind::Taskfile,
    )
}

/// The tasks of each manifest kind of a directory, in precedence order
/// (empty where the manifest is absent).
pub open spec fn sections(f: &DirFiles) -> Seq<Seq<TaskView>> {
    seq![
        match f.package_json {
            Some(p) => npm_tasks(p),
            None => seq![],
        },
        text_tasks(f.makefile, |c: Seq<char>| makefile_tasks(c)),
        text_tasks(f.justfile, |c: Seq<char>| justfile_tasks(c)),
        if f.cargo_toml {
            cargo_task_list()
        } else {
            seq![]
        },
        text_tasks(f.pyproject, |c: Seq<char>| pyproject_tasks(c, f.uv_lock)),
        text_tasks(f.pipfile, |c: Seq<char>| pipfile_tasks(c)),
        text_tasks(f.procfile, |c: Seq<char>| procfile_tasks(c)),
        text_tasks(f.taskfile, |c: Seq<char>| taskfile_tasks(c)),
    ]
}

/// Every task of a directory: each manifest's tasks, manifests in precedence
/// order. All are listed, also where names repeat across manifests.
pub open spec fn collected_tasks(f: &DirFiles) -> Seq<TaskView> {
    let s = sections(f);
    s[0] + s[1] + s[2] + s[3] + s[4] + s[5] + s[6] + s[7]
}

/// Appends `more` to `tasks`.
fn append_tasks(tasks: &mut Vec<Task>, more: Vec<Task>)
    ensures
        tasks_view(final(tasks)@) == tasks_view(old(tasks)@) + tasks_view(more@),
{
    let mut more = more;
    let ghost a = tasks@;
    let ghost b = more@;
    tasks.append(&mut more);
    assert(tasks_view(tasks@) =~= tasks_view(a) + tasks_view(b));
}

/// Appends the tasks of a manifest's text, if it was read.
fn add_text_tasks(
    manifests: &mut Vec<SourceKind>,
    tasks: &mut Vec<Task>,
    kind: SourceKind,
    text: &Option<String>,
    parse: impl Fn(&str) -> Vec<Task>,
    f: Ghost<spec_fn(Seq<char>) -> Seq<TaskView>>,
)
    requires
        forall|c: &str| call_requires(parse, (c,)),
        forall|c: &str, r: Vec<Task>| call_ensures(parse, (c,), r) ==> tasks_view(r@) == f@(c@),
    ensures
        final(manifests)@ == old(manifests)@ + kind_if(text is Some, kind),
        tasks_view(final(tasks)@) == tasks_view(old(tasks)@) + text_tasks(*text, f@),
{
    match text {
        Some(c) => {
            manifests.push(kind);
            let found = parse(c.as_str());
            append_tasks(tasks, found);
        },
        None => {
            assert(manifests@ =~= manifests@ + kind_if(false, kind));
            assert(tasks_view(tasks@) =~= tasks_view(tasks@) + Seq::<TaskView>::empty());
        },
    }
}

/// Reads every recognised manifest of a directory and merges their tasks. The
/// order of the sources defines name-resolution precedence and listing order.
pub fn collect(files: DirFiles) -> (r: (Vec<SourceKind>, Vec<Task>))
    ensures
        r.0@ == collected_manifests(&files),
        tasks_view(r.1@) == collected_tasks(&files),
{
    let ghost f = files;
    let mut manifests: Vec<SourceKind> = Vec::new();
    let mut tasks: Vec<Task> = Vec::new();
    let DirFiles {
        package_json,
        makefile,
        justfile,
        cargo_toml,
        pyproject,
        uv_lock,
        pipfile,
        procfile,
        taskfile,
    } = files;
    // npm: package.json `scripts`.
    match package_json {
        Some(p) => {
            manifests.push(SourceKind::Npm);
            let found = parse_npm(p);
            append_tasks(&mut tasks, found);
        },
        None => {},
    }
    assert(manifests@ =~= kind_if(f.package_json is Some, SourceKind::Npm));
    // Makefile.
    add_text_tasks(
        &mut manifests,
        &mut tasks,
        SourceKind::Make,
        &makefile,
        parse_makefile,
        Ghost(|c: Seq<char>| makefile_tasks(c)),
    );
    // justfile.
    add_text_tasks(
        &mut manifests,
        &mut tasks,
        SourceKind::Just,
        &justfile,
        parse_justfile,
        Ghost(|c: Seq<char>| justfile_tasks(c)),
    );
    // Cargo.toml: the conventional cargo commands.
    if cargo_toml {
        manifests.push(SourceKind::Cargo);
        let found = cargo_tasks();
        append_tasks(&mut tasks, found);
    } else {
        assert(manifests@ =~= manifests@ + kind_if(false, SourceKind::Cargo));
        assert(tasks_view(tasks@) =~= tasks_view(tasks@) + Seq::<TaskView>::empty());
    }
    // pyproject.toml: pdm / poetry / taskipy task tables, and uv scripts.
    match pyproject {
        Some(c) => {
            manifests.push(SourceKind::Python);
            let found = parse_pyproject_in(c.as_str(), uv_lock);
            append_tasks(&mut tasks, found);
        },
        None => {
            assert(manifests@ =~= manifests@ + kind_if(false, SourceKind::Python));
            assert(tasks_view(tasks@) =~= tasks_view(tasks@) + Seq::<TaskView>::empty());
        },
    }
    // Pipfile: pipenv `[scripts]`.
    add_text_tasks(
        &mut manifests,
        &mut tasks,
        SourceKind::Pipenv,
        &pipfile,
        parse_pipfile,
        Ghost(|c: Seq<char>| pipfile_tasks(c)),
    );
    // Procfile.
    add_text_tasks(
        &mut manifests,
        &mut tasks,
        SourceKind::Procfile,
        &procfile,
        parse_procfile,
        Ghost(|c: Seq<char>| procfile_tasks(c)),
    );
    // Taskfile (go-task).
    add_text_tasks(
        &mut manifests,
        &mut tasks,
        SourceKind::Taskfile,
        &taskfile,
        parse_taskfile,
        Ghost(|c: Seq<char>| taskfile_tasks(c)),
    );
    (manifests, tasks)
}

/// The result of walking up the tree to find a project.
pub struct Detection {
    /// Directory the tasks were found in; commands run here.
    pub dir: PathBuf,
    /// Manifest files present in `dir` (even if they yielded no tasks).
    pub manifests: Vec<SourceKind>,
    /// Every runnable task, in source-precedence order.
    pub tasks: Vec<Task>,
}

/// `i` is the position of the first task of `ts` named `n`.
pub open spec fn is_first_named(ts: Seq<TaskView>, n: Seq<char>, i: int) -> bool {
    &&& 0 <= i < ts.len()
    &&& ts[i].name == n
    &&& forall|j: int| 0 <= j < i ==> (#[trigger] ts[j]).name != n
}

impl Detection {
    /// Whether the listing prints a group header before task `i`: before the
    /// first task, and before each task from another source than the one
    /// before it.
    pub fn starts_group(&self, i: usize) -> (r: bool)
        ensures
            r == (i < self.tasks@.len() && (i == 0 || self.tasks@[i - 1].source
                != self.tasks@[i as int].source)),
    {
        if i >= self.tasks.len() {
            false
        } else if i == 0 {
            true
        } else {
            self.tasks[i - 1].source != self.tasks[i].source
        }
    }

    /// First task matching `name`, honouring source precedence.
    pub fn find(&self, name: &str) -> (r: Option<&Task>)
        ensures
            match r {
                Some(t) => exists|i: int|
                    is_first_named(tasks_view(self.tasks@), name@, i) && *t == self.tasks@[i],
                None => !has_name(tasks_view(self.tasks@), name@),
            },
    {
        let ghost tv = tasks_view(self.tasks@);
        let wanted = String::from_str(name);
        let mut i: usize = 0;
        while i < self.tasks.len()
            invariant
                i <= self.tasks@.len(),
                tv == tasks_view(self.tasks@),
                wanted@ == name@,
                forall|j: int| 0 <= j < i ==> (#[trigger] tv[j]).name != name@,
            decreases self.tasks@.len() - i,
        {
            if self.tasks[i].name == wanted {
                assert(is_first_named(tv, name@, i as int));
                return Some(&self.tasks[i]);
            }
            i += 1;
        }
        None
    }
}

/// `s` is strictly increasing.
pub open spec fn strictly_sorted(s: Seq<Seq<char>>) -> bool {
    forall|i: int, j: int|
        0 <= i < j < s.len() ==> lex_le(#[trigger] s[i], #[trigger] s[j]) && s[i] != s[j]
}

/// Inserts `n` into the strictly increasing `out` unless it is there.
fn insert_name_sorted(out: &mut Vec<String>, n: String)
    requires
        strictly_sorted(strings_view(old(out)@)),
    ensures
        strictly_sorted(strings_view(final(out)@)),
        strings_view(final(out)@).to_set() == strings_view(old(out)@).to_set().insert(n@),
{
    let ghost s = strings_view(out@);
    let mut i: usize = 0;
    while i < out.len() && name_le(&out[i], &n) && !(out[i] == n)
        invariant
            i <= out@.len(),
            s == strings_view(out@),
            strictly_sorted(s),
            forall|j: int| 0 <= j < i ==> lex_le(#[trigger] s[j], n@) && s[j] != n@,
        decreases out@.len() - i,
    {
        i += 1;
    }
    if i < out.len() && out[i] == n {
        assert(s[i as int] == n@);
        assert(s.to_set() =~= s.to_set().insert(n@));
        return;
    }
    proof {
        if i < s.len() {
            lemma_lex_total(s[i as int], n@);
        }
    }
    let ghost nv = n@;
    out.insert(i, n);
    let ghost r = strings_view(out@);
    assert(r =~= s.insert(i as int, nv));
    assert forall|a: int, b: int| 0 <= a < b < r.len() implies lex_le(#[trigger] r[a], #[trigger] r[b])
        && r[a] != r[b] by {
        if b == i {
            assert(r[a] == s[a]);
        } else if a == i {
            assert(r[b] == s[b - 1]);
            if b - 1 > i {
                lemma_lex_trans(nv, s[i as int], s[b - 1]);
                if nv == s[b - 1] {
                    lemma_lex_antisym(s[i as int], s[b - 1]);
                }
            }
        } else if a < i && b > i {
            assert(r[a] == s[a] && r[b] == s[b - 1]);
        } else if b < i {
            assert(r[a] == s[a] && r[b] == s[b]);
        } else {
            assert(r[a] == s[a - 1] && r[b] == s[b - 1]);
        }
    }
    assert forall|x: Seq<char>| r.to_set().contains(x) <==> s.to_set().insert(nv).contains(x) by {
        if r.contains(x) {
            let k = choose|k: int| 0 <= k < r.len() && r[k] == x;
            if k < i {
                assert(s[k] == x);
            } else if k > i {
                assert(s[k - 1] == x);
            }
        }
        if s.contains(x) {
            let k = choose|k: int| 0 <= k < s.len() && s[k] == x;
            if k < i {
                assert(r[k] == x);
            } else {
                assert(r[k + 1] == x);
            }
        }
        if x == nv {
            assert(r[i as int] == x);
        }
    }
    assert(r.to_set() =~= s.to_set().insert(nv));
}

impl Detection {
    /// The names of the tasks, each once, in increasing order.
    pub fn task_names(&self) -> (r: Vec<String>)
        ensures
            strictly_sorted(strings_view(r@)),
            strings_view(r@).to_set() == tasks_view(self.tasks@).map_values(
                |t: TaskView| t.name,
            ).to_set(),
    {
        let ghost names = tasks_view(self.tasks@).map_values(|t: TaskView| t.name);
        let mut out: Vec<String> = Vec::new();
        let mut i: usize = 0;
        assert(strings_view(out@).to_set() =~= names.take(0).to_set());
        while i < self.tasks.len()
            invariant
                i <= self.tasks@.len(),
                names == tasks_view(self.tasks@).map_values(|t: TaskView| t.name),
                strictly_sorted(strings_view(out@)),
                strings_view(out@).to_set() == names.take(i as int).to_set(),
            decreases self.tasks@.len() - i,
        {
            let n = self.tasks[i].name.clone();
            let ghost nv = n@;
            assert(names[i as int] == nv);
            insert_name_sorted(&mut out, n);
            proof {
                let a = names.take(i as int);
                let b = names.take(i + 1);
                assert(b =~= a.push(nv));
                assert forall|x: Seq<char>| b.to_set().contains(x) <==> a.to_set().insert(nv).contains(x) by {
                    if b.contains(x) {
                        let k = choose|k: int| 0 <= k < b.len() && b[k] == x;
                        if k < i {
                            assert(a[k] == x);
                        }
                    }
                    if a.contains(x) {
                        let k = choose|k: int| 0 <= k < a.len() && a[k] == x;
                        assert(b[k] == x);
                    }
                    if x == nv {
                        assert(b[i as int] == x);
                    }
                }
                assert(b.to_set() =~= a.to_set().insert(nv));
            }
            i += 1;
        }
        assert(names.take(i as int) =~= names);
        out
    }
}

/// A directory holds at least one recognised manifest.
pub open spec fn has_manifest(f: &DirFiles) -> bool {
    collected_manifests(f).len() > 0
}

/// The result of detecting in `levels`, those being the directories from the
/// start up to the filesystem root, each with its manifests: the first
/// directory that holds a recognised manifest, with its manifests and tasks.
pub open spec fn detects(levels: Seq<(PathBuf, DirFiles)>, d: Detection, k: int) -> bool {
    &&& 0 <= k < levels.len()
    &&& has_manifest(&levels[k].1)
    &&& forall|j: int| 0 <= j < k ==> !has_manifest(&(#[trigger] levels[j]).1)
    &&& d.dir == levels[k].0
    &&& d.manifests@ == collected_manifests(&levels[k].1)
    &&& tasks_view(d.tasks@) == collected_tasks(&levels[k].1)
}

/// Walks up the directories `levels` (from the start to the filesystem root,
/// each with the manifests read from it) and returns the first that contains
/// at least one recognised manifest.
pub fn detect_from(levels: Vec<(PathBuf, DirFiles)>) -> (r: Option<Detection>)
    ensures
        match r {
            Some(d) => exists|k: int| detects(levels@, d, k),
            None => forall|k: int| 0 <= k < levels@.len() ==> !has_manifest(&(#[trigger] levels@[k]).1),
        },
{
    let ghost all = levels@;
    let n = levels.len();
    let mut rest = levels;
    let mut i: usize = 0;
    assert(all.skip(0) =~= all);
    while rest.len() > 0
        invariant
            i <= all.len(),
            all == levels@,
            n == all.len(),
            i + rest@.len() == all.len(),
            rest@ == all.skip(i as int),
            forall|j: int| 0 <= j < i ==> !has_manifest(&(#[trigger] all[j]).1),
        decreases rest@.len(),
    {
        let (dir, files) = rest.remove(0);
        assert(all[i as int] == (dir, files));
        let (manifests, tasks) = collect(files);
        if manifests.len() > 0 {
            let d = Detection { dir, manifests, tasks };
            assert(detects(all, d, i as int));
            let res = Some(d);
            assert(res->0 == d);
            assert(detects(levels@, res->0, i as int));
            return res;
        }
        assert(rest@ =~= all.skip(i + 1));
        i += 1;
    }
    None
}

/// Where some task is named `n`, a first one is.
pub proof fn lemma_first_named_exists(ts: Seq<TaskView>, n: Seq<char>)
    requires
        has_name(ts, n),
    ensures
        exists|i: int| is_first_named(ts, n, i),
    decreases ts.len(),
{
    let p = ts.drop_last();
    if has_name(p, n) {
        lemma_first_named_exists(p, n);
        let i = choose|i: int| is_first_named(p, n, i);
        assert forall|j: int| 0 <= j < i implies (#[trigger] ts[j]).name != n by {
            assert(p[j] == ts[j]);
        }
        assert(p[i] == ts[i]);
        assert(is_first_named(ts, n, i));
    } else {
        assert forall|j: int| 0 <= j < ts.len() - 1 implies (#[trigger] ts[j]).name != n by {
            assert(p[j] == ts[j]);
        }
        assert(is_first_named(ts, n, ts.len() - 1));
    }
}

/// package.json wins any name collision: where a directory's package.json
/// has a script named `n`, the first of the directory's tasks named `n`
/// (the one `Detection::find` gives) is one of its npm scripts.
pub proof fn lemma_npm_wins(f: DirFiles, p: Option<PackageJson>, n: Seq<char>)
    requires
        f.package_json == Some(p),
        has_name(npm_tasks(p), n),
    ensures
        exists|i: int|
            is_first_named(collected_tasks(&f), n, i) && (#[trigger] collected_tasks(&f)[i]).source
                == SourceKind::Npm && npm_tasks(p).contains(collected_tasks(&f)[i]),
{
    broadcast use vstd::seq_lib::group_to_multiset_ensures;

    let ts = npm_tasks(p);
    let all = collected_tasks(&f);
    let rest = all.subrange(ts.len() as int, all.len() as int);
    assert(all =~= ts + rest);
    lemma_first_named_exists(ts, n);
    let i = choose|i: int| is_first_named(ts, n, i);
    assert(all[i] == ts[i]);
    assert(is_first_named(all, n, i));
    let c = npm_candidates(p);
    lemma_sort_by_name(c);
    assert(ts.to_multiset().count(ts[i]) > 0);
    assert(c.contains(ts[i]));
    let k = choose|k: int| 0 <= k < c.len() && c[k] == ts[i];
    assert(c[k].source == SourceKind::Npm);
}

/// A directory's tasks are its manifests' tasks, one manifest after another.
pub proof fn lemma_collected_sections(f: &DirFiles)
    ensures
        collected_tasks(f) == sections(f).flatten(),
{
    lemma_flatten8(sections(f));
}

/// Flattening eight sequences concatenates them in order.
proof fn lemma_flatten8(s: Seq<Seq<TaskView>>)
    requires
        s.len() == 8,
    ensures
        s.flatten() == s[0] + s[1] + s[2] + s[3] + s[4] + s[5] + s[6] + s[7],
{
    let t1 = s.drop_first();
    let t2 = t1.drop_first();
    let t3 = t2.drop_first();
    let t4 = t3.drop_first();
    let t5 = t4.drop_first();
    let t6 = t5.drop_first();
    let t7 = t6.drop_first();
    let t8 = t7.drop_first();
    assert(t8.flatten() =~= Seq::<TaskView>::empty());
    assert(t7.flatten() =~= s[7]);
    assert(t6.flatten() == s[6] + t7.flatten());
    assert(t5.flatten() == s[5] + t6.flatten());
    assert(t4.flatten() == s[4] + t5.flatten());
    assert(t3.flatten() == s[3] + t4.flatten());
    assert(t2.flatten() == s[2] + t3.flatten());
    assert(t1.flatten() == s[1] + t2.flatten());
    assert(s.flatten() == s[0] + t1.flatten());
    assert(s.flatten() =~= s[0] + s[1] + s[2] + s[3] + s[4] + s[5] + s[6] + s[7]);
}

/// Flattening splits around any one of the flattened sequences.
proof fn lemma_flatten_split(s: Seq<Seq<TaskView>>, j: int)
    requires
        0 <= j < s.len(),
    ensures
        s.flatten() == s.take(j).flatten() + s[j] + s.skip(j + 1).flatten(),
    decreases j,
{
    if j == 0 {
        assert(s.take(0).flatten() =~= Seq::<TaskView>::empty());
        assert(s.skip(1) =~= s.drop_first());
        assert(s.flatten() =~= s.take(0).flatten() + s[0] + s.skip(1).flatten());
    } else {
        let d = s.drop_first();
        lemma_flatten_split(d, j - 1);
        assert(s.take(j).drop_first() =~= d.take(j - 1));
        assert(s.take(j).flatten() == s[0] + d.take(j - 1).flatten());
        assert(d.skip(j) =~= s.skip(j + 1));
        assert(d[j - 1] == s[j]);
        assert(s.flatten() =~= s.take(j).flatten() + s[j] + s.skip(j + 1).flatten());
    }
}

/// Where none of the flattened sequences has a task named `n`, neither has
/// their concatenation.
proof fn lemma_flatten_without_name(s: Seq<Seq<TaskView>>, n: Seq<char>)
    requires
        forall|k: int| 0 <= k < s.len() ==> !has_name(#[trigger] s[k], n),
    ensures
        !has_name(s.flatten(), n),
    decreases s.len(),
{
    if s.len() > 0 {
        let d = s.drop_first();
        assert forall|k: int| 0 <= k < d.len() implies !has_name(#[trigger] d[k], n) by {
            assert(d[k] == s[k + 1]);
        }
        lemma_flatten_without_name(d, n);
        let all = s.flatten();
        assert(all == s[0] + d.flatten());
        assert(!has_name(s[0], n));
        if has_name(all, n) {
            let i = choose|i: int| 0 <= i < all.len() && (#[trigger] all[i]).name == n;
            if i < s[0].len() {
                assert(s[0][i] == all[i]);
            } else {
                assert(d.flatten()[i - s[0].len()] == all[i]);
            }
        }
    }
}

/// The place of a manifest kind in precedence order: package.json,
/// Makefile, justfile, Cargo.toml, pyproject.toml, Pipfile, Procfile,
/// Taskfile.
pub open spec fn precedence(k: SourceKind) -> int {
    match k {
        SourceKind::Npm => 0,
        SourceKind::Make => 1,
        SourceKind::Just => 2,
        SourceKind::Cargo => 3,
        SourceKind::Python => 4,
        SourceKind::Pipenv => 5,
        SourceKind::Procfile => 6,
        SourceKind::Taskfile => 7,
    }
}

/// Each kind of `ks` comes strictly later in precedence order than the ones
/// before it.
pub open spec fn kinds_in_order(ks: Seq<SourceKind>) -> bool {
    forall|i: int, j: int| 0 <= i < j < ks.len() ==> precedence(#[trigger] ks[i]) < precedence(
        #[trigger] ks[j],
    )
}

/// No task of `ts` comes from a manifest earlier in precedence order than
/// the task before it.
pub open spec fn tasks_in_order(ts: Seq<TaskView>) -> bool {
    forall|i: int, j: int|
        0 <= i < j < ts.len() ==> precedence((#[trigger] ts[i]).source) <= precedence(
            (#[trigger] ts[j]).source,
        )
}

/// Every task of `ts` comes from a manifest of kind `k`.
pub open spec fn all_from(ts: Seq<TaskView>, k: SourceKind) -> bool {
    forall|i: int| 0 <= i < ts.len() ==> (#[trigger] ts[i]).source == k
}

/// Appending a kind later than all before it keeps the kinds in order; the
/// kind is then listed exactly when it was appended, and no other kind's
/// listing changes.
proof fn lemma_kinds_append(a: Seq<SourceKind>, present: bool, k: SourceKind)
    requires
        kinds_in_order(a),
        forall|i: int| 0 <= i < a.len() ==> precedence(#[trigger] a[i]) < precedence(k),
    ensures
        kinds_in_order(a + kind_if(present, k)),
        forall|i: int|
            0 <= i < (a + kind_if(present, k)).len() ==> precedence(
                #[trigger] (a + kind_if(present, k))[i],
            ) <= precedence(k),
        (a + kind_if(present, k)).contains(k) <==> present,
        forall|x: SourceKind|
            x != k ==> ((a + kind_if(present, k)).contains(x) <==> #[trigger] a.contains(x)),
{
    let b = a + kind_if(present, k);
    if b.contains(k) {
        let i = choose|i: int| 0 <= i < b.len() && b[i] == k;
        if i < a.len() {
            assert(a[i] == k);
        }
    }
    if present {
        assert(b[a.len() as int] == k);
    }
    assert forall|x: SourceKind| x != k implies (b.contains(x) <==> #[trigger] a.contains(x)) by {
        if a.contains(x) {
            let i = choose|i: int| 0 <= i < a.len() && a[i] == x;
            assert(b[i] == x);
        }
        if b.contains(x) {
            let i = choose|i: int| 0 <= i < b.len() && b[i] == x;
            if i < a.len() {
                assert(a[i] == x);
            }
        }
    }
}

/// Appending tasks of one kind, no earlier than all before it, keeps the
/// tasks in order.
proof fn lemma_tasks_append(a: Seq<TaskView>, b: Seq<TaskView>, k: SourceKind)
    requires
        tasks_in_order(a),
        forall|i: int| 0 <= i < a.len() ==> precedence((#[trigger] a[i]).source) <= precedence(k),
        all_from(b, k),
    ensures
        tasks_in_order(a + b),
        forall|i: int|
            0 <= i < (a + b).len() ==> precedence((#[trigger] (a + b)[i]).source) <= precedence(k),
{
    let c = a + b;
    assert forall|i: int, j: int| 0 <= i < j < c.len() implies precedence(
        (#[trigger] c[i]).source,
    ) <= precedence((#[trigger] c[j]).source) by {
        if j < a.len() {
            assert(c[i] == a[i] && c[j] == a[j]);
        } else if i < a.len() {
            assert(c[i] == a[i] && c[j] == b[j - a.len()]);
        } else {
            assert(c[i] == b[i - a.len()] && c[j] == b[j - a.len()]);
        }
    }
    assert forall|i: int| 0 <= i < c.len() implies precedence((#[trigger] c[i]).source)
        <= precedence(k) by {
        if i < a.len() {
            assert(c[i] == a[i]);
        } else {
            assert(c[i] == b[i - a.len()]);
        }
    }
}

/// The manifests of a directory are listed in precedence order, each kind
/// once, and a kind is listed exactly when its manifest is present.
pub proof fn lemma_manifests_in_order(f: DirFiles)
    ensures
        kinds_in_order(collected_manifests(&f)),
        collected_manifests(&f).contains(SourceKind::Npm) <==> f.package_json is Some,
        collected_manifests(&f).contains(SourceKind::Make) <==> f.makefile is Some,
        collected_manifests(&f).contains(SourceKind::Just) <==> f.justfile is Some,
        collected_manifests(&f).contains(SourceKind::Cargo) <==> f.cargo_toml,
        collected_manifests(&f).contains(SourceKind::Python) <==> f.pyproject is Some,
        collected_manifests(&f).contains(SourceKind::Pipenv) <==> f.pipfile is Some,
        collected_manifests(&f).contains(SourceKind::Procfile) <==> f.procfile is Some,
        collected_manifests(&f).contains(SourceKind::Taskfile) <==> f.taskfile is Some,
{
    let m0 = Seq::<SourceKind>::empty();
    let m1 = m0 + kind_if(f.package_json is Some, SourceKind::Npm);
    let m2 = m1 + kind_if(f.makefile is Some, SourceKind::Make);
    let m3 = m2 + kind_if(f.justfile is Some, SourceKind::Just);
    let m4 = m3 + kind_if(f.cargo_toml, SourceKind::Cargo);
    let m5 = m4 + kind_if(f.pyproject is Some, SourceKind::Python);
    let m6 = m5 + kind_if(f.pipfile is Some, SourceKind::Pipenv);
    let m7 = m6 + kind_if(f.procfile is Some, SourceKind::Procfile);
    let m8 = m7 + kind_if(f.taskfile is Some, SourceKind::Taskfile);
    lemma_kinds_append(m0, f.package_json is Some, SourceKind::Npm);
    lemma_kinds_append(m1, f.makefile is Some, SourceKind::Make);
    lemma_kinds_append(m2, f.justfile is Some, SourceKind::Just);
    lemma_kinds_append(m3, f.cargo_toml, SourceKind::Cargo);
    lemma_kinds_append(m4, f.pyproject is Some, SourceKind::Python);
    lemma_kinds_append(m5, f.pipfile is Some, SourceKind::Pipenv);
    lemma_kinds_append(m6, f.procfile is Some, SourceKind::Procfile);
    lemma_kinds_append(m7, f.taskfile is Some, SourceKind::Taskfile);
    assert(!m0.contains(SourceKind::Npm));
    assert(m1.contains(SourceKind::Npm) <==> f.package_json is Some);
    assert(m7.contains(SourceKind::Npm) == m1.contains(SourceKind::Npm));
    assert(m8 =~= collected_manifests(&f));
}

/// Every task that a manifest yields comes from a manifest of its kind.
proof fn lemma_section_sources(f: &DirFiles)
    ensures
        all_from(sections(f)[0], SourceKind::Npm),
        all_from(sections(f)[1], SourceKind::Make),
        all_from(sections(f)[2], SourceKind::Just),
        all_from(sections(f)[3], SourceKind::Cargo),
        all_from(sections(f)[4], SourceKind::Python),
        all_from(sections(f)[5], SourceKind::Pipenv),
        all_from(sections(f)[6], SourceKind::Procfile),
        all_from(sections(f)[7], SourceKind::Taskfile),
{
    broadcast use vstd::seq_lib::group_to_multiset_ensures;

    let s = sections(f);
    if let Some(p) = f.package_json {
        let c = npm_candidates(p);
        lemma_sort_by_name(c);
        assert forall|i: int| 0 <= i < s[0].len() implies (#[trigger] s[0][i]).source
            == SourceKind::Npm by {
            assert(s[0].to_multiset().count(s[0][i]) > 0);
            assert(c.contains(s[0][i]));
            let k = choose|k: int| 0 <= k < c.len() && c[k] == s[0][i];
        }
    }
    if let Some(m) = f.makefile {
        lemma_makefile_tasks(m@);
        assert forall|i: int| 0 <= i < s[1].len() implies (#[trigger] s[1][i]).source
            == SourceKind::Make by {
            assert(s[1][i] == makefile_tasks(m@)[i]);
        }
    }
    if let Some(j) = f.justfile {
        lemma_justfile_tasks(j@);
        assert forall|i: int| 0 <= i < s[2].len() implies (#[trigger] s[2][i]).source
            == SourceKind::Just by {
            assert(s[2][i] == justfile_tasks(j@)[i]);
        }
    }
    if let Some(py) = f.pyproject {
        lemma_pyproject_source(py@, f.uv_lock);
        assert forall|i: int| 0 <= i < s[4].len() implies (#[trigger] s[4][i]).source
            == SourceKind::Python by {
            assert(s[4][i] == pyproject_tasks(py@, f.uv_lock)[i]);
        }
    }
    if let Some(pf) = f.pipfile {
        lemma_pipfile_tasks(pf@);
        assert forall|i: int| 0 <= i < s[5].len() implies (#[trigger] s[5][i]).source
            == SourceKind::Pipenv by {
            assert(s[5][i] == pipfile_tasks(pf@)[i]);
        }
    }
    if let Some(pr) = f.procfile {
        lemma_procfile_tasks(pr@);
        assert forall|i: int| 0 <= i < s[6].len() implies (#[trigger] s[6][i]).source
            == SourceKind::Procfile by {
            assert(s[6][i] == procfile_tasks(pr@)[i]);
        }
    }
    if let Some(tf) = f.taskfile {
        lemma_taskfile_tasks(tf@);
        assert forall|i: int| 0 <= i < s[7].len() implies (#[trigger] s[7][i]).source
            == SourceKind::Taskfile by {
            assert(s[7][i] == taskfile_tasks(tf@)[i]);
        }
    }
}

/// A directory's tasks are merged in precedence order: no task comes from a
/// manifest earlier in the order than the task before it.
pub proof fn lemma_tasks_in_order(f: DirFiles)
    ensures
        tasks_in_order(collected_tasks(&f)),
{
    let s = sections(&f);
    lemma_section_sources(&f);
    let t0 = Seq::<TaskView>::empty();
    lemma_tasks_append(t0, s[0], SourceKind::Npm);
    let t1 = t0 + s[0];
    lemma_tasks_append(t1, s[1], SourceKind::Make);
    let t2 = t1 + s[1];
    lemma_tasks_append(t2, s[2], SourceKind::Just);
    let t3 = t2 + s[2];
    lemma_tasks_append(t3, s[3], SourceKind::Cargo);
    let t4 = t3 + s[3];
    lemma_tasks_append(t4, s[4], SourceKind::Python);
    let t5 = t4 + s[4];
    lemma_tasks_append(t5, s[5], SourceKind::Pipenv);
    let t6 = t5 + s[5];
    lemma_tasks_append(t6, s[6], SourceKind::Procfile);
    let t7 = t6 + s[6];
    lemma_tasks_append(t7, s[7], SourceKind::Taskfile);
    let t8 = t7 + s[7];
    assert(t1 =~= s[0]);
    assert(t8 =~= collected_tasks(&f));
}

/// Where a justfile declares a recipe `n` and neither package.json nor a
/// Makefile has a task of that name, the first of the directory's tasks named
/// `n` (the one `Detection::find` gives) is the justfile's recipe, which runs
/// `just n`, whatever Cargo.toml or later manifests offer.
pub proof fn lemma_justfile_before_cargo(f: DirFiles, jf: String, n: Seq<char>)
    requires
        f.justfile == Some(jf),
        has_name(justfile_tasks(jf@), n),
        forall|p: Option<PackageJson>| f.package_json == Some(p) ==> !has_name(npm_tasks(p), n),
        forall|m: String| f.makefile == Some(m) ==> !has_name(#[trigger] makefile_tasks(m@), n),
    ensures
        exists|i: int|
            is_first_named(collected_tasks(&f), n, i) && #[trigger] collected_tasks(&f)[i] == (
            TaskView {
                name: n,
                detail: "just recipe"@,
                source: SourceKind::Just,
                run: RunView::Exec(seq!["just"@, n]),
            }),
{
    let s = sections(&f);
    assert(s[2] == justfile_tasks(jf@));
    if let Some(p) = f.package_json {
        assert(s[0] == npm_tasks(p));
    }
    if let Some(m) = f.makefile {
        assert(s[1] == makefile_tasks(m@));
    }
    assert forall|k: int| 0 <= k < 2 implies !has_name(#[trigger] s[k], n) by {
        if k == 0 {
            if let Some(p) = f.package_json {
                assert(s[0] == npm_tasks(p));
            }
        } else {
            if let Some(m) = f.makefile {
                assert(s[1] == makefile_tasks(m@));
            }
        }
    }
    lemma_precedence(f, 2, n);
    let (i, m) = choose|i: int, m: int|
        is_first_named(collected_tasks(&f), n, i) && is_first_named(s[2], n, m)
            && collected_tasks(&f)[i] == s[2][m];
    lemma_justfile_tasks(jf@);
    assert(s[2][m] == justfile_tasks(jf@)[m]);
}

/// Earlier manifests win name collisions: where the `j`-th manifest kind in
/// precedence order is the first whose tasks include one named `n`, the
/// first of all the directory's tasks named `n` (the one `Detection::find`
/// gives) is that manifest's first task named `n`.
pub proof fn lemma_precedence(f: DirFiles, j: int, n: Seq<char>)
    requires
        0 <= j < 8,
        has_name(sections(&f)[j], n),
        forall|k: int| 0 <= k < j ==> !has_name(#[trigger] sections(&f)[k], n),
    ensures
        exists|i: int, m: int|
            is_first_named(collected_tasks(&f), n, i) && is_first_named(sections(&f)[j], n, m)
                && collected_tasks(&f)[i] == sections(&f)[j][m],
{
    let s = sections(&f);
    lemma_collected_sections(&f);
    lemma_flatten_split(s, j);
    let a = s.take(j).flatten();
    let b = s[j];
    let all = collected_tasks(&f);
    assert(all == a + b + s.skip(j + 1).flatten());
    assert forall|k: int| 0 <= k < s.take(j).len() implies !has_name(#[trigger] s.take(j)[k], n) by {
        assert(s.take(j)[k] == s[k]);
    }
    lemma_flatten_without_name(s.take(j), n);
    lemma_first_named_exists(b, n);
    let m = choose|m: int| is_first_named(b, n, m);
    let i = a.len() + m;
    assert(all[i] == b[m]);
    assert forall|x: int| 0 <= x < i implies (#[trigger] all[x]).name != n by {
        if x < a.len() {
            assert(all[x] == a[x]);
        } else {
            assert(all[x] == b[x - a.len()]);
        }
    }
    assert(is_first_named(all, n, i));
}

} // verus!
