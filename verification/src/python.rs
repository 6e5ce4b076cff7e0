//! Python task tables: pdm, poetry and taskipy scripts in pyproject.toml, and
//! pipenv's `[scripts]` in a Pipfile.
//!
//! poetry, pdm and pipenv bootstrap a Python interpreter on every `run`. So
//! where a task can be expressed as a plain command it is run in the project
//! virtualenv directly (`RunSpec::Venv`), keeping the launcher as a fallback.
use vstd::prelude::*;
use crate::sources::{
    dedup_names, dedup_tasks, has_name, is_first_named, lemma_dedup_distinct,
    lemma_dedup_element, lemma_dedup_keeps_first, lemma_dedup_prefix, lemma_dedup_push,
    lemma_dedup_task_names, lemma_dedup_tasks, lemma_first_named_exists, names_distinct, option_string_view,
    push_unique, strings3, strings_view, tasks_view, truncate, truncated, RunSpec, RunView,
    SourceKind, Task, TaskView,
};
use crate::text::{find_first, is_first_in, lemma_find_first_is, lemma_find_first_some, lines, to_chars, trim, CharClass};
use crate::toml::{
    assignment, lemma_pairs_origin, lemma_pairs_prefix, lemma_table_open, lemma_table_key_names,
    pairs_run, pairs_view, plain_line, unquoted, table_entries, table_key_names, table_keys_of, table_pairs_of,
};

verus! {

/// The command of the last inline pair named `name`.
pub open spec fn last_value(pairs: Seq<(Seq<char>, Seq<char>)>, name: Seq<char>) -> Option<
    Seq<char>,
>
    decreases pairs.len(),
{
    if pairs.len() == 0 {
        None
    } else if pairs.last().0 == name {
        Some(pairs.last().1)
    } else {
        last_value(pairs.drop_last(), name)
    }
}

/// A pdm script. An inline `name = "cmd"` runs directly in the venv; the
/// sub-table forms keep their pdm semantics, so they delegate to `pdm run`.
pub open spec fn pdm_task(name: Seq<char>, inline: Seq<(Seq<char>, Seq<char>)>) -> TaskView {
    let fallback = seq!["pdm"@, "run"@, name];
    match last_value(inline, name) {
        Some(cmd) => if cmd.len() > 0 && cmd[0] != '{' {
            TaskView {
                name,
                detail: truncated(cmd),
                source: SourceKind::Python,
                run: RunView::Venv { command: cmd, required: None, fallback },
            }
        } else {
            TaskView {
                name,
                detail: "pdm script"@,
                source: SourceKind::Python,
                run: RunView::Exec(fallback),
            }
        },
        None => TaskView {
            name,
            detail: "pdm script"@,
            source: SourceKind::Python,
            run: RunView::Exec(fallback),
        },
    }
}

/// A poetry console script: run `<venv>/bin/<name>` where it is installed,
/// else delegate to `poetry run`.
pub open spec fn poetry_task(name: Seq<char>) -> TaskView {
    TaskView {
        name,
        detail: "poetry script"@,
        source: SourceKind::Python,
        run: RunView::Venv {
            command: name,
            required: Some(name),
            fallback: seq!["poetry"@, "run"@, name],
        },
    }
}

/// A taskipy task: a shell command run directly.
pub open spec fn taskipy_task(name: Seq<char>, cmd: Seq<char>) -> TaskView {
    TaskView { name, detail: truncated(cmd), source: SourceKind::Python, run: RunView::Shell(cmd) }
}

/// One task per taskipy pair with a non-empty command.
pub open spec fn taskipy_candidates(pairs: Seq<(Seq<char>, Seq<char>)>) -> Seq<TaskView>
    decreases pairs.len(),
{
    if pairs.len() == 0 {
        seq![]
    } else {
        let p = taskipy_candidates(pairs.drop_last());
        if pairs.last().1.len() == 0 {
            p
        } else {
            p.push(taskipy_task(pairs.last().0, pairs.last().1))
        }
    }
}

/// One pdm task per name under `[tool.pdm.scripts]`.
pub open spec fn pdm_candidates(content: Seq<char>) -> Seq<TaskView> {
    let inline = table_entries(content, "tool.pdm.scripts"@);
    table_key_names(content, "tool.pdm.scripts"@).map_values(|n: Seq<char>| pdm_task(n, inline))
}

/// One poetry task per name under `[tool.poetry.scripts]`.
pub open spec fn poetry_candidates(content: Seq<char>) -> Seq<TaskView> {
    table_key_names(content, "tool.poetry.scripts"@).map_values(|n: Seq<char>| poetry_task(n))
}

/// A uv project script: delegated to `uv run`, which is already native.
pub open spec fn uv_task(name: Seq<char>) -> TaskView {
    TaskView {
        name,
        detail: "uv script"@,
        source: SourceKind::Python,
        run: RunView::Exec(seq!["uv"@, "run"@, name]),
    }
}

/// One uv task per name under `[project.scripts]`.
pub open spec fn uv_candidates(content: Seq<char>) -> Seq<TaskView> {
    table_key_names(content, "project.scripts"@).map_values(|n: Seq<char>| uv_task(n))
}

/// The candidates of all four tables, in precedence order.
pub open spec fn pyproject_candidates(content: Seq<char>, uv_lock: bool) -> Seq<TaskView> {
    pdm_candidates(content) + poetry_candidates(content) + taskipy_candidates(
        table_entries(content, "tool.taskipy.tasks"@),
    ) + if uv_lock {
        uv_candidates(content)
    } else {
        seq![]
    }
}

/// The tasks of a pyproject.toml: pdm scripts, then poetry scripts, then
/// taskipy tasks, then, in a uv project (one with a uv.lock), the
/// `[project.scripts]`; each name once (the earlier table wins).
pub open spec fn pyproject_tasks(content: Seq<char>, uv_lock: bool) -> Seq<TaskView> {
    dedup_tasks(pyproject_candidates(content, uv_lock))
}

/// Every taskipy candidate is a Python task.
proof fn lemma_taskipy_source(pairs: Seq<(Seq<char>, Seq<char>)>)
    ensures
        forall|i: int|
            0 <= i < taskipy_candidates(pairs).len() ==> (#[trigger] taskipy_candidates(pairs)[i]).source
                == SourceKind::Python,
    decreases pairs.len(),
{
    if pairs.len() > 0 {
        let p = pairs.drop_last();
        lemma_taskipy_source(p);
        let c = taskipy_candidates(pairs);
        let cp = taskipy_candidates(p);
        assert forall|i: int| 0 <= i < c.len() implies (#[trigger] c[i]).source
            == SourceKind::Python by {
            if i < cp.len() {
                assert(c[i] == cp[i]);
            }
        }
    }
}

/// Every task of a pyproject.toml comes from its Python tables.
pub proof fn lemma_pyproject_source(content: Seq<char>, uv_lock: bool)
    ensures
        forall|i: int|
            0 <= i < pyproject_tasks(content, uv_lock).len() ==> (#[trigger] pyproject_tasks(
                content,
                uv_lock,
            )[i]).source == SourceKind::Python,
{
    let c = pyproject_candidates(content, uv_lock);
    let p = pdm_candidates(content);
    let q = poetry_candidates(content);
    let r = taskipy_candidates(table_entries(content, "tool.taskipy.tasks"@));
    lemma_taskipy_source(table_entries(content, "tool.taskipy.tasks"@));
    lemma_dedup_tasks(c);
    assert forall|k: int| 0 <= k < c.len() implies (#[trigger] c[k]).source == SourceKind::Python by {
        if k < p.len() {
            assert(c[k] == p[k]);
        } else if k < p.len() + q.len() {
            assert(c[k] == q[k - p.len()]);
        } else if k < p.len() + q.len() + r.len() {
            assert(c[k] == r[k - p.len() - q.len()]);
        } else {
            assert(c[k] == uv_candidates(content)[k - p.len() - q.len() - r.len()]);
        }
    }
    let d = pyproject_tasks(content, uv_lock);
    assert forall|i: int| 0 <= i < d.len() implies (#[trigger] d[i]).source == SourceKind::Python by {
        assert(c.contains(d[i]));
        let k = choose|k: int| 0 <= k < c.len() && c[k] == d[i];
    }
}

/// A pipenv script: a string runs directly in the venv; the table form
/// keeps pipenv's semantics and delegates to `pipenv run`.
pub open spec fn pipfile_task(name: Seq<char>, cmd: Seq<char>) -> TaskView {
    let fallback = seq!["pipenv"@, "run"@, name];
    if cmd.len() == 0 || cmd[0] == '{' {
        TaskView {
            name,
            detail: "pipenv script"@,
            source: SourceKind::Pipenv,
            run: RunView::Exec(fallback),
        }
    } else {
        TaskView {
            name,
            detail: truncated(cmd),
            source: SourceKind::Pipenv,
            run: RunView::Venv { command: cmd, required: None, fallback },
        }
    }
}

/// The tasks of a Pipfile: its `[scripts]`, each name once.
pub open spec fn pipfile_tasks(content: Seq<char>) -> Seq<TaskView> {
    dedup_tasks(
        table_entries(content, "scripts"@).map_values(
            |p: (Seq<char>, Seq<char>)| pipfile_task(p.0, p.1),
        ),
    )
}

/// A Pipfile has one task per distinct key of its `[scripts]` table, in the
/// order in which the keys first occur, made from the first pair of that key;
/// no two tasks share a name.
pub proof fn lemma_pipfile_tasks(content: Seq<char>)
    ensures
        names_distinct(pipfile_tasks(content)),
        pipfile_tasks(content).map_values(|t: TaskView| t.name) == dedup_names(
            table_entries(content, "scripts"@).map_values(|e: (Seq<char>, Seq<char>)| e.0),
        ),
        forall|i: int|
            0 <= i < pipfile_tasks(content).len() ==> exists|k: int|
                0 <= k < table_entries(content, "scripts"@).len()
                    && #[trigger] pipfile_tasks(content)[i] == pipfile_task(
                    table_entries(content, "scripts"@)[k].0,
                    table_entries(content, "scripts"@)[k].1,
                ) && forall|j: int|
                    0 <= j < k ==> table_entries(content, "scripts"@)[j].0 != table_entries(
                        content,
                        "scripts"@,
                    )[k].0,
        forall|k: int|
            0 <= k < table_entries(content, "scripts"@).len() ==> has_name(
                pipfile_tasks(content),
                (#[trigger] table_entries(content, "scripts"@)[k]).0,
            ),
{
    let e = table_entries(content, "scripts"@);
    let c = e.map_values(|p: (Seq<char>, Seq<char>)| pipfile_task(p.0, p.1));
    lemma_dedup_task_names(c);
    lemma_dedup_tasks(c);
    let d = pipfile_tasks(content);
    assert(c.map_values(|t: TaskView| t.name) =~= e.map_values(|e: (Seq<char>, Seq<char>)| e.0));
    assert forall|i: int| 0 <= i < d.len() implies exists|k: int|
        0 <= k < e.len() && #[trigger] d[i] == pipfile_task(e[k].0, e[k].1) && forall|j: int|
            0 <= j < k ==> e[j].0 != e[k].0 by {
        lemma_dedup_element(c, i);
        let k = choose|k: int| is_first_named(c, d[i].name, k) && c[k] == d[i];
        assert(c[k] == pipfile_task(e[k].0, e[k].1));
        assert forall|j: int| 0 <= j < k implies e[j].0 != e[k].0 by {
            assert(c[j].name == e[j].0);
        }
    }
    assert forall|k: int| 0 <= k < e.len() implies has_name(d, (#[trigger] e[k]).0) by {
        assert(c[k].name == e[k].0);
        assert(has_name(c, e[k].0));
    }
}

/// A `key = "command"` line under the `[scripts]` header of a Pipfile, with
/// no bracketed line between them, where no earlier line assigns that key,
/// gives the task of that key that runs the whole command (everything after
/// the first `=`, later `=` included, trimmed and unquoted) in the venv, with
/// `pipenv run KEY` as fallback, where the command is non-empty and is no
/// table.
pub proof fn lemma_pipfile_line(content: Seq<char>, j0: int, j: int, eq: int)
    requires
        0 <= j0 < j < lines(content).len(),
        trim(lines(content)[j0]) == seq!['['] + "scripts"@ + seq![']'],
        forall|x: int| j0 < x <= j ==> plain_line(trim(#[trigger] lines(content)[x])),
        trim(lines(content)[j]).len() > 0,
        trim(lines(content)[j])[0] != '#',
        is_first_in(trim(lines(content)[j]), CharClass::Just('='), eq),
        unquoted(trim(trim(lines(content)[j]).take(eq))).len() > 0,
        unquoted(trim(trim(lines(content)[j]).skip(eq + 1))).len() > 0,
        unquoted(trim(trim(lines(content)[j]).skip(eq + 1)))[0] != '{',
        forall|x: int, e: int|
            0 <= x < j && #[trigger] is_first_in(trim(lines(content)[x]), CharClass::Just('='), e)
                ==> unquoted(trim(trim(lines(content)[x]).take(e))) != unquoted(
                trim(trim(lines(content)[j]).take(eq)),
            ),
    ensures
        exists|i: int|
            0 <= i < pipfile_tasks(content).len() && #[trigger] pipfile_tasks(content)[i]
                == (TaskView {
                name: unquoted(trim(trim(lines(content)[j]).take(eq))),
                detail: truncated(unquoted(trim(trim(lines(content)[j]).skip(eq + 1)))),
                source: SourceKind::Pipenv,
                run: RunView::Venv {
                    command: unquoted(trim(trim(lines(content)[j]).skip(eq + 1))),
                    required: None,
                    fallback: seq![
                        "pipenv"@,
                        "run"@,
                        unquoted(trim(trim(lines(content)[j]).take(eq))),
                    ],
                },
            }),
{
    reveal_strlit("scripts");
    let ls = lines(content);
    let prefix = "scripts"@;
    let t = trim(ls[j]);
    let key = unquoted(trim(t.take(eq)));
    let val = unquoted(trim(t.skip(eq + 1)));
    assert(trim(prefix) == prefix) by {
        assert(trim(prefix) =~= prefix);
    }
    lemma_table_open(ls, prefix, j0, j);
    lemma_find_first_is(t, CharClass::Just('='), eq);
    assert(assignment(t) == Some((key, val)));
    assert(ls.take(j + 1).drop_last() =~= ls.take(j));
    assert(ls.take(j + 1).last() == ls[j]);
    let a = pairs_run(ls.take(j), prefix).1;
    assert(pairs_run(ls.take(j + 1), prefix).1 == a.push((key, val)));
    lemma_pairs_prefix(ls, prefix, j + 1);
    lemma_pairs_origin(ls.take(j), prefix);
    let e = table_entries(content, prefix);
    let pos = a.len() as int;
    assert(e[pos] == a.push((key, val))[pos]);
    let c = e.map_values(|p: (Seq<char>, Seq<char>)| pipfile_task(p.0, p.1));
    assert forall|q: int| 0 <= q < pos implies (#[trigger] c[q]).name != key by {
        assert(e[q] == a.push((key, val))[q]);
        assert(e[q] == a[q]);
        let x = choose|x: int| 0 <= x < ls.take(j).len() && assignment(trim(ls.take(j)[x])) == Some(a[q]);
        assert(ls.take(j)[x] == ls[x]);
        let tx = trim(ls[x]);
        assert(find_first(tx, CharClass::Just('=')) is Some);
        lemma_find_first_some(tx, CharClass::Just('='));
        let ex = find_first(tx, CharClass::Just('='))->0;
        assert(a[q].0 == unquoted(trim(tx.take(ex))));
    }
    assert(c[pos] == pipfile_task(key, val));
    assert(is_first_named(c, key, pos));
    lemma_dedup_keeps_first(c, key, pos);
    let i = choose|i: int| is_first_named(dedup_tasks(c), key, i) && dedup_tasks(c)[i] == c[pos];
    assert(pipfile_tasks(content)[i] == pipfile_task(key, val));
}

/// The command of the last pair of `pairs` named `name`.
fn find_last_value(pairs: &Vec<(String, String)>, name: &String) -> (r: Option<String>)
    ensures
        option_string_view(r) == last_value(pairs_view(pairs@), name@),
{
    let ghost pv = pairs_view(pairs@);
    let mut i = pairs.len();
    assert(pv.take(i as int) =~= pv);
    while i > 0
        invariant
            i <= pairs@.len(),
            pv == pairs_view(pairs@),
            last_value(pv.take(i as int), name@) == last_value(pv, name@),
        decreases i,
    {
        assert(pv.take(i as int).drop_last() =~= pv.take(i - 1));
        if pairs[i - 1].0 == *name {
            return Some(pairs[i - 1].1.clone());
        }
        i -= 1;
    }
    None
}

/// Whether `s` is empty or starts with `{`.
fn empty_or_table(s: &String) -> (r: bool)
    ensures
        r == (s@.len() == 0 || s@[0] == '{'),
{
    let v = to_chars(s.as_str());
    v.len() == 0 || v[0] == '{'
}

/// Parse task tables out of pyproject.toml: pdm, poetry and taskipy.
pub fn parse_pyproject(content: &str) -> (r: Vec<Task>)
    ensures
        tasks_view(r@) == pyproject_tasks(content@, false),
        names_distinct(tasks_view(r@)),
{
    parse_pyproject_in(content, false)
}

/// Parse task tables out of pyproject.toml: pdm, poetry and taskipy, and in a
/// uv project (`uv_lock`: a uv.lock stands beside it) `[project.scripts]`.
pub fn parse_pyproject_in(content: &str, uv_lock: bool) -> (r: Vec<Task>)
    ensures
        tasks_view(r@) == pyproject_tasks(content@, uv_lock),
        names_distinct(tasks_view(r@)),
{
    let s = to_chars(content);
    let pdm = to_chars("tool.pdm.scripts");
    let poetry = to_chars("tool.poetry.scripts");
    let taskipy = to_chars("tool.taskipy.tasks");
    let inline = table_pairs_of(&s, &pdm);
    let pdm_names = table_keys_of(&s, &pdm);
    let poetry_names = table_keys_of(&s, &poetry);
    let taskipy_pairs = table_pairs_of(&s, &taskipy);
    let ghost c1 = pdm_candidates(content@);
    let ghost c2 = poetry_candidates(content@);
    let ghost c3 = taskipy_candidates(table_entries(content@, "tool.taskipy.tasks"@));
    let ghost inline_v = pairs_view(inline@);
    let mut out: Vec<Task> = Vec::new();

    // pdm
    let mut i: usize = 0;
    assert(c1.take(0) =~= Seq::<TaskView>::empty());
    while i < pdm_names.len()
        invariant
            i <= pdm_names@.len(),
            c1.len() == pdm_names@.len(),
            c1 == pdm_candidates(content@),
            inline_v == pairs_view(inline@),
            inline_v == table_entries(content@, "tool.pdm.scripts"@),
            strings_view(pdm_names@) == table_key_names(content@, "tool.pdm.scripts"@),
            tasks_view(out@) == dedup_tasks(c1.take(i as int)),
        decreases pdm_names@.len() - i,
    {
        let name = pdm_names[i].clone();
        let t = match find_last_value(&inline, &name) {
            Some(cmd) => {
                if !empty_or_table(&cmd) {
                    Task {
                        detail: truncate(cmd.as_str()),
                        run: RunSpec::Venv {
                            command: cmd,
                            required: None,
                            fallback: strings3(
                                String::from_str("pdm"),
                                String::from_str("run"),
                                name.clone(),
                            ),
                        },
                        name,
                        source: SourceKind::Python,
                    }
                } else {
                    Task {
                        detail: String::from_str("pdm script"),
                        run: RunSpec::Exec(
                            strings3(String::from_str("pdm"), String::from_str("run"), name.clone()),
                        ),
                        name,
                        source: SourceKind::Python,
                    }
                }
            },
            None => Task {
                detail: String::from_str("pdm script"),
                run: RunSpec::Exec(
                    strings3(String::from_str("pdm"), String::from_str("run"), name.clone()),
                ),
                name,
                source: SourceKind::Python,
            },
        };
        proof {
            assert(t@ == c1[i as int]);
            assert(c1.take(i + 1) =~= c1.take(i as int).push(c1[i as int]));
            lemma_dedup_push(c1.take(i as int), c1[i as int]);
        }
        push_unique(&mut out, t);
        i += 1;
    }
    assert(c1.take(c1.len() as int) =~= c1);

    // poetry
    let mut j: usize = 0;
    assert(c1 + c2.take(0) =~= c1);
    while j < poetry_names.len()
        invariant
            j <= poetry_names@.len(),
            c2.len() == poetry_names@.len(),
            c2 == poetry_candidates(content@),
            strings_view(poetry_names@) == table_key_names(content@, "tool.poetry.scripts"@),
            tasks_view(out@) == dedup_tasks(c1 + c2.take(j as int)),
        decreases poetry_names@.len() - j,
    {
        let name = poetry_names[j].clone();
        let t = Task {
            detail: String::from_str("poetry script"),
            run: RunSpec::Venv {
                command: name.clone(),
                required: Some(name.clone()),
                fallback: strings3(String::from_str("poetry"), String::from_str("run"), name.clone()),
            },
            name,
            source: SourceKind::Python,
        };
        proof {
            assert(t@ == c2[j as int]);
            assert(c1 + c2.take(j + 1) =~= (c1 + c2.take(j as int)).push(c2[j as int]));
            lemma_dedup_push(c1 + c2.take(j as int), c2[j as int]);
        }
        push_unique(&mut out, t);
        j += 1;
    }
    assert(c2.take(c2.len() as int) =~= c2);

    // taskipy
    let ghost tp = pairs_view(taskipy_pairs@);
    let mut k: usize = 0;
    assert(tp.take(0) =~= Seq::<(Seq<char>, Seq<char>)>::empty());
    assert(c1 + c2 + taskipy_candidates(tp.take(0)) =~= c1 + c2);
    while k < taskipy_pairs.len()
        invariant
            k <= taskipy_pairs@.len(),
            tp == pairs_view(taskipy_pairs@),
            tp == table_entries(content@, "tool.taskipy.tasks"@),
            c3 == taskipy_candidates(tp),
            tasks_view(out@) == dedup_tasks(c1 + c2 + taskipy_candidates(tp.take(k as int))),
        decreases taskipy_pairs@.len() - k,
    {
        let ghost before = c1 + c2 + taskipy_candidates(tp.take(k as int));
        proof {
            assert(tp.take(k + 1).drop_last() =~= tp.take(k as int));
        }
        let name = taskipy_pairs[k].0.clone();
        let cmd = taskipy_pairs[k].1.clone();
        if cmd.as_str().unicode_len() != 0 {
            let t = Task {
                detail: truncate(cmd.as_str()),
                run: RunSpec::Shell(cmd),
                name,
                source: SourceKind::Python,
            };
            proof {
                assert(c1 + c2 + taskipy_candidates(tp.take(k + 1)) =~= before.push(t@));
                lemma_dedup_push(before, t@);
            }
            push_unique(&mut out, t);
        } else {
            assert(c1 + c2 + taskipy_candidates(tp.take(k + 1)) =~= before);
        }
        k += 1;
    }
    assert(tp.take(tp.len() as int) =~= tp);
    assert(c1 + c2 + c3 =~= c1 + c2 + taskipy_candidates(tp));

    // uv
    let ghost c4: Seq<TaskView> = if uv_lock {
        uv_candidates(content@)
    } else {
        seq![]
    };
    if uv_lock {
        let project = to_chars("project.scripts");
        let uv_names = table_keys_of(&s, &project);
        let mut m: usize = 0;
        assert(c1 + c2 + c3 + c4.take(0) =~= c1 + c2 + c3);
        while m < uv_names.len()
            invariant
                uv_lock,
                m <= uv_names@.len(),
                c4.len() == uv_names@.len(),
                c4 == uv_candidates(content@),
                strings_view(uv_names@) == table_key_names(content@, "project.scripts"@),
                tasks_view(out@) == dedup_tasks(c1 + c2 + c3 + c4.take(m as int)),
            decreases uv_names@.len() - m,
        {
            let name = uv_names[m].clone();
            let t = Task {
                detail: String::from_str("uv script"),
                run: RunSpec::Exec(
                    strings3(String::from_str("uv"), String::from_str("run"), name.clone()),
                ),
                name,
                source: SourceKind::Python,
            };
            proof {
                assert(t@ == c4[m as int]);
                assert(c1 + c2 + c3 + c4.take(m + 1) =~= (c1 + c2 + c3 + c4.take(m as int)).push(
                    c4[m as int],
                ));
                lemma_dedup_push(c1 + c2 + c3 + c4.take(m as int), c4[m as int]);
            }
            push_unique(&mut out, t);
            m += 1;
        }
        assert(c4.take(c4.len() as int) =~= c4);
    } else {
        assert(c1 + c2 + c3 + c4 =~= c1 + c2 + c3);
    }
    proof {
        lemma_dedup_tasks(c1 + c2 + c3 + c4);
    }
    out
}

/// Parse `[scripts]` from a pipenv Pipfile (TOML). String scripts run directly
/// in the project virtualenv; the table form keeps pipenv's semantics.
pub fn parse_pipfile(content: &str) -> (r: Vec<Task>)
    ensures
        tasks_view(r@) == pipfile_tasks(content@),
        names_distinct(tasks_view(r@)),
{
    let s = to_chars(content);
    let scripts = to_chars("scripts");
    let pairs = table_pairs_of(&s, &scripts);
    let ghost pv = pairs_view(pairs@);
    let ghost cands = pv.map_values(|p: (Seq<char>, Seq<char>)| pipfile_task(p.0, p.1));
    let mut out: Vec<Task> = Vec::new();
    let mut k: usize = 0;
    assert(cands.take(0) =~= Seq::<TaskView>::empty());
    while k < pairs.len()
        invariant
            k <= pairs@.len(),
            pv == pairs_view(pairs@),
            pv == table_entries(content@, "scripts"@),
            cands == pv.map_values(|p: (Seq<char>, Seq<char>)| pipfile_task(p.0, p.1)),
            tasks_view(out@) == dedup_tasks(cands.take(k as int)),
        decreases pairs@.len() - k,
    {
        let name = pairs[k].0.clone();
        let cmd = pairs[k].1.clone();
        let fallback = strings3(String::from_str("pipenv"), String::from_str("run"), name.clone());
        let t = if empty_or_table(&cmd) {
            Task {
                detail: String::from_str("pipenv script"),
                run: RunSpec::Exec(fallback),
                name,
                source: SourceKind::Pipenv,
            }
        } else {
            Task {
                detail: truncate(cmd.as_str()),
                run: RunSpec::Venv { command: cmd, required: None, fallback },
                name,
                source: SourceKind::Pipenv,
            }
        };
        proof {
            assert(t@ == cands[k as int]);
            assert(cands.take(k + 1) =~= cands.take(k as int).push(cands[k as int]));
            lemma_dedup_push(cands.take(k as int), cands[k as int]);
        }
        push_unique(&mut out, t);
        k += 1;
    }
    assert(cands.take(cands.len() as int) =~= cands);
    proof {
        lemma_dedup_tasks(cands);
    }
    out
}

} // verus!
