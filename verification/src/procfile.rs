//! Procfile processes: `name: command` lines.
use vstd::prelude::*;
use crate::sources::{
    dedup_names, dedup_tasks, has_name, is_first_named, lemma_dedup_element,
    lemma_dedup_keeps_first, lemma_dedup_task_names, lemma_dedup_tasks, names_distinct, push_unique, tasks_view, truncate_in,
    truncated, RunSpec, RunView, SourceKind, Task, TaskView,
};
use crate::text::{
    all_in, all_in_range, find_first, find_in, is_first_in, lemma_find_first_is,
    lemma_find_first_some, line_ranges, lines, range_texts, ranges_ok, slice_of, string_of,
    to_chars, trim, trim_in, CharClass,
};

verus! {

/// The process that a Procfile line defines, as its name and its command.
/// Blank lines and comments define none, nor do lines without `:`, with an
/// empty name or command, or with a name of other characters than ASCII
/// letters, digits, `_` and `-`.
pub open spec fn procfile_entry(line: Seq<char>) -> Option<(Seq<char>, Seq<char>)> {
    let t = trim(line);
    if t.len() == 0 || t[0] == '#' {
        None
    } else {
        match find_first(line, CharClass::Just(':')) {
            None => None,
            Some(idx) => {
                let name = trim(line.take(idx));
                let cmd = trim(line.skip(idx + 1));
                if name.len() == 0 || cmd.len() == 0 || !all_in(name, CharClass::RecipeName) {
                    None
                } else {
                    Some((name, cmd))
                }
            },
        }
    }
}

/// The task that runs a Procfile process through the shell.
pub open spec fn procfile_task(name: Seq<char>, cmd: Seq<char>) -> TaskView {
    TaskView {
        name,
        detail: truncated(cmd),
        source: SourceKind::Procfile,
        run: RunView::Shell(cmd),
    }
}

/// One task per process-defining line, in order.
pub open spec fn procfile_candidates(ls: Seq<Seq<char>>) -> Seq<TaskView>
    decreases ls.len(),
{
    if ls.len() == 0 {
        seq![]
    } else {
        let p = procfile_candidates(ls.drop_last());
        match procfile_entry(ls.last()) {
            Some((n, c)) => p.push(procfile_task(n, c)),
            None => p,
        }
    }
}

/// The tasks of a Procfile: its processes in order, each name once.
pub open spec fn procfile_tasks(content: Seq<char>) -> Seq<TaskView> {
    dedup_tasks(procfile_candidates(lines(content)))
}

/// The processes that the lines define, in order, as names and commands.
pub open spec fn procfile_entries(ls: Seq<Seq<char>>) -> Seq<(Seq<char>, Seq<char>)>
    decreases ls.len(),
{
    if ls.len() == 0 {
        seq![]
    } else {
        let p = procfile_entries(ls.drop_last());
        match procfile_entry(ls.last()) {
            Some(e) => p.push(e),
            None => p,
        }
    }
}

/// The candidates are the tasks of the defined processes, and every defined
/// process has a non-empty name of the allowed characters and a non-empty
/// command.
proof fn lemma_procfile_entries(ls: Seq<Seq<char>>)
    ensures
        procfile_candidates(ls) == procfile_entries(ls).map_values(
            |e: (Seq<char>, Seq<char>)| procfile_task(e.0, e.1),
        ),
        forall|k: int|
            0 <= k < procfile_entries(ls).len() ==> {
                &&& (#[trigger] procfile_entries(ls)[k]).0.len() > 0
                &&& all_in(procfile_entries(ls)[k].0, CharClass::RecipeName)
                &&& procfile_entries(ls)[k].1.len() > 0
                &&& exists|j: int|
                    0 <= j < ls.len() && procfile_entry(ls[j]) == Some(procfile_entries(ls)[k])
            },
    decreases ls.len(),
{
    if ls.len() > 0 {
        let p = ls.drop_last();
        lemma_procfile_entries(p);
        let e = procfile_entries(ls);
        let ep = procfile_entries(p);
        assert forall|k: int| 0 <= k < e.len() implies {
            &&& (#[trigger] e[k]).0.len() > 0
            &&& all_in(e[k].0, CharClass::RecipeName)
            &&& e[k].1.len() > 0
            &&& exists|j: int| 0 <= j < ls.len() && procfile_entry(ls[j]) == Some(e[k])
        } by {
            if k < ep.len() {
                assert(e[k] == ep[k]);
                let j = choose|j: int| 0 <= j < p.len() && procfile_entry(p[j]) == Some(ep[k]);
                assert(ls[j] == p[j]);
            } else {
                assert(procfile_entry(ls[ls.len() - 1]) == Some(e[k]));
            }
        }
        assert(procfile_candidates(ls) =~= e.map_values(
            |e: (Seq<char>, Seq<char>)| procfile_task(e.0, e.1),
        ));
    } else {
        assert(procfile_candidates(ls) =~= procfile_entries(ls).map_values(
            |e: (Seq<char>, Seq<char>)| procfile_task(e.0, e.1),
        ));
    }
}

/// Every task of a Procfile runs through the shell the command of the first
/// line that defines a process of its name: a later definition of a name
/// gives no task. Every defined process has a task; names are non-empty, of
/// ASCII letters, digits, `_` and `-`, and no two tasks share one.
pub proof fn lemma_procfile_tasks(content: Seq<char>)
    ensures
        names_distinct(procfile_tasks(content)),
        procfile_tasks(content).map_values(|t: TaskView| t.name) == dedup_names(
            procfile_entries(lines(content)).map_values(|e: (Seq<char>, Seq<char>)| e.0),
        ),
        forall|i: int|
            0 <= i < procfile_tasks(content).len() ==> exists|k: int|
                0 <= k < procfile_entries(lines(content)).len()
                    && #[trigger] procfile_tasks(content)[i] == procfile_task(
                    procfile_entries(lines(content))[k].0,
                    procfile_entries(lines(content))[k].1,
                ) && forall|j: int|
                    0 <= j < k ==> procfile_entries(lines(content))[j].0 != procfile_entries(
                        lines(content),
                    )[k].0,
        forall|k: int|
            0 <= k < procfile_entries(lines(content)).len() ==> has_name(
                procfile_tasks(content),
                (#[trigger] procfile_entries(lines(content))[k]).0,
            ),
        forall|k: int|
            0 <= k < procfile_entries(lines(content)).len() ==> {
                &&& (#[trigger] procfile_entries(lines(content))[k]).0.len() > 0
                &&& all_in(procfile_entries(lines(content))[k].0, CharClass::RecipeName)
                &&& procfile_entries(lines(content))[k].1.len() > 0
            },
{
    let ls = lines(content);
    let e = procfile_entries(ls);
    let c = procfile_candidates(ls);
    lemma_procfile_entries(ls);
    lemma_dedup_task_names(c);
    lemma_dedup_tasks(c);
    let d = procfile_tasks(content);
    assert(c.map_values(|t: TaskView| t.name) =~= e.map_values(|e: (Seq<char>, Seq<char>)| e.0));
    assert forall|i: int| 0 <= i < d.len() implies exists|k: int|
        0 <= k < e.len() && #[trigger] d[i] == procfile_task(e[k].0, e[k].1) && forall|j: int|
            0 <= j < k ==> e[j].0 != e[k].0 by {
        lemma_dedup_element(c, i);
        let k = choose|k: int| is_first_named(c, d[i].name, k) && c[k] == d[i];
        assert(c[k] == procfile_task(e[k].0, e[k].1));
        assert forall|j: int| 0 <= j < k implies e[j].0 != e[k].0 by {
            assert(c[j].name == e[j].0);
        }
    }
    assert forall|k: int| 0 <= k < e.len() implies has_name(d, (#[trigger] e[k]).0) by {
        assert(c[k].name == e[k].0);
        assert(has_name(c, e[k].0));
    }
}

/// The candidates of the first `m` lines start the candidates of all lines.
proof fn lemma_procfile_prefix(ls: Seq<Seq<char>>, m: int)
    requires
        0 <= m <= ls.len(),
    ensures
        procfile_candidates(ls.take(m)).len() <= procfile_candidates(ls).len(),
        procfile_candidates(ls).take(procfile_candidates(ls.take(m)).len() as int)
            == procfile_candidates(ls.take(m)),
    decreases ls.len(),
{
    if m == ls.len() {
        assert(ls.take(m) =~= ls);
        assert(procfile_candidates(ls).take(procfile_candidates(ls).len() as int)
            =~= procfile_candidates(ls));
    } else {
        let p = ls.drop_last();
        assert(p.take(m) =~= ls.take(m));
        lemma_procfile_prefix(p, m);
        let a = procfile_candidates(ls.take(m));
        let cp = procfile_candidates(p);
        let c = procfile_candidates(ls);
        assert(c.take(a.len() as int) =~= cp.take(a.len() as int));
    }
}

/// A Procfile line whose text before its first `:` trims to a non-empty name
/// of ASCII letters, digits, `_` and `-`, and whose text after that `:`
/// trims to a non-empty command, gives a task of that name that runs the
/// whole command through the shell (later `:` included), where no earlier
/// line names a process so.
pub proof fn lemma_procfile_line(content: Seq<char>, j: int, idx: int)
    requires
        0 <= j < lines(content).len(),
        is_first_in(lines(content)[j], CharClass::Just(':'), idx),
        trim(lines(content)[j]).len() > 0,
        trim(lines(content)[j])[0] != '#',
        trim(lines(content)[j].take(idx)).len() > 0,
        all_in(trim(lines(content)[j].take(idx)), CharClass::RecipeName),
        trim(lines(content)[j].skip(idx + 1)).len() > 0,
        forall|j2: int, k2: int|
            0 <= j2 < j && #[trigger] is_first_in(lines(content)[j2], CharClass::Just(':'), k2)
                ==> trim(lines(content)[j2].take(k2)) != trim(lines(content)[j].take(idx)),
    ensures
        exists|i: int|
            0 <= i < procfile_tasks(content).len() && #[trigger] procfile_tasks(content)[i]
                == (TaskView {
                name: trim(lines(content)[j].take(idx)),
                detail: truncated(trim(lines(content)[j].skip(idx + 1))),
                source: SourceKind::Procfile,
                run: RunView::Shell(trim(lines(content)[j].skip(idx + 1))),
            }),
{
    let ls = lines(content);
    let line = ls[j];
    let n = trim(line.take(idx));
    let cmd = trim(line.skip(idx + 1));
    let t = TaskView {
        name: n,
        detail: truncated(cmd),
        source: SourceKind::Procfile,
        run: RunView::Shell(cmd),
    };
    lemma_find_first_is(line, CharClass::Just(':'), idx);
    assert(procfile_entry(line) == Some((n, cmd)));
    let before = ls.take(j);
    let upto = ls.take(j + 1);
    assert(upto.drop_last() =~= before);
    assert(upto.last() == line);
    let a = procfile_candidates(before);
    assert(procfile_candidates(upto) == a.push(t));
    lemma_procfile_entries(before);
    assert forall|q: int| 0 <= q < a.len() implies (#[trigger] a[q]).name != n by {
        let e = procfile_entries(before);
        assert(a[q] == procfile_task(e[q].0, e[q].1));
        let j2 = choose|j2: int| 0 <= j2 < before.len() && procfile_entry(before[j2]) == Some(e[q]);
        assert(before[j2] == ls[j2]);
        lemma_find_first_some(ls[j2], CharClass::Just(':'));
        let k2 = find_first(ls[j2], CharClass::Just(':'))->0;
        assert(e[q].0 == trim(ls[j2].take(k2)));
    }
    lemma_procfile_prefix(ls, j + 1);
    let c = procfile_candidates(ls);
    let pos = a.len() as int;
    assert(c[pos] == a.push(t)[pos]);
    assert forall|q: int| 0 <= q < pos implies (#[trigger] c[q]).name != n by {
        assert(c[q] == a.push(t)[q]);
    }
    assert(is_first_named(c, n, pos));
    lemma_dedup_keeps_first(c, n, pos);
    let i = choose|i: int| is_first_named(dedup_tasks(c), n, i) && dedup_tasks(c)[i] == c[pos];
    assert(procfile_tasks(content)[i] == t);
}

/// The bounds of the name and of the command that the line `s[lo..hi]`
/// defines.
fn procfile_entry_in(s: &Vec<char>, lo: usize, hi: usize) -> (r: Option<
    ((usize, usize), (usize, usize)),
>)
    requires
        lo <= hi <= s@.len(),
    ensures
        match r {
            Some(((a, b), (c, d))) => lo <= a <= b <= hi && lo <= c <= d <= hi && procfile_entry(
                slice_of(s@, lo as int, hi as int),
            ) == Some((slice_of(s@, a as int, b as int), slice_of(s@, c as int, d as int))),
            None => procfile_entry(slice_of(s@, lo as int, hi as int)) is None,
        },
{
    let ghost line = slice_of(s@, lo as int, hi as int);
    let (t0, t1) = trim_in(s, lo, hi);
    if t0 == t1 || s[t0] == '#' {
        return None;
    }
    let idx = match find_in(s, lo, hi, CharClass::Just(':')) {
        None => return None,
        Some(i) => i,
    };
    let (a, b) = trim_in(s, lo, idx);
    let (c, d) = trim_in(s, idx + 1, hi);
    assert(line.take(idx - lo) =~= slice_of(s@, lo as int, idx as int));
    assert(line.skip(idx - lo + 1) =~= slice_of(s@, idx + 1, hi as int));
    if a == b || c == d || !all_in_range(s, a, b, CharClass::RecipeName) {
        return None;
    }
    Some(((a, b), (c, d)))
}

/// Parse `name: command` process definitions from a Procfile.
pub fn parse_procfile(content: &str) -> (r: Vec<Task>)
    ensures
        tasks_view(r@) == procfile_tasks(content@),
        names_distinct(tasks_view(r@)),
{
    let s = to_chars(content);
    let ls = line_ranges(&s);
    let ghost all = range_texts(s@, ls@);
    let mut out: Vec<Task> = Vec::new();
    let mut k: usize = 0;
    assert(all.take(0) =~= Seq::<Seq<char>>::empty());
    while k < ls.len()
        invariant
            k <= ls@.len(),
            all == range_texts(s@, ls@),
            all == lines(s@),
            ranges_ok(s@.len() as int, ls@),
            tasks_view(out@) == dedup_tasks(procfile_candidates(all.take(k as int))),
        decreases ls@.len() - k,
    {
        let (lo, hi) = ls[k];
        proof {
            assert(all.take(k + 1).drop_last() =~= all.take(k as int));
            assert(all.take(k + 1).last() == slice_of(s@, lo as int, hi as int));
        }
        match procfile_entry_in(&s, lo, hi) {
            Some(((a, b), (c, d))) => {
                let t = Task {
                    name: string_of(&s, a, b),
                    detail: truncate_in(&s, c, d),
                    source: SourceKind::Procfile,
                    run: RunSpec::Shell(string_of(&s, c, d)),
                };
                let ghost prev = procfile_candidates(all.take(k as int));
                proof {
                    assert(t@ == procfile_task(
                        slice_of(s@, a as int, b as int),
                        slice_of(s@, c as int, d as int),
                    ));
                    assert(procfile_candidates(all.take(k + 1)) == prev.push(t@));
                    assert(prev.push(t@).drop_last() =~= prev);
                }
                push_unique(&mut out, t);
            },
            None => {},
        }
        k += 1;
    }
    assert(all.take(ls@.len() as int) =~= all);
    proof {
        lemma_dedup_tasks(procfile_candidates(all));
    }
    out
}

} // verus!
