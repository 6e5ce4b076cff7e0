//! go-task Taskfiles: the task names under the top-level `tasks:` key.
//! Running a task delegates to `task`.
use vstd::prelude::*;
use crate::sources::{
    dedup_tasks, is_first_named, lemma_dedup_element, lemma_dedup_tasks, names_distinct, push_unique, strings2, tasks_view, RunSpec,
    RunView, SourceKind, Task, TaskView,
};
use crate::text::{
    all_in, all_in_range, find_first, find_in, has_prefix, has_prefix_in, line_ranges, lines,
    range_texts, ranges_ok, slice_of, string_of, to_chars, trim, trim_by, trim_by_in, trim_in,
    trim_start, trim_start_in, utf8_len, utf8_len_in, CharClass,
};

verus! {

/// The indentation of a line: the UTF-8 length of its leading whitespace.
pub open spec fn indent_of(line: Seq<char>) -> nat {
    utf8_len(line.take(line.len() - trim_start(line, CharClass::Whitespace).len()))
}

/// What the reader knows between lines: whether it is inside the top-level
/// `tasks:` block, and at which indentation task names stand there (set by
/// the first indented key of the block).
pub type TaskfileState = (bool, Option<nat>);

/// The name of the key that the line `t` (without its indentation) starts
/// with: the text before `:`, trimmed and unquoted, of task-name characters.
pub open spec fn key_name(t: Seq<char>) -> Option<Seq<char>> {
    match find_first(t, CharClass::Just(':')) {
        None => None,
        Some(c) => {
            let name = trim_by(trim(t.take(c)), CharClass::Quote);
            if name.len() > 0 && all_in(name, CharClass::TaskName) {
                Some(name)
            } else {
                None
            }
        },
    }
}

/// The state after `line`, and the task name that `line` declares, if any.
pub open spec fn taskfile_step(st: TaskfileState, line: Seq<char>) -> (TaskfileState, Option<
    Seq<char>,
>) {
    let t = trim_start(line, CharClass::Whitespace);
    let ind = indent_of(line);
    if trim(line).len() == 0 {
        (st, None)
    } else if ind == 0 {
        // A new top-level key ends the tasks block.
        ((has_prefix(t, "tasks:"@), None), None)
    } else if !st.0 {
        (st, None)
    } else if t[0] == '#' || t[0] == '-' {
        (st, None)
    } else {
        let level = match st.1 {
            Some(k) => k,
            None => ind,
        };
        let st2 = (true, Some(level));
        if ind != level {
            // nested task fields (cmds:, desc:, ...)
            (st2, None)
        } else {
            (st2, key_name(t))
        }
    }
}

/// The task that runs a Taskfile task.
pub open spec fn taskfile_task(name: Seq<char>) -> TaskView {
    TaskView {
        name,
        detail: "task"@,
        source: SourceKind::Taskfile,
        run: RunView::Exec(seq!["task"@, name]),
    }
}

/// The state after the lines `ls`, and one task per task-declaring line.
pub open spec fn taskfile_run(ls: Seq<Seq<char>>) -> (TaskfileState, Seq<TaskView>)
    decreases ls.len(),
{
    if ls.len() == 0 {
        ((false, None), seq![])
    } else {
        let (st, ts) = taskfile_run(ls.drop_last());
        let (st2, n) = taskfile_step(st, ls.last());
        (
            st2,
            match n {
                Some(n) => ts.push(taskfile_task(n)),
                None => ts,
            },
        )
    }
}

/// The tasks of a Taskfile: the top-level task names in order, each once.
pub open spec fn taskfile_tasks(content: Seq<char>) -> Seq<TaskView> {
    dedup_tasks(taskfile_run(lines(content)).1)
}

/// The line holds only whitespace.
pub open spec fn is_blank(line: Seq<char>) -> bool {
    trim(line).len() == 0
}

/// An indented line that may declare a key: no comment and no list item.
pub open spec fn is_key_line(line: Seq<char>) -> bool {
    let t = trim_start(line, CharClass::Whitespace);
    !is_blank(line) && indent_of(line) > 0 && t[0] != '#' && t[0] != '-'
}

/// A top-level line that opens the `tasks:` block.
pub open spec fn opens_tasks(line: Seq<char>) -> bool {
    !is_blank(line) && indent_of(line) == 0 && has_prefix(
        trim_start(line, CharClass::Whitespace),
        "tasks:"@,
    )
}

/// Line `j0` opens the `tasks:` block, and no top-level line stands between
/// it and line `n`.
pub open spec fn in_block(ls: Seq<Seq<char>>, j0: int, n: int) -> bool {
    &&& 0 <= j0 < n <= ls.len()
    &&& opens_tasks(ls[j0])
    &&& forall|x: int| j0 < x < n ==> is_blank(#[trigger] ls[x]) || indent_of(ls[x]) > 0
}

/// Line `x0` is the first key line after line `j0`.
pub open spec fn first_key_line(ls: Seq<Seq<char>>, j0: int, x0: int) -> bool {
    &&& j0 < x0 < ls.len()
    &&& is_key_line(ls[x0])
    &&& forall|y: int| j0 < y < x0 ==> !is_key_line(#[trigger] ls[y])
}

/// Before line `n`, the block that line `j0` opens is still open, and
/// `key` is the indentation of its first key line, if it has one yet.
pub open spec fn block_ok(ls: Seq<Seq<char>>, j0: int, n: int, key: Option<nat>) -> bool {
    &&& in_block(ls, j0, n)
    &&& key is None ==> forall|x: int| j0 < x < n ==> !is_key_line(#[trigger] ls[x])
    &&& key is Some ==> exists|x0: int|
        x0 < n && #[trigger] first_key_line(ls, j0, x0) && indent_of(ls[x0]) == key->0
}

/// Where the reader is inside the tasks block after the first `n` lines, a
/// line before them opens the block and the reader's indentation is that of
/// the block's first key line.
proof fn lemma_taskfile_state(ls: Seq<Seq<char>>, n: int)
    requires
        0 <= n <= ls.len(),
    ensures
        taskfile_run(ls.take(n)).0.0 ==> exists|j0: int| #[trigger]
            block_ok(ls, j0, n, taskfile_run(ls.take(n)).0.1),
    decreases n,
{
    if n > 0 {
        let m = n - 1;
        lemma_taskfile_state(ls, m);
        assert(ls.take(n).drop_last() =~= ls.take(m));
        assert(ls.take(n).last() == ls[m]);
        let st = taskfile_run(ls.take(m)).0;
        let line = ls[m];
        let st2 = taskfile_run(ls.take(n)).0;
        assert(st2 == taskfile_step(st, line).0);
        if st2.0 {
            if is_blank(line) {
                let j0 = choose|j0: int| #[trigger] block_ok(ls, j0, m, st.1);
                if st.1 is Some {
                    let x0 = choose|x0: int|
                        x0 < m && #[trigger] first_key_line(ls, j0, x0) && indent_of(ls[x0]) == st.1->0;
                    assert(x0 < n && first_key_line(ls, j0, x0));
                }
                assert(block_ok(ls, j0, n, st2.1));
            } else if indent_of(line) == 0 {
                assert(opens_tasks(line));
                assert(block_ok(ls, m, n, st2.1));
            } else {
                assert(st.0);
                let j0 = choose|j0: int| #[trigger] block_ok(ls, j0, m, st.1);
                if !is_key_line(line) {
                    if st.1 is Some {
                        let x0 = choose|x0: int|
                            x0 < m && #[trigger] first_key_line(ls, j0, x0) && indent_of(ls[x0])
                                == st.1->0;
                        assert(x0 < n && first_key_line(ls, j0, x0));
                    }
                    assert(block_ok(ls, j0, n, st2.1));
                } else if st.1 is Some {
                    let x0 = choose|x0: int|
                        x0 < m && #[trigger] first_key_line(ls, j0, x0) && indent_of(ls[x0]) == st.1->0;
                    assert(x0 < n && first_key_line(ls, j0, x0));
                    assert(block_ok(ls, j0, n, st2.1));
                } else {
                    assert(first_key_line(ls, j0, m));
                    assert(block_ok(ls, j0, n, st2.1));
                }
            }
        }
    }
}

/// Line `j` declares `name` to the reader that has read the lines before it.
pub open spec fn declares(ls: Seq<Seq<char>>, j: int, name: Seq<char>) -> bool {
    &&& 0 <= j < ls.len()
    &&& taskfile_step(taskfile_run(ls.take(j)).0, ls[j]).1 == Some(name)
}

/// Each task of the first `n` lines runs `task` with a name that one of
/// those lines declares.
proof fn lemma_taskfile_candidates(ls: Seq<Seq<char>>, n: int)
    requires
        0 <= n <= ls.len(),
    ensures
        forall|k: int|
            0 <= k < taskfile_run(ls.take(n)).1.len() ==> #[trigger] taskfile_run(ls.take(n)).1[k]
                == taskfile_task(taskfile_run(ls.take(n)).1[k].name) && exists|j: int|
                j < n && declares(ls, j, taskfile_run(ls.take(n)).1[k].name),
    decreases n,
{
    if n > 0 {
        let m = n - 1;
        lemma_taskfile_candidates(ls, m);
        assert(ls.take(n).drop_last() =~= ls.take(m));
        assert(ls.take(n).last() == ls[m]);
        let c = taskfile_run(ls.take(n)).1;
        let cp = taskfile_run(ls.take(m)).1;
        assert forall|k: int| 0 <= k < c.len() implies #[trigger] c[k] == taskfile_task(c[k].name)
            && exists|j: int| j < n && declares(ls, j, c[k].name) by {
            if k < cp.len() {
                assert(c[k] == cp[k]);
                let j = choose|j: int| j < m && declares(ls, j, cp[k].name);
            } else {
                assert(declares(ls, m, c[k].name));
            }
        }
    }
}

/// Every task of a Taskfile runs `task` with its own name, a non-empty name
/// of task-name characters, and comes from the top-level `tasks:` block at
/// the indentation of that block's first key: line `j` declares it by the
/// key it starts with, line `j0` opens the block with no top-level line up to
/// `j`, and line `x0` is the block's first key line, indented as `j` is. No
/// two tasks share a name.
pub proof fn lemma_taskfile_tasks(content: Seq<char>)
    ensures
        names_distinct(taskfile_tasks(content)),
        forall|i: int|
            0 <= i < taskfile_tasks(content).len() ==> {
                &&& #[trigger] taskfile_tasks(content)[i] == taskfile_task(
                    taskfile_tasks(content)[i].name,
                )
                &&& taskfile_tasks(content)[i].name.len() > 0
                &&& all_in(taskfile_tasks(content)[i].name, CharClass::TaskName)
                &&& exists|j0: int, x0: int, j: int|
                    #![trigger in_block(lines(content), j0, j), first_key_line(lines(content), j0, x0)]
                    x0 <= j < lines(content).len() && in_block(lines(content), j0, j)
                        && first_key_line(lines(content), j0, x0) && is_key_line(lines(content)[j])
                        && indent_of(lines(content)[j]) == indent_of(lines(content)[x0]) && key_name(
                        trim_start(lines(content)[j], CharClass::Whitespace),
                    ) == Some(taskfile_tasks(content)[i].name)
            },
{
    let ls = lines(content);
    let c = taskfile_run(ls).1;
    assert(ls.take(ls.len() as int) =~= ls);
    lemma_taskfile_candidates(ls, ls.len() as int);
    lemma_dedup_tasks(c);
    let d = taskfile_tasks(content);
    assert forall|i: int| 0 <= i < d.len() implies {
        &&& #[trigger] d[i] == taskfile_task(d[i].name)
        &&& d[i].name.len() > 0
        &&& all_in(d[i].name, CharClass::TaskName)
        &&& exists|j0: int, x0: int, j: int|
            #![trigger in_block(ls, j0, j), first_key_line(ls, j0, x0)]
            x0 <= j < ls.len() && in_block(ls, j0, j) && first_key_line(ls, j0, x0) && is_key_line(
                ls[j],
            ) && indent_of(ls[j]) == indent_of(ls[x0]) && key_name(
                trim_start(ls[j], CharClass::Whitespace),
            ) == Some(d[i].name)
    } by {
        lemma_dedup_element(c, i);
        let k = choose|k: int| is_first_named(c, d[i].name, k) && c[k] == d[i];
        assert(c[k] == taskfile_task(c[k].name));
        let j = choose|j: int| j < ls.len() && declares(ls, j, c[k].name);
        let st = taskfile_run(ls.take(j)).0;
        lemma_taskfile_state(ls, j);
        assert(st.0);
        let j0 = choose|j0: int| #[trigger] block_ok(ls, j0, j, st.1);
        assert(is_key_line(ls[j]));
        if st.1 is Some {
            let x0 = choose|x0: int|
                x0 < j && #[trigger] first_key_line(ls, j0, x0) && indent_of(ls[x0]) == st.1->0;
            assert(in_block(ls, j0, j) && first_key_line(ls, j0, x0));
        } else {
            assert(first_key_line(ls, j0, j));
            assert(in_block(ls, j0, j) && first_key_line(ls, j0, j));
        }
    }
}

pub open spec fn state_view(in_tasks: bool, key_indent: Option<u128>) -> TaskfileState {
    (
        in_tasks,
        match key_indent {
            Some(k) => Some(k as nat),
            None => None,
        },
    )
}

/// One step of the reader on the line `s[lo..hi]`: the new state, and the
/// bounds of the task name the line declares.
fn taskfile_step_in(
    s: &Vec<char>,
    lo: usize,
    hi: usize,
    in_tasks: bool,
    key_indent: Option<u128>,
    tasks_kw: &Vec<char>,
) -> (r: (bool, Option<u128>, Option<(usize, usize)>))
    requires
        lo <= hi <= s@.len(),
        tasks_kw@ == "tasks:"@,
    ensures
        ({
            let (st2, n) = taskfile_step(
                state_view(in_tasks, key_indent),
                slice_of(s@, lo as int, hi as int),
            );
            &&& state_view(r.0, r.1) == st2
            &&& match r.2 {
                Some((a, b)) => lo <= a <= b <= hi && n == Some(slice_of(s@, a as int, b as int)),
                None => n is None,
            }
        }),
{
    let ghost line = slice_of(s@, lo as int, hi as int);
    let (t0, t1) = trim_in(s, lo, hi);
    if t0 == t1 {
        return (in_tasks, key_indent, None);
    }
    let a = trim_start_in(s, lo, hi, CharClass::Whitespace);
    let ind = utf8_len_in(s, lo, a);
    assert(line.take(line.len() - slice_of(s@, a as int, hi as int).len()) =~= slice_of(
        s@,
        lo as int,
        a as int,
    ));
    if ind == 0 {
        let now_in = has_prefix_in(s, a, hi, tasks_kw);
        return (now_in, None, None);
    }
    if !in_tasks {
        return (in_tasks, key_indent, None);
    }
    // `a < hi`: the line is not blank.
    if s[a] == '#' || s[a] == '-' {
        return (in_tasks, key_indent, None);
    }
    let level = match key_indent {
        Some(k) => k,
        None => ind,
    };
    if ind != level {
        return (true, Some(level), None);
    }
    let c = match find_in(s, a, hi, CharClass::Just(':')) {
        None => return (true, Some(level), None),
        Some(c) => c,
    };
    let (p, q) = trim_in(s, a, c);
    let (x, y) = trim_by_in(s, p, q, CharClass::Quote);
    assert(slice_of(s@, a as int, hi as int).take(c - a) =~= slice_of(s@, a as int, c as int));
    if x < y && all_in_range(s, x, y, CharClass::TaskName) {
        (true, Some(level), Some((x, y)))
    } else {
        (true, Some(level), None)
    }
}

/// Parse task names under the top-level `tasks:` key of a go-task Taskfile.
/// Execution delegates to `task`.
pub fn parse_taskfile(content: &str) -> (r: Vec<Task>)
    ensures
        tasks_view(r@) == taskfile_tasks(content@),
        names_distinct(tasks_view(r@)),
{
    let tasks_kw = to_chars("tasks:");
    let s = to_chars(content);
    let ls = line_ranges(&s);
    let ghost all = range_texts(s@, ls@);
    let mut out: Vec<Task> = Vec::new();
    let mut in_tasks = false;
    let mut key_indent: Option<u128> = None;
    let mut k: usize = 0;
    assert(all.take(0) =~= Seq::<Seq<char>>::empty());
    while k < ls.len()
        invariant
            k <= ls@.len(),
            tasks_kw@ == "tasks:"@,
            all == range_texts(s@, ls@),
            all == lines(s@),
            ranges_ok(s@.len() as int, ls@),
            state_view(in_tasks, key_indent) == taskfile_run(all.take(k as int)).0,
            tasks_view(out@) == dedup_tasks(taskfile_run(all.take(k as int)).1),
        decreases ls@.len() - k,
    {
        let (lo, hi) = ls[k];
        proof {
            assert(all.take(k + 1).drop_last() =~= all.take(k as int));
            assert(all.take(k + 1).last() == slice_of(s@, lo as int, hi as int));
        }
        let ghost prev = taskfile_run(all.take(k as int)).1;
        let (now_in, now_key, found) = taskfile_step_in(&s, lo, hi, in_tasks, key_indent, &tasks_kw);
        in_tasks = now_in;
        key_indent = now_key;
        match found {
            Some((a, b)) => {
                let name = string_of(&s, a, b);
                let t = Task {
                    name: name.clone(),
                    detail: String::from_str("task"),
                    source: SourceKind::Taskfile,
                    run: RunSpec::Exec(strings2(String::from_str("task"), name)),
                };
                proof {
                    assert(t@ == taskfile_task(slice_of(s@, a as int, b as int)));
                    assert(taskfile_run(all.take(k + 1)).1 == prev.push(t@));
                    assert(prev.push(t@).drop_last() =~= prev);
                }
                push_unique(&mut out, t);
            },
            None => {},
        }
        k += 1;
    }
    assert(all.take(ls@.len() as int) =~= all);
    proof {
        lemma_dedup_tasks(taskfile_run(all).1);
    }
    out
}

} // verus!
