//! Makefile targets. Only names are read; running a target delegates to
//! `make`, which does the real work.
use vstd::prelude::*;
use crate::sources::{
    dedup_names, dedup_tasks, has_name, is_first_named, lemma_dedup_element, lemma_dedup_task_names,
    lemma_dedup_tasks, names_distinct, push_unique, strings2, tasks_view, RunSpec,
    RunView, SourceKind, Task, TaskView,
};
use crate::text::{
    is_first_in, lemma_find_first_is, all_in, all_in_range, char_after_is, find_first, find_in, line_ranges, lines, range_texts,
    ranges_ok, slice_of, starts_with_char, starts_with_in, string_of, to_chars, trim, trim_in, trim_start,
    trim_start_in, CharClass,
};

verus! {

/// The target that a Makefile line declares, if any. Indented lines (recipe
/// bodies), blank lines, comments, assignments (`VAR := value`) and special,
/// pattern or variable-expanded targets declare none: a target name is one
/// token of ASCII letters, digits and `_-./` that does not start with `.`.
pub open spec fn make_target(line: Seq<char>) -> Option<Seq<char>> {
    let lead = trim_start(line, CharClass::Whitespace);
    if starts_with_char(line, '\t') || starts_with_char(line, ' ') {
        None
    } else if lead.len() == 0 || lead[0] == '#' {
        None
    } else {
        match find_first(line, CharClass::Just(':')) {
            None => None,
            Some(idx) => if char_after_is(line, idx, '=') {
                None
            } else {
                let name = trim(line.take(idx));
                if name.len() > 0 && name[0] != '.' && all_in(name, CharClass::MakeTarget) {
                    Some(name)
                } else {
                    None
                }
            },
        }
    }
}

/// The task that runs a Makefile target.
pub open spec fn make_task(name: Seq<char>) -> TaskView {
    TaskView {
        name,
        detail: "make target"@,
        source: SourceKind::Make,
        run: RunView::Exec(seq!["make"@, name]),
    }
}

/// One task per target-declaring line, in order.
pub open spec fn make_candidates(ls: Seq<Seq<char>>) -> Seq<TaskView>
    decreases ls.len(),
{
    if ls.len() == 0 {
        seq![]
    } else {
        let p = make_candidates(ls.drop_last());
        match make_target(ls.last()) {
            Some(n) => p.push(make_task(n)),
            None => p,
        }
    }
}

/// The tasks of a Makefile: its targets in order, each name once.
pub open spec fn makefile_tasks(content: Seq<char>) -> Seq<TaskView> {
    dedup_tasks(make_candidates(lines(content)))
}

/// The names that the target-declaring lines declare, in order.
pub open spec fn make_target_names(ls: Seq<Seq<char>>) -> Seq<Seq<char>>
    decreases ls.len(),
{
    if ls.len() == 0 {
        seq![]
    } else {
        let p = make_target_names(ls.drop_last());
        match make_target(ls.last()) {
            Some(n) => p.push(n),
            None => p,
        }
    }
}

/// Each candidate runs `make` with a name that one of the lines declares;
/// the candidates' names are the declared names.
proof fn lemma_make_candidates(ls: Seq<Seq<char>>)
    ensures
        make_candidates(ls).map_values(|t: TaskView| t.name) == make_target_names(ls),
        forall|k: int|
            0 <= k < make_candidates(ls).len() ==> #[trigger] make_candidates(ls)[k] == make_task(
                make_candidates(ls)[k].name,
            ) && exists|j: int|
                0 <= j < ls.len() && make_target(ls[j]) == Some(make_candidates(ls)[k].name),
    decreases ls.len(),
{
    if ls.len() > 0 {
        let p = ls.drop_last();
        lemma_make_candidates(p);
        let c = make_candidates(ls);
        let cp = make_candidates(p);
        assert forall|k: int| 0 <= k < c.len() implies #[trigger] c[k] == make_task(c[k].name)
            && exists|j: int| 0 <= j < ls.len() && make_target(ls[j]) == Some(c[k].name) by {
            if k < cp.len() {
                assert(c[k] == cp[k]);
                let j = choose|j: int| 0 <= j < p.len() && make_target(p[j]) == Some(cp[k].name);
                assert(ls[j] == p[j]);
            } else {
                assert(make_target(ls[ls.len() - 1]) == Some(c[k].name));
            }
        }
        assert(c.map_values(|t: TaskView| t.name) =~= make_target_names(ls));
    } else {
        assert(make_candidates(ls).map_values(|t: TaskView| t.name) =~= Seq::<Seq<char>>::empty());
    }
}

/// Every task of a Makefile runs `make` with its own name, a target that a
/// line of the file declares: non-empty, of the allowed characters and not
/// starting with `.`. The names are the declared target names, each kept at
/// its first occurrence, so no two tasks share one.
pub proof fn lemma_makefile_tasks(content: Seq<char>)
    ensures
        makefile_tasks(content).map_values(|t: TaskView| t.name) == dedup_names(
            make_target_names(lines(content)),
        ),
        names_distinct(makefile_tasks(content)),
        forall|i: int|
            0 <= i < makefile_tasks(content).len() ==> {
                &&& #[trigger] makefile_tasks(content)[i] == make_task(makefile_tasks(content)[i].name)
                &&& makefile_tasks(content)[i].name.len() > 0
                &&& makefile_tasks(content)[i].name[0] != '.'
                &&& all_in(makefile_tasks(content)[i].name, CharClass::MakeTarget)
                &&& exists|j: int|
                    0 <= j < lines(content).len() && make_target(lines(content)[j]) == Some(
                        makefile_tasks(content)[i].name,
                    )
            },
{
    let ls = lines(content);
    let c = make_candidates(ls);
    lemma_make_candidates(ls);
    lemma_dedup_task_names(c);
    lemma_dedup_tasks(c);
    let d = makefile_tasks(content);
    assert forall|i: int| 0 <= i < d.len() implies {
        &&& #[trigger] d[i] == make_task(d[i].name)
        &&& d[i].name.len() > 0
        &&& d[i].name[0] != '.'
        &&& all_in(d[i].name, CharClass::MakeTarget)
        &&& exists|j: int| 0 <= j < ls.len() && make_target(ls[j]) == Some(d[i].name)
    } by {
        lemma_dedup_element(c, i);
        let k = choose|k: int| is_first_named(c, d[i].name, k) && c[k] == d[i];
        assert(c[k] == make_task(c[k].name));
        let j = choose|j: int| 0 <= j < ls.len() && make_target(ls[j]) == Some(c[k].name);
        assert(make_target(ls[j]) == Some(d[i].name));
    }
}

/// A line that declares a target gives the candidates a task of its name.
proof fn lemma_make_candidates_has(ls: Seq<Seq<char>>, j: int, n: Seq<char>)
    requires
        0 <= j < ls.len(),
        make_target(ls[j]) == Some(n),
    ensures
        has_name(make_candidates(ls), n),
    decreases ls.len(),
{
    let p = ls.drop_last();
    let c = make_candidates(ls);
    if j == ls.len() - 1 {
        assert(c[c.len() - 1].name == n);
    } else {
        assert(p[j] == ls[j]);
        lemma_make_candidates_has(p, j, n);
        let cp = make_candidates(p);
        let k = choose|k: int| 0 <= k < cp.len() && (#[trigger] cp[k]).name == n;
        assert(c[k] == cp[k]);
    }
}

/// A line in column 0 that is no comment, whose text before its first `:`
/// (where no `=` follows that `:`) trims to a non-empty name of ASCII
/// letters, digits and `_-./` not starting with `.`, gives a task of that
/// trimmed name that runs `make` with it. Whitespace around the name does not
/// drop the target.
pub proof fn lemma_makefile_line(content: Seq<char>, j: int, idx: int)
    requires
        0 <= j < lines(content).len(),
        lines(content)[j][0] != '\t',
        lines(content)[j][0] != ' ',
        trim_start(lines(content)[j], CharClass::Whitespace).len() > 0,
        trim_start(lines(content)[j], CharClass::Whitespace)[0] != '#',
        is_first_in(lines(content)[j], CharClass::Just(':'), idx),
        !(idx + 1 < lines(content)[j].len() && lines(content)[j][idx + 1] == '='),
        trim(lines(content)[j].take(idx)).len() > 0,
        trim(lines(content)[j].take(idx))[0] != '.',
        all_in(trim(lines(content)[j].take(idx)), CharClass::MakeTarget),
    ensures
        exists|i: int|
            0 <= i < makefile_tasks(content).len() && #[trigger] makefile_tasks(content)[i]
                == (TaskView {
                name: trim(lines(content)[j].take(idx)),
                detail: "make target"@,
                source: SourceKind::Make,
                run: RunView::Exec(seq!["make"@, trim(lines(content)[j].take(idx))]),
            }),
{
    let ls = lines(content);
    let n = trim(ls[j].take(idx));
    lemma_find_first_is(ls[j], CharClass::Just(':'), idx);
    assert(make_target(ls[j]) == Some(n));
    lemma_make_candidates_has(ls, j, n);
    lemma_dedup_tasks(make_candidates(ls));
    lemma_makefile_tasks(content);
    let d = makefile_tasks(content);
    let i = choose|i: int| 0 <= i < d.len() && (#[trigger] d[i]).name == n;
    assert(d[i] == make_task(d[i].name));
}

/// The bounds of the target that the line `s[lo..hi]` declares.
fn make_target_in(s: &Vec<char>, lo: usize, hi: usize) -> (r: Option<(usize, usize)>)
    requires
        lo <= hi <= s@.len(),
    ensures
        match r {
            Some((a, b)) => lo <= a <= b <= hi && make_target(slice_of(s@, lo as int, hi as int))
                == Some(slice_of(s@, a as int, b as int)),
            None => make_target(slice_of(s@, lo as int, hi as int)) is None,
        },
{
    let ghost line = slice_of(s@, lo as int, hi as int);
    if starts_with_in(s, lo, hi, '\t') || starts_with_in(s, lo, hi, ' ') {
        return None;
    }
    let t0 = trim_start_in(s, lo, hi, CharClass::Whitespace);
    if t0 == hi || s[t0] == '#' {
        return None;
    }
    let idx = match find_in(s, lo, hi, CharClass::Just(':')) {
        None => return None,
        Some(i) => i,
    };
    if idx + 1 < hi && s[idx + 1] == '=' {
        assert(char_after_is(line, idx - lo, '='));
        return None;
    }
    assert(!char_after_is(line, idx - lo, '='));
    let (a, b) = trim_in(s, lo, idx);
    assert(line.take(idx - lo) =~= slice_of(s@, lo as int, idx as int));
    if a < b && s[a] != '.' && all_in_range(s, a, b, CharClass::MakeTarget) {
        Some((a, b))
    } else {
        None
    }
}

/// Parse target names from a Makefile. Execution shells out to `make`.
pub fn parse_makefile(content: &str) -> (r: Vec<Task>)
    ensures
        tasks_view(r@) == makefile_tasks(content@),
        names_distinct(tasks_view(r@)),
{
    let s = to_chars(content);
    let ls = line_ranges(&s);
    let ghost all = range_texts(s@, ls@);
    let mut out: Vec<Task> = Vec::new();
    let mut k: usize = 0;
    assert(all.take(0) =~= Seq::<Seq<char>>::empty());
    while k < ls.len()
        invariant
            k <= ls@.len(),
            all == range_texts(s@, ls@),
            all == lines(s@),
            ranges_ok(s@.len() as int, ls@),
            tasks_view(out@) == dedup_tasks(make_candidates(all.take(k as int))),
        decreases ls@.len() - k,
    {
        let (lo, hi) = ls[k];
        proof {
            assert(all.take(k + 1).drop_last() =~= all.take(k as int));
            assert(all.take(k + 1).last() == slice_of(s@, lo as int, hi as int));
        }
        match make_target_in(&s, lo, hi) {
            Some((a, b)) => {
                let name = string_of(&s, a, b);
                let t = Task {
                    name: name.clone(),
                    detail: String::from_str("make target"),
                    source: SourceKind::Make,
                    run: RunSpec::Exec(strings2(String::from_str("make"), name)),
                };
                let ghost prev = make_candidates(all.take(k as int));
                proof {
                    assert(t@ == make_task(slice_of(s@, a as int, b as int)));
                    assert(make_candidates(all.take(k + 1)) == prev.push(t@));
                    assert(prev.push(t@).drop_last() =~= prev);
                }
                push_unique(&mut out, t);
            },
            None => {},
        }
        k += 1;
    }
    assert(all.take(ls@.len() as int) =~= all);
    proof {
        lemma_dedup_tasks(make_candidates(all));
    }
    out
}

} // verus!
