//! justfile recipes. Only names are read; running a recipe delegates to
//! `just`.
use vstd::prelude::*;
use crate::sources::{
    dedup_names, dedup_tasks, has_name, is_first_named, lemma_dedup_element, lemma_dedup_task_names,
    lemma_dedup_tasks, names_distinct, push_unique, strings2, tasks_view, RunSpec,
    RunView, SourceKind, Task, TaskView,
};
use crate::text::{
    is_first_in, lemma_find_first_is, all_in, all_in_range, char_after_is, find_first, find_in, first_word, first_word_in,
    has_prefix, has_prefix_in, line_ranges, lines, range_texts, ranges_ok, slice_of,
    starts_with_char, string_of, to_chars, trim_end, trim_end_in, CharClass,
};

verus! {

/// `body` is a setting, an export, an alias, an import or a module line.
pub open spec fn is_just_directive(body: Seq<char>) -> bool {
    ||| has_prefix(body, "set "@)
    ||| has_prefix(body, "export "@)
    ||| has_prefix(body, "alias "@)
    ||| has_prefix(body, "import "@)
    ||| has_prefix(body, "mod "@)
}

/// The recipe that a justfile line declares, if any. Only lines that start in
/// column 0 declare recipes; comments, directives and assignments
/// (`name := value`) declare none. A leading `@` marks a quiet recipe. The
/// name is the first word before `:`, made of ASCII letters, digits, `_` and
/// `-`.
pub open spec fn just_recipe(line: Seq<char>) -> Option<Seq<char>> {
    if line.len() == 0 || line[0] == ' ' || line[0] == '\t' {
        None
    } else {
        let trimmed = trim_end(line, CharClass::Whitespace);
        if starts_with_char(trimmed, '#') {
            None
        } else {
            let body = if starts_with_char(trimmed, '@') {
                trimmed.drop_first()
            } else {
                trimmed
            };
            if is_just_directive(body) {
                None
            } else {
                match find_first(body, CharClass::Just(':')) {
                    None => None,
                    Some(idx) => if char_after_is(body, idx, '=') {
                        None
                    } else {
                        match first_word(body.take(idx), CharClass::Whitespace) {
                            None => None,
                            Some(name) => if name.len() > 0 && all_in(
                                name,
                                CharClass::RecipeName,
                            ) {
                                Some(name)
                            } else {
                                None
                            },
                        }
                    },
                }
            }
        }
    }
}

/// The task that runs a justfile recipe.
pub open spec fn just_task(name: Seq<char>) -> TaskView {
    TaskView {
        name,
        detail: "just recipe"@,
        source: SourceKind::Just,
        run: RunView::Exec(seq!["just"@, name]),
    }
}

/// One task per recipe-declaring line, in order.
pub open spec fn just_candidates(ls: Seq<Seq<char>>) -> Seq<TaskView>
    decreases ls.len(),
{
    if ls.len() == 0 {
        seq![]
    } else {
        let p = just_candidates(ls.drop_last());
        match just_recipe(ls.last()) {
            Some(n) => p.push(just_task(n)),
            None => p,
        }
    }
}

/// The tasks of a justfile: its recipes in order, each name once.
pub open spec fn justfile_tasks(content: Seq<char>) -> Seq<TaskView> {
    dedup_tasks(just_candidates(lines(content)))
}

/// The names that the recipe-declaring lines declare, in order.
pub open spec fn just_recipe_names(ls: Seq<Seq<char>>) -> Seq<Seq<char>>
    decreases ls.len(),
{
    if ls.len() == 0 {
        seq![]
    } else {
        let p = just_recipe_names(ls.drop_last());
        match just_recipe(ls.last()) {
            Some(n) => p.push(n),
            None => p,
        }
    }
}

/// Each candidate runs `just` with a name that one of the lines declares;
/// the candidates' names are the declared names.
proof fn lemma_just_candidates(ls: Seq<Seq<char>>)
    ensures
        just_candidates(ls).map_values(|t: TaskView| t.name) == just_recipe_names(ls),
        forall|k: int|
            0 <= k < just_candidates(ls).len() ==> #[trigger] just_candidates(ls)[k] == just_task(
                just_candidates(ls)[k].name,
            ) && exists|j: int|
                0 <= j < ls.len() && just_recipe(ls[j]) == Some(just_candidates(ls)[k].name),
    decreases ls.len(),
{
    if ls.len() > 0 {
        let p = ls.drop_last();
        lemma_just_candidates(p);
        let c = just_candidates(ls);
        let cp = just_candidates(p);
        assert forall|k: int| 0 <= k < c.len() implies #[trigger] c[k] == just_task(c[k].name)
            && exists|j: int| 0 <= j < ls.len() && just_recipe(ls[j]) == Some(c[k].name) by {
            if k < cp.len() {
                assert(c[k] == cp[k]);
                let j = choose|j: int| 0 <= j < p.len() && just_recipe(p[j]) == Some(cp[k].name);
                assert(ls[j] == p[j]);
            } else {
                assert(just_recipe(ls[ls.len() - 1]) == Some(c[k].name));
            }
        }
        assert(c.map_values(|t: TaskView| t.name) =~= just_recipe_names(ls));
    } else {
        assert(just_candidates(ls).map_values(|t: TaskView| t.name) =~= Seq::<Seq<char>>::empty());
    }
}

/// Every task of a justfile runs `just` with its own name: a non-empty word
/// of ASCII letters, digits, `_` and `-` that a line of the file declares as
/// a recipe. Such a line starts in column 0 and is no comment, directive or
/// assignment. The names are the declared recipe names, each kept at its
/// first occurrence, so no two tasks share one.
pub proof fn lemma_justfile_tasks(content: Seq<char>)
    ensures
        justfile_tasks(content).map_values(|t: TaskView| t.name) == dedup_names(
            just_recipe_names(lines(content)),
        ),
        names_distinct(justfile_tasks(content)),
        forall|i: int|
            0 <= i < justfile_tasks(content).len() ==> {
                &&& #[trigger] justfile_tasks(content)[i] == just_task(justfile_tasks(content)[i].name)
                &&& justfile_tasks(content)[i].name.len() > 0
                &&& all_in(justfile_tasks(content)[i].name, CharClass::RecipeName)
                &&& exists|j: int|
                    0 <= j < lines(content).len() && just_recipe(lines(content)[j]) == Some(
                        justfile_tasks(content)[i].name,
                    )
            },
        forall|line: Seq<char>|
            #[trigger] just_recipe(line) is Some ==> {
                &&& line.len() > 0
                &&& line[0] != ' ' && line[0] != '\t'
                &&& !starts_with_char(trim_end(line, CharClass::Whitespace), '#')
            },
{
    let ls = lines(content);
    let c = just_candidates(ls);
    lemma_just_candidates(ls);
    lemma_dedup_task_names(c);
    lemma_dedup_tasks(c);
    let d = justfile_tasks(content);
    assert forall|i: int| 0 <= i < d.len() implies {
        &&& #[trigger] d[i] == just_task(d[i].name)
        &&& d[i].name.len() > 0
        &&& all_in(d[i].name, CharClass::RecipeName)
        &&& exists|j: int| 0 <= j < ls.len() && just_recipe(ls[j]) == Some(d[i].name)
    } by {
        lemma_dedup_element(c, i);
        let k = choose|k: int| is_first_named(c, d[i].name, k) && c[k] == d[i];
        assert(c[k] == just_task(c[k].name));
        let j = choose|j: int| 0 <= j < ls.len() && just_recipe(ls[j]) == Some(c[k].name);
        assert(just_recipe(ls[j]) == Some(d[i].name));
    }
}

/// A line that declares a recipe gives the candidates a task of its name.
proof fn lemma_just_candidates_has(ls: Seq<Seq<char>>, j: int, n: Seq<char>)
    requires
        0 <= j < ls.len(),
        just_recipe(ls[j]) == Some(n),
    ensures
        has_name(just_candidates(ls), n),
    decreases ls.len(),
{
    let p = ls.drop_last();
    let c = just_candidates(ls);
    if j == ls.len() - 1 {
        assert(c[c.len() - 1].name == n);
    } else {
        assert(p[j] == ls[j]);
        lemma_just_candidates_has(p, j, n);
        let cp = just_candidates(p);
        let k = choose|k: int| 0 <= k < cp.len() && (#[trigger] cp[k]).name == n;
        assert(c[k] == cp[k]);
    }
}

/// A justfile line in column 0 that is no comment gives a recipe task where
/// its body (the line without trailing whitespace and without one leading
/// `@`) starts with none of `set `, `export `, `alias `, `import `, `mod `,
/// has a first `:` that no `=` follows, and the first word before that `:`
/// is a non-empty name of ASCII letters, digits, `_` and `-`: the task of that
/// name runs `just` with it.
pub proof fn lemma_justfile_line(content: Seq<char>, j: int, idx: int, name: Seq<char>)
    requires
        0 <= j < lines(content).len(),
        lines(content)[j].len() > 0,
        lines(content)[j][0] != ' ',
        lines(content)[j][0] != '\t',
        !starts_with_char(trim_end(lines(content)[j], CharClass::Whitespace), '#'),
        ({
            let t = trim_end(lines(content)[j], CharClass::Whitespace);
            let body = if starts_with_char(t, '@') {
                t.skip(1)
            } else {
                t
            };
            &&& !has_prefix(body, "set "@)
            &&& !has_prefix(body, "export "@)
            &&& !has_prefix(body, "alias "@)
            &&& !has_prefix(body, "import "@)
            &&& !has_prefix(body, "mod "@)
            &&& is_first_in(body, CharClass::Just(':'), idx)
            &&& !(idx + 1 < body.len() && body[idx + 1] == '=')
            &&& first_word(body.take(idx), CharClass::Whitespace) == Some(name)
        }),
        name.len() > 0,
        all_in(name, CharClass::RecipeName),
    ensures
        exists|i: int|
            0 <= i < justfile_tasks(content).len() && #[trigger] justfile_tasks(content)[i]
                == (TaskView {
                name,
                detail: "just recipe"@,
                source: SourceKind::Just,
                run: RunView::Exec(seq!["just"@, name]),
            }),
{
    let ls = lines(content);
    let t = trim_end(ls[j], CharClass::Whitespace);
    let body = if starts_with_char(t, '@') {
        t.skip(1)
    } else {
        t
    };
    assert(t.drop_first() =~= t.skip(1));
    lemma_find_first_is(body, CharClass::Just(':'), idx);
    assert(just_recipe(ls[j]) == Some(name));
    lemma_just_candidates_has(ls, j, name);
    lemma_dedup_tasks(just_candidates(ls));
    lemma_justfile_tasks(content);
    let d = justfile_tasks(content);
    let i = choose|i: int| 0 <= i < d.len() && (#[trigger] d[i]).name == name;
    assert(d[i] == just_task(d[i].name));
}

/// The directive keywords, as characters.
struct Directives {
    set: Vec<char>,
    export: Vec<char>,
    alias: Vec<char>,
    import: Vec<char>,
    module: Vec<char>,
}

impl Directives {
    spec fn wf(&self) -> bool {
        &&& self.set@ == "set "@
        &&& self.export@ == "export "@
        &&& self.alias@ == "alias "@
        &&& self.import@ == "import "@
        &&& self.module@ == "mod "@
    }

    fn new() -> (r: Directives)
        ensures
            r.wf(),
    {
        Directives {
            set: to_chars("set "),
            export: to_chars("export "),
            alias: to_chars("alias "),
            import: to_chars("import "),
            module: to_chars("mod "),
        }
    }

    /// Whether `s[lo..hi]` is a directive line.
    fn matches(&self, s: &Vec<char>, lo: usize, hi: usize) -> (r: bool)
        requires
            self.wf(),
            lo <= hi <= s@.len(),
        ensures
            r == is_just_directive(slice_of(s@, lo as int, hi as int)),
    {
        has_prefix_in(s, lo, hi, &self.set) || has_prefix_in(s, lo, hi, &self.export)
            || has_prefix_in(s, lo, hi, &self.alias) || has_prefix_in(s, lo, hi, &self.import)
            || has_prefix_in(s, lo, hi, &self.module)
    }
}

/// The bounds of the recipe name that the line `s[lo..hi]` declares.
fn just_recipe_in(s: &Vec<char>, lo: usize, hi: usize, kw: &Directives) -> (r: Option<
    (usize, usize),
>)
    requires
        lo <= hi <= s@.len(),
        kw.wf(),
    ensures
        match r {
            Some((a, b)) => lo <= a <= b <= hi && just_recipe(slice_of(s@, lo as int, hi as int))
                == Some(slice_of(s@, a as int, b as int)),
            None => just_recipe(slice_of(s@, lo as int, hi as int)) is None,
        },
{
    let ghost line = slice_of(s@, lo as int, hi as int);
    if lo == hi || s[lo] == ' ' || s[lo] == '\t' {
        return None;
    }
    let e = trim_end_in(s, lo, hi, CharClass::Whitespace);
    if e > lo && s[lo] == '#' {
        return None;
    }
    let start = if e > lo && s[lo] == '@' {
        lo + 1
    } else {
        lo
    };
    assert(slice_of(s@, lo as int, e as int).len() > 0 ==> slice_of(s@, lo as int, e as int).drop_first()
        =~= slice_of(s@, lo + 1, e as int));
    if kw.matches(s, start, e) {
        return None;
    }
    let ghost body = slice_of(s@, start as int, e as int);
    let idx = match find_in(s, start, e, CharClass::Just(':')) {
        None => return None,
        Some(i) => i,
    };
    if idx + 1 < e && s[idx + 1] == '=' {
        assert(char_after_is(body, idx - start, '='));
        return None;
    }
    assert(!char_after_is(body, idx - start, '='));
    assert(body.take(idx - start) =~= slice_of(s@, start as int, idx as int));
    match first_word_in(s, start, idx, CharClass::Whitespace) {
        None => None,
        Some((a, b)) => {
            if a < b && all_in_range(s, a, b, CharClass::RecipeName) {
                Some((a, b))
            } else {
                None
            }
        },
    }
}

/// Parse recipe names from a justfile. Execution delegates to `just`.
pub fn parse_justfile(content: &str) -> (r: Vec<Task>)
    ensures
        tasks_view(r@) == justfile_tasks(content@),
        names_distinct(tasks_view(r@)),
{
    let kw = Directives::new();
    let s = to_chars(content);
    let ls = line_ranges(&s);
    let ghost all = range_texts(s@, ls@);
    let mut out: Vec<Task> = Vec::new();
    let mut k: usize = 0;
    assert(all.take(0) =~= Seq::<Seq<char>>::empty());
    while k < ls.len()
        invariant
            k <= ls@.len(),
            kw.wf(),
            all == range_texts(s@, ls@),
            all == lines(s@),
            ranges_ok(s@.len() as int, ls@),
            tasks_view(out@) == dedup_tasks(just_candidates(all.take(k as int))),
        decreases ls@.len() - k,
    {
        let (lo, hi) = ls[k];
        proof {
            assert(all.take(k + 1).drop_last() =~= all.take(k as int));
            assert(all.take(k + 1).last() == slice_of(s@, lo as int, hi as int));
        }
        match just_recipe_in(&s, lo, hi, &kw) {
            Some((a, b)) => {
                let name = string_of(&s, a, b);
                let t = Task {
                    name: name.clone(),
                    detail: String::from_str("just recipe"),
                    source: SourceKind::Just,
                    run: RunSpec::Exec(strings2(String::from_str("just"), name)),
                };
                let ghost prev = just_candidates(all.take(k as int));
                proof {
                    assert(t@ == just_task(slice_of(s@, a as int, b as int)));
                    assert(just_candidates(all.take(k + 1)) == prev.push(t@));
                    assert(prev.push(t@).drop_last() =~= prev);
                }
                push_unique(&mut out, t);
            },
            None => {},
        }
        k += 1;
    }
    assert(all.take(ls@.len() as int) =~= all);
    proof {
        lemma_dedup_tasks(just_candidates(all));
    }
    out
}

} // verus!
