//! npm scripts from package.json. Decoding the JSON is left to the caller;
//! what it hands over is the `scripts` object, if the document had one.
//! Scripts are listed sorted by name.
use vstd::prelude::*;
use crate::sources::{tasks_view, truncate, truncated, RunSpec, RunView, SourceKind, Task, TaskView};
use crate::text::to_chars;
use crate::toml::pairs_view;

verus! {

/// The part of a package.json that matters here: its `scripts` object, as
/// name and command pairs.
pub struct PackageJson {
    pub scripts: Option<Vec<(String, String)>>,
}

/// `a` comes before or equals `b` in the lexicographic order of code points
/// (which is also the byte order of their UTF-8 encodings).
pub open spec fn lex_le(a: Seq<char>, b: Seq<char>) -> bool
    decreases a.len(),
{
    if a.len() == 0 {
        true
    } else if b.len() == 0 {
        false
    } else if a[0] != b[0] {
        (a[0] as int) < (b[0] as int)
    } else {
        lex_le(a.drop_first(), b.drop_first())
    }
}

/// The order is total.
pub proof fn lemma_lex_total(a: Seq<char>, b: Seq<char>)
    ensures
        lex_le(a, b) || lex_le(b, a),
    decreases a.len(),
{
    if a.len() > 0 && b.len() > 0 {
        if a[0] == b[0] {
            lemma_lex_total(a.drop_first(), b.drop_first());
        } else {
            assert(a[0] as int != b[0] as int);
        }
    }
}

/// The order is antisymmetric.
pub proof fn lemma_lex_antisym(a: Seq<char>, b: Seq<char>)
    requires
        lex_le(a, b),
        lex_le(b, a),
    ensures
        a == b,
    decreases a.len(),
{
    if a.len() > 0 && b.len() > 0 {
        if a[0] == b[0] {
            lemma_lex_antisym(a.drop_first(), b.drop_first());
            assert(a =~= seq![a[0]] + a.drop_first());
            assert(b =~= seq![b[0]] + b.drop_first());
        }
    } else {
        assert(a =~= b);
    }
}

/// The order is transitive.
pub proof fn lemma_lex_trans(a: Seq<char>, b: Seq<char>, c: Seq<char>)
    requires
        lex_le(a, b),
        lex_le(b, c),
    ensures
        lex_le(a, c),
    decreases a.len(),
{
    if a.len() > 0 && b.len() > 0 && c.len() > 0 && a[0] == b[0] && b[0] == c[0] {
        lemma_lex_trans(a.drop_first(), b.drop_first(), c.drop_first());
    }
}

/// `s` with `t` inserted after every task whose name is not greater than
/// its own, looking from the back: in a sorted `s`, after the last task
/// whose name does not exceed `t`'s.
pub open spec fn insert_by_name(s: Seq<TaskView>, t: TaskView) -> Seq<TaskView>
    decreases s.len(),
{
    if s.len() == 0 {
        seq![t]
    } else if lex_le(s.last().name, t.name) {
        s.push(t)
    } else {
        insert_by_name(s.drop_last(), t).push(s.last())
    }
}

/// `ts` sorted by name, stably: tasks with equal names keep their order.
pub open spec fn sort_by_name(ts: Seq<TaskView>) -> Seq<TaskView>
    decreases ts.len(),
{
    if ts.len() == 0 {
        seq![]
    } else {
        insert_by_name(sort_by_name(ts.drop_last()), ts.last())
    }
}

pub open spec fn sorted_by_name(s: Seq<TaskView>) -> bool {
    forall|i: int, j: int| 0 <= i < j < s.len() ==> lex_le(#[trigger] s[i].name, #[trigger] s[j].name)
}

/// Inserting keeps a sorted sequence sorted and adds exactly `t`.
pub proof fn lemma_insert_by_name(s: Seq<TaskView>, t: TaskView)
    requires
        sorted_by_name(s),
    ensures
        sorted_by_name(insert_by_name(s, t)),
        insert_by_name(s, t).to_multiset() == s.to_multiset().insert(t),
        insert_by_name(s, t).len() == s.len() + 1,
        forall|i: int|
            0 <= i < s.len() + 1 ==> insert_by_name(s, t)[i] == t || s.contains(
                #[trigger] insert_by_name(s, t)[i],
            ),
    decreases s.len(),
{
    broadcast use vstd::seq_lib::group_to_multiset_ensures;

    let r = insert_by_name(s, t);
    if s.len() == 0 {
        assert(r.to_multiset() =~= Seq::<TaskView>::empty().push(t).to_multiset());
    } else if lex_le(s.last().name, t.name) {
        assert forall|i: int, j: int| 0 <= i < j < r.len() implies lex_le(
            #[trigger] r[i].name,
            #[trigger] r[j].name,
        ) by {
            if j == s.len() {
                if i < s.len() - 1 {
                    lemma_lex_trans(s[i].name, s.last().name, t.name);
                }
            }
        }
        assert forall|i: int| 0 <= i < s.len() + 1 implies r[i] == t || s.contains(
            #[trigger] r[i],
        ) by {
            if i < s.len() {
                assert(s[i] == r[i]);
            }
        }
    } else {
        let p = s.drop_last();
        let last = s.last();
        assert(sorted_by_name(p));
        lemma_insert_by_name(p, t);
        let q = insert_by_name(p, t);
        lemma_lex_total(last.name, t.name);
        assert(s =~= p.push(last));
        assert forall|i: int| 0 <= i < q.len() implies lex_le(#[trigger] q[i].name, last.name) by {
            if q[i] != t {
                let k = choose|k: int| 0 <= k < p.len() && p[k] == q[i];
                assert(s[k] == p[k]);
            }
        }
        assert forall|i: int, j: int| 0 <= i < j < r.len() implies lex_le(
            #[trigger] r[i].name,
            #[trigger] r[j].name,
        ) by {
            if j == q.len() {
                assert(r[i] == q[i]);
            } else {
                assert(r[i] == q[i] && r[j] == q[j]);
            }
        }
        assert forall|i: int| 0 <= i < s.len() + 1 implies r[i] == t || s.contains(
            #[trigger] r[i],
        ) by {
            if i < q.len() {
                assert(r[i] == q[i]);
                if q[i] != t {
                    let k = choose|k: int| 0 <= k < p.len() && p[k] == q[i];
                    assert(s[k] == p[k]);
                }
            } else {
                assert(s[s.len() - 1] == last);
            }
        }
        assert(r.to_multiset() == q.to_multiset().insert(last));
        assert(s.to_multiset() == p.to_multiset().insert(last));
        assert(r.to_multiset() =~= s.to_multiset().insert(t));
    }
}

/// Sorting gives a sorted permutation.
pub proof fn lemma_sort_by_name(ts: Seq<TaskView>)
    ensures
        sorted_by_name(sort_by_name(ts)),
        sort_by_name(ts).to_multiset() == ts.to_multiset(),
    decreases ts.len(),
{
    broadcast use vstd::seq_lib::group_to_multiset_ensures;

    if ts.len() == 0 {
        assert(sort_by_name(ts).to_multiset() =~= ts.to_multiset());
    } else {
        lemma_sort_by_name(ts.drop_last());
        lemma_insert_by_name(sort_by_name(ts.drop_last()), ts.last());
        assert(ts =~= ts.drop_last().push(ts.last()));
    }
}

/// The task that runs an npm script.
pub open spec fn npm_task(name: Seq<char>, cmd: Seq<char>) -> TaskView {
    TaskView { name, detail: truncated(cmd), source: SourceKind::Npm, run: RunView::Shell(cmd) }
}

/// One task per script, in the order given.
pub open spec fn npm_candidates(pkg: Option<PackageJson>) -> Seq<TaskView> {
    match pkg {
        Some(p) => match p.scripts {
            Some(v) => pairs_view(v@).map_values(
                |p: (Seq<char>, Seq<char>)| npm_task(p.0, p.1),
            ),
            None => seq![],
        },
        None => seq![],
    }
}

/// The tasks of a package.json: its scripts sorted by name. A document that
/// could not be decoded (`None`) or has no `scripts` gives none.
pub open spec fn npm_tasks(pkg: Option<PackageJson>) -> Seq<TaskView> {
    sort_by_name(npm_candidates(pkg))
}

/// Whether `lex_le(a, b)`.
pub fn name_le(a: &String, b: &String) -> (r: bool)
    ensures
        r == lex_le(a@, b@),
{
    let x = to_chars(a.as_str());
    let y = to_chars(b.as_str());
    let mut i: usize = 0;
    assert(x@.skip(0) =~= x@);
    assert(y@.skip(0) =~= y@);
    while i < x.len() && i < y.len() && x[i] == y[i]
        invariant
            i <= x@.len(),
            i <= y@.len(),
            lex_le(x@.skip(i as int), y@.skip(i as int)) == lex_le(x@, y@),
        decreases x@.len() - i,
    {
        assert(x@.skip(i as int).drop_first() =~= x@.skip(i + 1));
        assert(y@.skip(i as int).drop_first() =~= y@.skip(i + 1));
        i += 1;
    }
    if i == x.len() {
        true
    } else if i == y.len() {
        false
    } else {
        x[i] < y[i]
    }
}

/// Inserts `t` into `out` as `insert_by_name` does.
fn insert_task_by_name(out: &mut Vec<Task>, t: Task)
    ensures
        tasks_view(final(out)@) == insert_by_name(tasks_view(old(out)@), t@),
{
    let ghost s = tasks_view(out@);
    let mut j = out.len();
    assert(s.take(j as int) =~= s);
    assert(s.take(j as int) + s.skip(j as int) =~= s);
    assert(s.skip(j as int) =~= Seq::<TaskView>::empty());
    while j > 0 && !name_le(&out[j - 1].name, &t.name)
        invariant
            j <= out@.len(),
            s == tasks_view(out@),
            insert_by_name(s, t@) == insert_by_name(s.take(j as int), t@) + s.skip(j as int),
        decreases j,
    {
        proof {
            let a = s.take(j as int);
            assert(a.last() == s[j - 1]);
            assert(a.drop_last() =~= s.take(j - 1));
            assert(insert_by_name(a, t@) == insert_by_name(s.take(j - 1), t@).push(s[j - 1]));
            assert(insert_by_name(s.take(j - 1), t@).push(s[j - 1]) + s.skip(j as int)
                =~= insert_by_name(s.take(j - 1), t@) + s.skip(j - 1));
        }
        j -= 1;
    }
    proof {
        let a = s.take(j as int);
        if j > 0 {
            assert(a.last() == s[j - 1]);
        }
        assert(insert_by_name(a, t@) =~= a.push(t@));
    }
    let ghost tv = t@;
    out.insert(j, t);
    assert(tasks_view(out@) =~= s.take(j as int).push(tv) + s.skip(j as int));
}

/// The tasks of a package.json, sorted by name.
pub fn parse_npm(pkg: Option<PackageJson>) -> (r: Vec<Task>)
    ensures
        tasks_view(r@) == npm_tasks(pkg),
        sorted_by_name(tasks_view(r@)),
        tasks_view(r@).to_multiset() == npm_candidates(pkg).to_multiset(),
{
    let ghost cands = npm_candidates(pkg);
    proof {
        lemma_sort_by_name(cands);
    }
    let mut out: Vec<Task> = Vec::new();
    let scripts: Vec<(String, String)> = match pkg {
        Some(p) => match p.scripts {
            Some(v) => v,
            None => Vec::new(),
        },
        None => Vec::new(),
    };
    let ghost pv = pairs_view(scripts@);
    assert(cands =~= pv.map_values(|p: (Seq<char>, Seq<char>)| npm_task(p.0, p.1)));
    let mut k: usize = 0;
    assert(cands.take(0) =~= Seq::<TaskView>::empty());
    while k < scripts.len()
        invariant
            k <= scripts@.len(),
            pv == pairs_view(scripts@),
            cands == pv.map_values(|p: (Seq<char>, Seq<char>)| npm_task(p.0, p.1)),
            tasks_view(out@) == sort_by_name(cands.take(k as int)),
        decreases scripts@.len() - k,
    {
        let name = scripts[k].0.clone();
        let cmd = scripts[k].1.clone();
        let t = Task {
            detail: truncate(cmd.as_str()),
            run: RunSpec::Shell(cmd),
            name,
            source: SourceKind::Npm,
        };
        proof {
            assert(t@ == cands[k as int]);
            assert(cands.take(k + 1).drop_last() =~= cands.take(k as int));
        }
        insert_task_by_name(&mut out, t);
        k += 1;
    }
    assert(cands.take(cands.len() as int) =~= cands);
    out
}

} // verus!
