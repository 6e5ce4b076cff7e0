//! A deliberately tiny TOML reader that understands just enough: section
//! headers and top-of-table `key = value` lines.
use vstd::prelude::*;
use crate::sources::{
    dedup_names, lemma_dedup_names, lemma_dedup_names_contains, push_unique_name, strings_view,
};
use crate::text::{
    is_first_in, lemma_find_first_is, equals_in, find_first, find_in, has_prefix, has_prefix_in, line_ranges, lines, range_texts,
    ranges_ok, slice_of, starts_with_char, string_of, to_chars, trim, trim_in, CharClass,
};

verus! {

/// The name inside a `[section]` header line; `[[array]]` tables are not
/// section headers.
pub open spec fn header_of(line: Seq<char>) -> Option<Seq<char>> {
    if line.len() >= 2 && line[0] == '[' && line.last() == ']' {
        let inner = line.subrange(1, line.len() - 1);
        if starts_with_char(inner, '[') || (inner.len() > 0 && inner.last() == ']') {
            None
        } else {
            Some(trim(inner))
        }
    } else {
        None
    }
}

/// `line` is bracketed like a table header: `[` first, `]` last. Those that
/// are not section headers (`[[array]]` tables) end the current table too.
pub open spec fn is_bracketed(line: Seq<char>) -> bool {
    line.len() >= 2 && line[0] == '[' && line.last() == ']'
}

/// The table that is open after the trimmed line `t`, where `cur` was open
/// before: a section header opens its table; an `[[array]]` table header
/// leaves no plain table open (`None`).
pub open spec fn table_after(cur: Option<Seq<char>>, t: Seq<char>) -> Option<Seq<char>> {
    match header_of(t) {
        Some(h) => Some(h),
        None => if is_bracketed(t) {
            None
        } else {
            cur
        },
    }
}

/// `s` trimmed, without one pair of surrounding double or single quotes.
pub open spec fn unquoted(s: Seq<char>) -> Seq<char> {
    let t = trim(s);
    if t.len() >= 2 && ((t[0] == '"' && t.last() == '"') || (t[0] == '\'' && t.last() == '\'')) {
        t.subrange(1, t.len() - 1)
    } else {
        t
    }
}

/// The `key = value` pair of a line under the current table, if the line is
/// one: blank lines, comments, lines without `=` and empty keys give none.
pub open spec fn assignment(t: Seq<char>) -> Option<(Seq<char>, Seq<char>)> {
    if t.len() > 0 && t[0] != '#' {
        match find_first(t, CharClass::Just('=')) {
            Some(eq) => {
                let key = unquoted(trim(t.take(eq)));
                let val = unquoted(trim(t.skip(eq + 1)));
                if key.len() > 0 {
                    Some((key, val))
                } else {
                    None
                }
            },
            None => None,
        }
    } else {
        None
    }
}

/// The current table after `line`, and the pair `line` gives under `prefix`.
pub open spec fn pairs_step(cur: Option<Seq<char>>, line: Seq<char>, prefix: Seq<char>) -> (
    Option<Seq<char>>,
    Option<(Seq<char>, Seq<char>)>,
) {
    let t = trim(line);
    if is_bracketed(t) {
        (table_after(cur, t), None)
    } else if cur == Some(prefix) {
        (cur, assignment(t))
    } else {
        (cur, None)
    }
}

/// The current table after the lines `ls`, and the pairs they give under
/// `prefix`.
pub open spec fn pairs_run(ls: Seq<Seq<char>>, prefix: Seq<char>) -> (
    Option<Seq<char>>,
    Seq<(Seq<char>, Seq<char>)>,
)
    decreases ls.len(),
{
    if ls.len() == 0 {
        (Some(seq![]), seq![])
    } else {
        let (cur, ps) = pairs_run(ls.drop_last(), prefix);
        let (cur2, p) = pairs_step(cur, ls.last(), prefix);
        (
            cur2,
            match p {
                Some(p) => ps.push(p),
                None => ps,
            },
        )
    }
}

/// The inline `key = value` pairs directly under `[prefix]`, in order, keys
/// and values unquoted.
pub open spec fn table_entries(content: Seq<char>, prefix: Seq<char>) -> Seq<
    (Seq<char>, Seq<char>),
> {
    pairs_run(lines(content), prefix).1
}

/// The name that a header `[prefix.NAME...]` gives: the unquoted first
/// segment after `prefix.`, if not empty.
pub open spec fn subtable_name(h: Seq<char>, prefix: Seq<char>) -> Option<Seq<char>> {
    let sub = prefix.push('.');
    if has_prefix(h, sub) {
        let rest = h.skip(sub.len() as int);
        let seg = match find_first(rest, CharClass::Just('.')) {
            Some(i) => rest.take(i),
            None => rest,
        };
        let n = unquoted(seg);
        if n.len() > 0 {
            Some(n)
        } else {
            None
        }
    } else {
        None
    }
}

/// The current table after `line`, and the name `line` gives under `prefix`.
pub open spec fn keys_step(cur: Option<Seq<char>>, line: Seq<char>, prefix: Seq<char>) -> (
    Option<Seq<char>>,
    Option<Seq<char>>,
) {
    let t = trim(line);
    if is_bracketed(t) {
        (
            table_after(cur, t),
            match header_of(t) {
                Some(h) => subtable_name(h, prefix),
                None => None,
            },
        )
    } else if cur == Some(prefix) {
        match assignment(t) {
            Some((k, v)) => (cur, Some(k)),
            None => (cur, None),
        }
    } else {
        (cur, None)
    }
}

/// The current table after the lines `ls`, and the names they give under
/// `prefix`.
pub open spec fn keys_run(ls: Seq<Seq<char>>, prefix: Seq<char>) -> (
    Option<Seq<char>>,
    Seq<Seq<char>>,
)
    decreases ls.len(),
{
    if ls.len() == 0 {
        (Some(seq![]), seq![])
    } else {
        let (cur, ns) = keys_run(ls.drop_last(), prefix);
        let (cur2, n) = keys_step(cur, ls.last(), prefix);
        (
            cur2,
            match n {
                Some(n) => ns.push(n),
                None => ns,
            },
        )
    }
}

/// The names defined under `[prefix]`: inline keys directly under it and the
/// first segment of any `[prefix.NAME...]` sub-table, in order, each once.
pub open spec fn table_key_names(content: Seq<char>, prefix: Seq<char>) -> Seq<Seq<char>> {
    dedup_names(keys_run(lines(content), prefix).1)
}

/// The pairs of the first `m` lines start the pairs of all lines.
pub proof fn lemma_pairs_prefix(ls: Seq<Seq<char>>, prefix: Seq<char>, m: int)
    requires
        0 <= m <= ls.len(),
    ensures
        pairs_run(ls.take(m), prefix).1.len() <= pairs_run(ls, prefix).1.len(),
        pairs_run(ls, prefix).1.take(pairs_run(ls.take(m), prefix).1.len() as int) == pairs_run(
            ls.take(m),
            prefix,
        ).1,
    decreases ls.len(),
{
    if m == ls.len() {
        assert(ls.take(m) =~= ls);
        assert(pairs_run(ls, prefix).1.take(pairs_run(ls, prefix).1.len() as int) =~= pairs_run(
            ls,
            prefix,
        ).1);
    } else {
        let p = ls.drop_last();
        assert(p.take(m) =~= ls.take(m));
        lemma_pairs_prefix(p, prefix, m);
        let a = pairs_run(ls.take(m), prefix).1;
        assert(pairs_run(ls, prefix).1.take(a.len() as int) =~= pairs_run(p, prefix).1.take(
            a.len() as int,
        ));
    }
}

/// Every pair comes from an assignment on one of the lines.
pub proof fn lemma_pairs_origin(ls: Seq<Seq<char>>, prefix: Seq<char>)
    ensures
        forall|k: int|
            0 <= k < pairs_run(ls, prefix).1.len() ==> exists|x: int|
                0 <= x < ls.len() && assignment(trim(ls[x])) == Some(
                    #[trigger] pairs_run(ls, prefix).1[k],
                ),
    decreases ls.len(),
{
    if ls.len() > 0 {
        let p = ls.drop_last();
        lemma_pairs_origin(p, prefix);
        let a = pairs_run(ls, prefix).1;
        let ap = pairs_run(p, prefix).1;
        assert forall|k: int| 0 <= k < a.len() implies exists|x: int|
            0 <= x < ls.len() && assignment(trim(ls[x])) == Some(#[trigger] a[k]) by {
            if k < ap.len() {
                assert(a[k] == ap[k]);
                let x = choose|x: int| 0 <= x < p.len() && assignment(trim(p[x])) == Some(ap[k]);
                assert(ls[x] == p[x]);
            } else {
                assert(assignment(trim(ls[ls.len() - 1])) == Some(a[k]));
            }
        }
    }
}

/// A trimmed line that is not bracketed like a table header.
pub open spec fn plain_line(t: Seq<char>) -> bool {
    !(t.len() >= 2 && t[0] == '[' && t.last() == ']')
}

/// After the header line `j0` of `[prefix]`, the table stays open through
/// every line up to `m` while none of them is bracketed.
pub proof fn lemma_table_open(ls: Seq<Seq<char>>, prefix: Seq<char>, j0: int, m: int)
    requires
        0 <= j0 < m <= ls.len(),
        prefix.len() > 0,
        trim(prefix) == prefix,
        prefix[0] != '[',
        prefix.last() != ']',
        trim(ls[j0]) == seq!['['] + prefix + seq![']'],
        forall|x: int| j0 < x < m ==> plain_line(trim(#[trigger] ls[x])),
    ensures
        pairs_run(ls.take(m), prefix).0 == Some(prefix),
    decreases m,
{
    let l = m - 1;
    assert(ls.take(m).drop_last() =~= ls.take(l));
    assert(ls.take(m).last() == ls[l]);
    if l == j0 {
        let t = trim(ls[j0]);
        assert(t.subrange(1, t.len() - 1) =~= prefix);
        assert(header_of(t) == Some(prefix));
    } else {
        lemma_table_open(ls, prefix, j0, l);
        assert(plain_line(trim(ls[l])));
    }
}

/// A `key = value` line under the header `[prefix]`, with no bracketed line
/// between them, gives the pair of its key and its value: the text before
/// the line's first `=` and all the text after it (later `=` included), each
/// trimmed and unquoted.
pub proof fn lemma_table_entry_line(content: Seq<char>, prefix: Seq<char>, j0: int, j: int, eq: int)
    requires
        0 <= j0 < j < lines(content).len(),
        prefix.len() > 0,
        trim(prefix) == prefix,
        prefix[0] != '[',
        prefix.last() != ']',
        trim(lines(content)[j0]) == seq!['['] + prefix + seq![']'],
        forall|x: int| j0 < x <= j ==> plain_line(trim(#[trigger] lines(content)[x])),
        trim(lines(content)[j]).len() > 0,
        trim(lines(content)[j])[0] != '#',
        is_first_in(trim(lines(content)[j]), CharClass::Just('='), eq),
        unquoted(trim(trim(lines(content)[j]).take(eq))).len() > 0,
    ensures
        table_entries(content, prefix).contains(
            (
                unquoted(trim(trim(lines(content)[j]).take(eq))),
                unquoted(trim(trim(lines(content)[j]).skip(eq + 1))),
            ),
        ),
{
    let ls = lines(content);
    let t = trim(ls[j]);
    let pair = (unquoted(trim(t.take(eq))), unquoted(trim(t.skip(eq + 1))));
    lemma_table_open(ls, prefix, j0, j);
    lemma_find_first_is(t, CharClass::Just('='), eq);
    assert(assignment(t) == Some(pair));
    assert(ls.take(j + 1).drop_last() =~= ls.take(j));
    assert(ls.take(j + 1).last() == ls[j]);
    let a = pairs_run(ls.take(j), prefix).1;
    assert(pairs_run(ls.take(j + 1), prefix).1 == a.push(pair));
    lemma_pairs_prefix(ls, prefix, j + 1);
    let all = pairs_run(ls, prefix).1;
    assert(all[a.len() as int] == a.push(pair)[a.len() as int]);
}

/// The pairs and the names are read under the same current table, every
/// name is non-empty, and every key of a pair is one of the names.
proof fn lemma_keys_run(ls: Seq<Seq<char>>, prefix: Seq<char>)
    ensures
        pairs_run(ls, prefix).0 == keys_run(ls, prefix).0,
        forall|i: int|
            0 <= i < keys_run(ls, prefix).1.len() ==> (#[trigger] keys_run(ls, prefix).1[i]).len()
                > 0,
        forall|i: int|
            0 <= i < pairs_run(ls, prefix).1.len() ==> keys_run(ls, prefix).1.contains(
                (#[trigger] pairs_run(ls, prefix).1[i]).0,
            ),
    decreases ls.len(),
{
    if ls.len() > 0 {
        let p = ls.drop_last();
        lemma_keys_run(p, prefix);
        let ks = keys_run(ls, prefix).1;
        let kp = keys_run(p, prefix).1;
        let ps = pairs_run(ls, prefix).1;
        let pp = pairs_run(p, prefix).1;
        assert forall|i: int| 0 <= i < ks.len() implies (#[trigger] ks[i]).len() > 0 by {
            if i < kp.len() {
                assert(ks[i] == kp[i]);
            }
        }
        assert forall|i: int| 0 <= i < ps.len() implies ks.contains((#[trigger] ps[i]).0) by {
            if i < pp.len() {
                assert(ps[i] == pp[i]);
                let j = choose|j: int| 0 <= j < kp.len() && kp[j] == pp[i].0;
                assert(ks[j] == kp[j]);
            } else {
                assert(ks[ks.len() - 1] == ps[i].0);
            }
        }
    }
}

/// The names under `[prefix]` hold no name twice and no empty name; they are
/// exactly the names that the lines give directly under the table (inline
/// keys and first segments of sub-tables), and they hold the key of every
/// inline pair under it.
pub proof fn lemma_table_key_names(content: Seq<char>, prefix: Seq<char>)
    ensures
        table_key_names(content, prefix).no_duplicates(),
        forall|i: int|
            0 <= i < table_key_names(content, prefix).len() ==> (#[trigger] table_key_names(
                content,
                prefix,
            )[i]).len() > 0,
        forall|n: Seq<char>|
            table_key_names(content, prefix).contains(n) <==> keys_run(
                lines(content),
                prefix,
            ).1.contains(n),
        forall|i: int|
            0 <= i < table_entries(content, prefix).len() ==> table_key_names(
                content,
                prefix,
            ).contains((#[trigger] table_entries(content, prefix)[i]).0),
{
    let ks = keys_run(lines(content), prefix).1;
    lemma_dedup_names(ks);
    lemma_dedup_names_contains(ks);
    lemma_keys_run(lines(content), prefix);
    let d = table_key_names(content, prefix);
    assert forall|i: int| 0 <= i < d.len() implies (#[trigger] d[i]).len() > 0 by {
        assert(d == dedup_names(ks));
        assert(dedup_names(ks).contains(d[i]));
        assert(ks.contains(d[i]));
        let j = choose|j: int| 0 <= j < ks.len() && ks[j] == d[i];
        assert(ks[j].len() > 0);
    }
    assert forall|i: int| 0 <= i < table_entries(content, prefix).len() implies d.contains(
        (#[trigger] table_entries(content, prefix)[i]).0,
    ) by {
        assert(ks.contains(table_entries(content, prefix)[i].0));
    }
}

/// The table named by the bounds `cur` in `s`.
pub open spec fn table_view(s: Seq<char>, cur: Option<(usize, usize)>) -> Option<Seq<char>> {
    match cur {
        Some((a, b)) => Some(slice_of(s, a as int, b as int)),
        None => None,
    }
}

/// Whether the table `cur` of `s` is `prefix`.
fn table_is(s: &Vec<char>, cur: Option<(usize, usize)>, prefix: &Vec<char>) -> (r: bool)
    requires
        cur matches Some((a, b)) ==> a <= b <= s@.len(),
    ensures
        r == (table_view(s@, cur) == Some(prefix@)),
{
    match cur {
        Some((a, b)) => equals_in(s, a, b, prefix),
        None => false,
    }
}

pub open spec fn pairs_view(v: Seq<(String, String)>) -> Seq<(Seq<char>, Seq<char>)> {
    v.map_values(|p: (String, String)| (p.0@, p.1@))
}

/// The bounds of `header_of(s[lo..hi])`.
fn header_in(s: &Vec<char>, lo: usize, hi: usize) -> (r: Option<(usize, usize)>)
    requires
        lo <= hi <= s@.len(),
    ensures
        match r {
            Some((a, b)) => lo <= a <= b <= hi && header_of(slice_of(s@, lo as int, hi as int))
                == Some(slice_of(s@, a as int, b as int)),
            None => header_of(slice_of(s@, lo as int, hi as int)) is None,
        },
{
    let ghost line = slice_of(s@, lo as int, hi as int);
    if hi - lo >= 2 && s[lo] == '[' && s[hi - 1] == ']' {
        let ghost inner = line.subrange(1, line.len() - 1);
        assert(inner =~= slice_of(s@, lo + 1, hi - 1));
        if s[lo + 1] == '[' && lo + 1 < hi - 1 {
            return None;
        }
        if lo + 1 < hi - 1 && s[hi - 2] == ']' {
            return None;
        }
        let (a, b) = trim_in(s, lo + 1, hi - 1);
        Some((a, b))
    } else {
        None
    }
}

/// Whether `s[lo..hi]` is bracketed like a table header.
fn bracketed_in(s: &Vec<char>, lo: usize, hi: usize) -> (r: bool)
    requires
        lo <= hi <= s@.len(),
    ensures
        r == is_bracketed(slice_of(s@, lo as int, hi as int)),
{
    hi - lo >= 2 && s[lo] == '[' && s[hi - 1] == ']'
}

/// The bounds of `unquoted(s[lo..hi])`.
fn unquote_in(s: &Vec<char>, lo: usize, hi: usize) -> (r: (usize, usize))
    requires
        lo <= hi <= s@.len(),
    ensures
        lo <= r.0 <= r.1 <= hi,
        unquoted(slice_of(s@, lo as int, hi as int)) == slice_of(s@, r.0 as int, r.1 as int),
{
    let (a, b) = trim_in(s, lo, hi);
    if b - a >= 2 && ((s[a] == '"' && s[b - 1] == '"') || (s[a] == '\'' && s[b - 1] == '\'')) {
        let ghost t = slice_of(s@, a as int, b as int);
        assert(t.subrange(1, t.len() - 1) =~= slice_of(s@, a + 1, b - 1));
        (a + 1, b - 1)
    } else {
        (a, b)
    }
}

/// The bounds of the key and value of `assignment(s[lo..hi])`.
fn assignment_in(s: &Vec<char>, lo: usize, hi: usize) -> (r: Option<
    ((usize, usize), (usize, usize)),
>)
    requires
        lo <= hi <= s@.len(),
    ensures
        match r {
            Some(((a, b), (c, d))) => lo <= a <= b <= hi && lo <= c <= d <= hi && assignment(
                slice_of(s@, lo as int, hi as int),
            ) == Some((slice_of(s@, a as int, b as int), slice_of(s@, c as int, d as int))),
            None => assignment(slice_of(s@, lo as int, hi as int)) is None,
        },
{
    let ghost t = slice_of(s@, lo as int, hi as int);
    if lo == hi || s[lo] == '#' {
        return None;
    }
    match find_in(s, lo, hi, CharClass::Just('=')) {
        Some(eq) => {
            let (k0, k1) = trim_in(s, lo, eq);
            let (a, b) = unquote_in(s, k0, k1);
            let (v0, v1) = trim_in(s, eq + 1, hi);
            let (c, d) = unquote_in(s, v0, v1);
            assert(t.take(eq - lo) =~= slice_of(s@, lo as int, eq as int));
            assert(t.skip(eq - lo + 1) =~= slice_of(s@, eq + 1, hi as int));
            if a < b {
                Some(((a, b), (c, d)))
            } else {
                None
            }
        },
        None => None,
    }
}

/// Extract the inside of a `[section]` header line, ignoring `[[array]]`
/// tables.
pub fn section_header(line: &str) -> (r: Option<&str>)
    ensures
        match r {
            Some(h) => header_of(line@) == Some(h@),
            None => header_of(line@) is None,
        },
{
    let s = to_chars(line);
    assert(slice_of(s@, 0, s@.len() as int) =~= line@);
    match header_in(&s, 0, s.len()) {
        Some((a, b)) => Some(line.substring_char(a, b)),
        None => None,
    }
}

/// `s` trimmed, without one pair of surrounding double or single quotes.
pub fn unquote(s: &str) -> (r: String)
    ensures
        r@ == unquoted(s@),
{
    let v = to_chars(s);
    assert(slice_of(v@, 0, v@.len() as int) =~= s@);
    let (a, b) = unquote_in(&v, 0, v.len());
    string_of(&v, a, b)
}

/// `table_entries(s, prefix)`, on characters.
pub fn table_pairs_of(s: &Vec<char>, prefix: &Vec<char>) -> (r: Vec<(String, String)>)
    ensures
        pairs_view(r@) == table_entries(s@, prefix@),
{
    let ls = line_ranges(s);
    let ghost all = range_texts(s@, ls@);
    let mut out: Vec<(String, String)> = Vec::new();
    let mut cur: Option<(usize, usize)> = Some((0, 0));
    let mut k: usize = 0;
    assert(all.take(0) =~= Seq::<Seq<char>>::empty());
    assert(slice_of(s@, 0, 0) =~= Seq::<char>::empty());
    while k < ls.len()
        invariant
            k <= ls@.len(),
            all == range_texts(s@, ls@),
            all == lines(s@),
            ranges_ok(s@.len() as int, ls@),
            cur matches Some((a, b)) ==> a <= b <= s@.len(),
            table_view(s@, cur) == pairs_run(all.take(k as int), prefix@).0,
            pairs_view(out@) == pairs_run(all.take(k as int), prefix@).1,
        decreases ls@.len() - k,
    {
        let (lo, hi) = ls[k];
        proof {
            assert(all.take(k + 1).drop_last() =~= all.take(k as int));
            assert(all.take(k + 1).last() == slice_of(s@, lo as int, hi as int));
        }
        let ghost prev = pairs_run(all.take(k as int), prefix@).1;
        let (t0, t1) = trim_in(s, lo, hi);
        if bracketed_in(s, t0, t1) {
            cur = match header_in(s, t0, t1) {
                Some((a, b)) => Some((a, b)),
                None => None,
            };
        } else {
            if table_is(s, cur, prefix) {
                    match assignment_in(s, t0, t1) {
                        Some(((a, b), (c, d))) => {
                            let p = (string_of(s, a, b), string_of(s, c, d));
                            out.push(p);
                            assert(pairs_view(out@) =~= prev.push(
                                (slice_of(s@, a as int, b as int), slice_of(s@, c as int, d as int)),
                            ));
                        },
                        None => {},
                    }
            }
        }
        k += 1;
    }
    assert(all.take(ls@.len() as int) =~= all);
    out
}

/// Inline `key = value` pairs directly under `[prefix]` (value un-quoted).
pub fn table_pairs(content: &str, prefix: &str) -> (r: Vec<(String, String)>)
    ensures
        pairs_view(r@) == table_entries(content@, prefix@),
{
    let s = to_chars(content);
    let p = to_chars(prefix);
    table_pairs_of(&s, &p)
}

/// The bounds of `subtable_name(s[lo..hi], prefix)`, where `sub` is
/// `prefix` followed by `.`.
fn subtable_name_in(s: &Vec<char>, lo: usize, hi: usize, prefix: &Vec<char>, sub: &Vec<char>) -> (r:
    Option<(usize, usize)>)
    requires
        lo <= hi <= s@.len(),
        sub@ == prefix@.push('.'),
    ensures
        match r {
            Some((a, b)) => lo <= a <= b <= hi && subtable_name(
                slice_of(s@, lo as int, hi as int),
                prefix@,
            ) == Some(slice_of(s@, a as int, b as int)),
            None => subtable_name(slice_of(s@, lo as int, hi as int), prefix@) is None,
        },
{
    let ghost h = slice_of(s@, lo as int, hi as int);
    if !has_prefix_in(s, lo, hi, sub) {
        return None;
    }
    let r0 = lo + sub.len();
    let ghost rest = h.skip(sub@.len() as int);
    assert(rest =~= slice_of(s@, r0 as int, hi as int));
    let seg_end = match find_in(s, r0, hi, CharClass::Just('.')) {
        Some(i) => {
            assert(rest.take(i - r0) =~= slice_of(s@, r0 as int, i as int));
            i
        },
        None => hi,
    };
    let (a, b) = unquote_in(s, r0, seg_end);
    if a < b {
        Some((a, b))
    } else {
        None
    }
}

/// One step of `keys_run` on the line `s[lo..hi]`, the table `cur` being
/// open: the table open after it, and the bounds of the name it gives.
fn keys_step_in(
    s: &Vec<char>,
    lo: usize,
    hi: usize,
    cur: Option<(usize, usize)>,
    prefix: &Vec<char>,
    sub: &Vec<char>,
) -> (r: (Option<(usize, usize)>, Option<(usize, usize)>))
    requires
        lo <= hi <= s@.len(),
        sub@ == prefix@.push('.'),
        cur matches Some((a, b)) ==> a <= b <= s@.len(),
    ensures
        r.0 matches Some((a, b)) ==> a <= b <= s@.len(),
        r.1 matches Some((a, b)) ==> a <= b <= s@.len(),
        ({
            let (c2, n) = keys_step(table_view(s@, cur), slice_of(s@, lo as int, hi as int), prefix@);
            &&& table_view(s@, r.0) == c2
            &&& match r.1 {
                Some((a, b)) => n == Some(slice_of(s@, a as int, b as int)),
                None => n is None,
            }
        }),
{
    let (t0, t1) = trim_in(s, lo, hi);
    if bracketed_in(s, t0, t1) {
        match header_in(s, t0, t1) {
            Some((a, b)) => (Some((a, b)), subtable_name_in(s, a, b, prefix, sub)),
            None => (None, None),
        }
    } else if table_is(s, cur, prefix) {
        match assignment_in(s, t0, t1) {
            Some(((a, b), _)) => (cur, Some((a, b))),
            None => (cur, None),
        }
    } else {
        (cur, None)
    }
}

/// `table_key_names(s, prefix)`, on characters.
pub fn table_keys_of(s: &Vec<char>, prefix: &Vec<char>) -> (r: Vec<String>)
    ensures
        strings_view(r@) == table_key_names(s@, prefix@),
{
    let mut sub = prefix.clone();
    sub.push('.');
    let ls = line_ranges(s);
    let ghost all = range_texts(s@, ls@);
    let mut out: Vec<String> = Vec::new();
    let mut cur: Option<(usize, usize)> = Some((0, 0));
    let mut k: usize = 0;
    assert(all.take(0) =~= Seq::<Seq<char>>::empty());
    assert(slice_of(s@, 0, 0) =~= Seq::<char>::empty());
    while k < ls.len()
        invariant
            k <= ls@.len(),
            sub@ == prefix@.push('.'),
            all == range_texts(s@, ls@),
            all == lines(s@),
            ranges_ok(s@.len() as int, ls@),
            cur matches Some((a, b)) ==> a <= b <= s@.len(),
            table_view(s@, cur) == keys_run(all.take(k as int), prefix@).0,
            strings_view(out@) == dedup_names(keys_run(all.take(k as int), prefix@).1),
        decreases ls@.len() - k,
    {
        let (lo, hi) = ls[k];
        proof {
            assert(all.take(k + 1).drop_last() =~= all.take(k as int));
            assert(all.take(k + 1).last() == slice_of(s@, lo as int, hi as int));
        }
        let ghost prev = keys_run(all.take(k as int), prefix@).1;
        let (next, found) = keys_step_in(s, lo, hi, cur, prefix, &sub);
        cur = next;
        match found {
            Some((a, b)) => {
                let n = string_of(s, a, b);
                proof {
                    let names = prev.push(n@);
                    assert(keys_run(all.take(k + 1), prefix@).1 == names);
                    assert(names.drop_last() =~= prev);
                }
                push_unique_name(&mut out, n);
            },
            None => {},
        }
        k += 1;
    }
    assert(all.take(ls@.len() as int) =~= all);
    out
}

/// Names defined under a TOML table `prefix`: both inline keys directly under
/// `[prefix]` and the first segment of any `[prefix.NAME...]` sub-table.
pub fn table_keys(content: &str, prefix: &str) -> (r: Vec<String>)
    ensures
        strings_view(r@) == table_key_names(content@, prefix@),
        strings_view(r@).no_duplicates(),
{
    proof {
        lemma_dedup_names(keys_run(lines(content@), prefix@).1);
    }
    let s = to_chars(content);
    let p = to_chars(prefix);
    table_keys_of(&s, &p)
}

} // verus!
