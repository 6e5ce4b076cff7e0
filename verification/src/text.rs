//! Character-level text primitives: character classes, trimming, searching
//! and line splitting, each given both as a mathematical definition over
//! `Seq<char>` and as an executable routine on a range of a `Vec<char>`.
use vstd::prelude::*;

verus! {

/// The classes of characters that the manifest readers test for.
#[derive(Clone, Copy)]
pub enum CharClass {
    /// Unicode `White_Space`, as `char::is_whitespace` decides it.
    Whitespace,
    /// ASCII whitespace, as `u8::is_ascii_whitespace` decides it.
    AsciiWhitespace,
    /// A double or a single quote.
    Quote,
    /// Exactly the given character.
    Just(char),
    /// A character allowed in a Makefile target name.
    MakeTarget,
    /// A character allowed in a justfile recipe or Procfile process name.
    RecipeName,
    /// A character allowed in a Taskfile task name.
    TaskName,
    /// A shell metacharacter, or a line break.
    ShellMeta,
}

pub open spec fn is_unicode_whitespace(c: char) -> bool {
    let u = c as u32;
    ||| 0x09 <= u <= 0x0d
    ||| u == 0x20
    ||| u == 0x85
    ||| u == 0xa0
    ||| u == 0x1680
    ||| 0x2000 <= u <= 0x200a
    ||| u == 0x2028
    ||| u == 0x2029
    ||| u == 0x202f
    ||| u == 0x205f
    ||| u == 0x3000
}

pub open spec fn is_ascii_ws(c: char) -> bool {
    c == ' ' || c == '\t' || c == '\n' || c == '\x0C' || c == '\r'
}

pub open spec fn is_ascii_alnum(c: char) -> bool {
    let u = c as u32;
    ||| 0x30 <= u <= 0x39
    ||| 0x41 <= u <= 0x5a
    ||| 0x61 <= u <= 0x7a
}

pub open spec fn is_shell_meta(c: char) -> bool {
    ||| c == '&' || c == '|' || c == ';' || c == '<' || c == '>' || c == '$'
    ||| c == '`' || c == '"' || c == '\'' || c == '(' || c == ')' || c == '{'
    ||| c == '}' || c == '[' || c == ']' || c == '*' || c == '?' || c == '~'
    ||| c == '!' || c == '#' || c == '\\' || c == '\n' || c == '\r'
}

pub open spec fn in_class(cls: CharClass, c: char) -> bool {
    match cls {
        CharClass::Whitespace => is_unicode_whitespace(c),
        CharClass::AsciiWhitespace => is_ascii_ws(c),
        CharClass::Quote => c == '"' || c == '\'',
        CharClass::Just(d) => c == d,
        CharClass::MakeTarget => is_ascii_alnum(c) || c == '_' || c == '-' || c == '.' || c == '/',
        CharClass::RecipeName => is_ascii_alnum(c) || c == '_' || c == '-',
        CharClass::TaskName => is_ascii_alnum(c) || c == '_' || c == '-' || c == ':',
        CharClass::ShellMeta => is_shell_meta(c),
    }
}

/// Decides `in_class`.
pub fn is_in_class(cls: CharClass, c: char) -> (r: bool)
    ensures
        r == in_class(cls, c),
{
    let u = c as u32;
    let alnum = (0x30 <= u && u <= 0x39) || (0x41 <= u && u <= 0x5a) || (0x61 <= u && u <= 0x7a);
    match cls {
        CharClass::Whitespace => {
            (0x09 <= u && u <= 0x0d) || u == 0x20 || u == 0x85 || u == 0xa0 || u == 0x1680 || (
            0x2000 <= u && u <= 0x200a) || u == 0x2028 || u == 0x2029 || u == 0x202f || u == 0x205f
                || u == 0x3000
        },
        CharClass::AsciiWhitespace => c == ' ' || c == '\t' || c == '\n' || c == '\x0C' || c
            == '\r',
        CharClass::Quote => c == '"' || c == '\'',
        CharClass::Just(d) => c == d,
        CharClass::MakeTarget => alnum || c == '_' || c == '-' || c == '.' || c == '/',
        CharClass::RecipeName => alnum || c == '_' || c == '-',
        CharClass::TaskName => alnum || c == '_' || c == '-' || c == ':',
        CharClass::ShellMeta => {
            c == '&' || c == '|' || c == ';' || c == '<' || c == '>' || c == '$' || c == '`' || c
                == '"' || c == '\'' || c == '(' || c == ')' || c == '{' || c == '}' || c == '['
                || c == ']' || c == '*' || c == '?' || c == '~' || c == '!' || c == '#' || c
                == '\\' || c == '\n' || c == '\r'
        },
    }
}

/// `i` is the first position of `s` holding a character of class `cls`.
pub open spec fn is_first_in(s: Seq<char>, cls: CharClass, i: int) -> bool {
    &&& 0 <= i < s.len()
    &&& in_class(cls, s[i])
    &&& forall|j: int| 0 <= j < i ==> !in_class(cls, #[trigger] s[j])
}

/// The first position of `s` holding a character of class `cls`, if any.
pub open spec fn find_first(s: Seq<char>, cls: CharClass) -> Option<int> {
    if exists|i: int| is_first_in(s, cls, i) {
        Some(choose|i: int| is_first_in(s, cls, i))
    } else {
        None
    }
}

/// Every character of `s` is of class `cls`.
pub open spec fn all_in(s: Seq<char>, cls: CharClass) -> bool {
    forall|i: int| 0 <= i < s.len() ==> in_class(cls, #[trigger] s[i])
}

/// Some character of `s` is of class `cls`.
pub open spec fn any_in(s: Seq<char>, cls: CharClass) -> bool {
    exists|i: int| 0 <= i < s.len() && in_class(cls, #[trigger] s[i])
}

/// `s` without its leading characters of class `cls`.
pub open spec fn trim_start(s: Seq<char>, cls: CharClass) -> Seq<char>
    decreases s.len(),
{
    if s.len() > 0 && in_class(cls, s[0]) {
        trim_start(s.drop_first(), cls)
    } else {
        s
    }
}

/// `s` without its trailing characters of class `cls`.
pub open spec fn trim_end(s: Seq<char>, cls: CharClass) -> Seq<char>
    decreases s.len(),
{
    if s.len() > 0 && in_class(cls, s.last()) {
        trim_end(s.drop_last(), cls)
    } else {
        s
    }
}

/// `s` without leading and trailing characters of class `cls`.
pub open spec fn trim_by(s: Seq<char>, cls: CharClass) -> Seq<char> {
    trim_end(trim_start(s, cls), cls)
}

/// `s` without leading and trailing whitespace (`str::trim`).
pub open spec fn trim(s: Seq<char>) -> Seq<char> {
    trim_by(s, CharClass::Whitespace)
}

pub open spec fn has_prefix(s: Seq<char>, p: Seq<char>) -> bool {
    p.len() <= s.len() && s.take(p.len() as int) == p
}

pub open spec fn starts_with_char(s: Seq<char>, c: char) -> bool {
    s.len() > 0 && s[0] == c
}

/// `s[i + 1]` exists and is `c`.
pub open spec fn char_after_is(s: Seq<char>, i: int, c: char) -> bool {
    0 <= i + 1 < s.len() && s[i + 1] == c
}

/// The first word of `s`, words being separated by characters of class `sep`
/// (`split_whitespace().next()` and `split_ascii_whitespace().next()`).
pub open spec fn first_word(s: Seq<char>, sep: CharClass) -> Option<Seq<char>> {
    let t = trim_start(s, sep);
    if t.len() == 0 {
        None
    } else {
        match find_first(t, sep) {
            Some(i) => Some(t.take(i)),
            None => Some(t),
        }
    }
}

/// Trimming from the start drops a prefix, after which the first character
/// is not of the class.
pub proof fn lemma_trim_start(s: Seq<char>, cls: CharClass)
    ensures
        trim_start(s, cls).len() <= s.len(),
        trim_start(s, cls) == s.skip(s.len() - trim_start(s, cls).len()),
        trim_start(s, cls).len() > 0 ==> !in_class(cls, trim_start(s, cls)[0]),
    decreases s.len(),
{
    if s.len() > 0 && in_class(cls, s[0]) {
        lemma_trim_start(s.drop_first(), cls);
        let t = trim_start(s.drop_first(), cls);
        assert(s.drop_first().skip(s.drop_first().len() - t.len()) =~= s.skip(s.len() - t.len()));
    } else {
        assert(s.skip(0) =~= s);
    }
}

/// The words of `s`, words being separated by runs of characters of class
/// `sep` (`split_whitespace` and `split_ascii_whitespace`).
pub open spec fn words(s: Seq<char>, sep: CharClass) -> Seq<Seq<char>>
    decreases s.len(),
{
    let t = trim_start(s, sep);
    if t.len() == 0 {
        seq![]
    } else {
        match find_first(t, sep) {
            Some(i) => {
                proof {
                    lemma_trim_start(s, sep);
                }
                seq![t.take(i)] + words(t.skip(i), sep)
            },
            None => seq![t],
        }
    }
}

/// A line without one trailing carriage return.
pub open spec fn strip_cr(l: Seq<char>) -> Seq<char> {
    if l.len() > 0 && l.last() == '\r' {
        l.drop_last()
    } else {
        l
    }
}

/// The lines of `s` as `str::lines` gives them: split after each `\n`, each
/// line without its `\n` or `\r\n`, and no empty line after a final `\n`.
pub open spec fn lines(s: Seq<char>) -> Seq<Seq<char>>
    decreases s.len(),
{
    if s.len() == 0 {
        seq![]
    } else {
        match find_first(s, CharClass::Just('\n')) {
            Some(i) => seq![strip_cr(s.take(i))] + lines(s.skip(i + 1)),
            None => seq![s],
        }
    }
}

/// The number of bytes that `c` takes in UTF-8.
pub open spec fn utf8_width(c: char) -> nat {
    let u = c as u32;
    if u < 0x80 {
        1
    } else if u < 0x800 {
        2
    } else if u < 0x10000 {
        3
    } else {
        4
    }
}

/// The number of bytes that `s` takes in UTF-8.
pub open spec fn utf8_len(s: Seq<char>) -> nat
    decreases s.len(),
{
    if s.len() == 0 {
        0
    } else {
        utf8_len(s.drop_last()) + utf8_width(s.last())
    }
}

/// The characters of `s[lo..hi]`.
pub open spec fn slice_of(s: Seq<char>, lo: int, hi: int) -> Seq<char> {
    s.subrange(lo, hi)
}

/// The characters of a string slice.
pub fn to_chars(s: &str) -> (r: Vec<char>)
    ensures
        r@ == s@,
{
    let mut r: Vec<char> = Vec::new();
    for c in it: s.chars()
        invariant
            r@ == it.seq().take(it.index() as int),
            it.seq() == s@,
    {
        r.push(c);
    }
    r
}

/// Appends a character to a string.
/// Wraps `String::push`; trusted to append exactly `c`, as its documentation
/// says.
#[verifier::external_body]
fn push_char(s: &mut String, c: char)
    ensures
        final(s)@ == old(s)@.push(c),
{
    s.push(c);
}

/// A string holding `s[lo..hi]`.
pub fn string_of(s: &Vec<char>, lo: usize, hi: usize) -> (r: String)
    requires
        lo <= hi <= s@.len(),
    ensures
        r@ == s@.subrange(lo as int, hi as int),
{
    let mut r = String::new();
    let mut i = lo;
    while i < hi
        invariant
            lo <= i <= hi <= s@.len(),
            r@ == s@.subrange(lo as int, i as int),
        decreases hi - i,
    {
        push_char(&mut r, s[i]);
        i += 1;
        assert(r@ =~= s@.subrange(lo as int, i as int));
    }
    r
}

/// A string holding `s[lo..hi]` followed by `c`.
pub fn string_of_then(s: &Vec<char>, lo: usize, hi: usize, c: char) -> (r: String)
    requires
        lo <= hi <= s@.len(),
    ensures
        r@ == s@.subrange(lo as int, hi as int).push(c),
{
    let mut r = string_of(s, lo, hi);
    push_char(&mut r, c);
    r
}

/// The first position in `s[lo..hi]` holding a character of class `cls`.
pub fn find_in(s: &Vec<char>, lo: usize, hi: usize, cls: CharClass) -> (r: Option<usize>)
    requires
        lo <= hi <= s@.len(),
    ensures
        match r {
            Some(j) => lo <= j < hi && find_first(slice_of(s@, lo as int, hi as int), cls) == Some(
                j - lo,
            ),
            None => find_first(slice_of(s@, lo as int, hi as int), cls) is None,
        },
{
    let ghost t = slice_of(s@, lo as int, hi as int);
    let mut i = lo;
    while i < hi
        invariant
            lo <= i <= hi <= s@.len(),
            t == slice_of(s@, lo as int, hi as int),
            forall|j: int| lo <= j < i ==> !in_class(cls, #[trigger] s@[j]),
        decreases hi - i,
    {
        if is_in_class(cls, s[i]) {
            assert(is_first_in(t, cls, i - lo)) by {
                assert forall|j: int| 0 <= j < i - lo implies !in_class(cls, #[trigger] t[j]) by {
                    assert(t[j] == s@[lo + j]);
                }
            }
            let ghost k = choose|k: int| is_first_in(t, cls, k);
            assert(k == i - lo) by {
                if k < i - lo {
                    assert(t[k] == s@[lo + k]);
                } else if k > i - lo {
                    assert(t[i - lo] == s@[i as int]);
                }
            }
            return Some(i);
        }
        i += 1;
    }
    assert(!exists|k: int| is_first_in(t, cls, k)) by {
        if exists|k: int| is_first_in(t, cls, k) {
            let k = choose|k: int| is_first_in(t, cls, k);
            assert(t[k] == s@[lo + k]);
        }
    }
    None
}

/// Whether every character of `s[lo..hi]` is of class `cls`.
pub fn all_in_range(s: &Vec<char>, lo: usize, hi: usize, cls: CharClass) -> (r: bool)
    requires
        lo <= hi <= s@.len(),
    ensures
        r == all_in(slice_of(s@, lo as int, hi as int), cls),
{
    let ghost t = slice_of(s@, lo as int, hi as int);
    let mut i = lo;
    while i < hi
        invariant
            lo <= i <= hi <= s@.len(),
            t == slice_of(s@, lo as int, hi as int),
            forall|j: int| lo <= j < i ==> in_class(cls, #[trigger] s@[j]),
        decreases hi - i,
    {
        if !is_in_class(cls, s[i]) {
            assert(t[i - lo] == s@[i as int]);
            return false;
        }
        i += 1;
    }
    assert forall|j: int| 0 <= j < t.len() implies in_class(cls, #[trigger] t[j]) by {
        assert(t[j] == s@[lo + j]);
    }
    true
}

/// Whether some character of `s[lo..hi]` is of class `cls`.
pub fn any_in_range(s: &Vec<char>, lo: usize, hi: usize, cls: CharClass) -> (r: bool)
    requires
        lo <= hi <= s@.len(),
    ensures
        r == any_in(slice_of(s@, lo as int, hi as int), cls),
{
    let ghost t = slice_of(s@, lo as int, hi as int);
    match find_in(s, lo, hi, cls) {
        Some(_) => {
            assert(is_first_in(t, cls, choose|i: int| is_first_in(t, cls, i)));
            true
        },
        None => {
            assert(!any_in(t, cls)) by {
                if any_in(t, cls) {
                    let i = choose|i: int| 0 <= i < t.len() && in_class(cls, #[trigger] t[i]);
                    lemma_first_exists(t, cls, i);
                }
            }
            false
        },
    }
}

/// `find_first` gives the first position holding a character of the class.
pub proof fn lemma_find_first_is(s: Seq<char>, cls: CharClass, i: int)
    requires
        is_first_in(s, cls, i),
    ensures
        find_first(s, cls) == Some(i),
{
    let k = choose|k: int| is_first_in(s, cls, k);
    if k < i {
        assert(!in_class(cls, s[k]));
    } else if i < k {
        assert(!in_class(cls, s[i]));
    }
}

/// A position that `find_first` gives holds the first character of the
/// class.
pub proof fn lemma_find_first_some(s: Seq<char>, cls: CharClass)
    requires
        find_first(s, cls) is Some,
    ensures
        is_first_in(s, cls, find_first(s, cls)->0),
{
}

/// Where some character is of a class, a first such character exists.
pub proof fn lemma_first_exists(s: Seq<char>, cls: CharClass, i: int)
    requires
        0 <= i < s.len(),
        in_class(cls, s[i]),
    ensures
        exists|k: int| is_first_in(s, cls, k),
    decreases i,
{
    if forall|j: int| 0 <= j < i ==> !in_class(cls, #[trigger] s[j]) {
        assert(is_first_in(s, cls, i));
    } else {
        let j = choose|j: int| 0 <= j < i && in_class(cls, #[trigger] s[j]);
        lemma_first_exists(s, cls, j);
    }
}

/// The start of `trim_start(s[lo..hi], cls)` in `s`.
pub fn trim_start_in(s: &Vec<char>, lo: usize, hi: usize, cls: CharClass) -> (r: usize)
    requires
        lo <= hi <= s@.len(),
    ensures
        lo <= r <= hi,
        slice_of(s@, r as int, hi as int) == trim_start(slice_of(s@, lo as int, hi as int), cls),
{
    let mut i = lo;
    while i < hi && is_in_class(cls, s[i])
        invariant
            lo <= i <= hi <= s@.len(),
            trim_start(slice_of(s@, i as int, hi as int), cls) == trim_start(
                slice_of(s@, lo as int, hi as int),
                cls,
            ),
        decreases hi - i,
    {
        assert(slice_of(s@, i as int, hi as int).drop_first() =~= slice_of(s@, i + 1, hi as int));
        i += 1;
    }
    i
}

/// The end of `trim_end(s[lo..hi], cls)` in `s`.
pub fn trim_end_in(s: &Vec<char>, lo: usize, hi: usize, cls: CharClass) -> (r: usize)
    requires
        lo <= hi <= s@.len(),
    ensures
        lo <= r <= hi,
        slice_of(s@, lo as int, r as int) == trim_end(slice_of(s@, lo as int, hi as int), cls),
{
    let mut j = hi;
    while j > lo && is_in_class(cls, s[j - 1])
        invariant
            lo <= j <= hi <= s@.len(),
            trim_end(slice_of(s@, lo as int, j as int), cls) == trim_end(
                slice_of(s@, lo as int, hi as int),
                cls,
            ),
        decreases j - lo,
    {
        assert(slice_of(s@, lo as int, j as int).drop_last() =~= slice_of(s@, lo as int, j - 1));
        j -= 1;
    }
    j
}

/// The bounds of `trim_by(s[lo..hi], cls)` in `s`.
pub fn trim_by_in(s: &Vec<char>, lo: usize, hi: usize, cls: CharClass) -> (r: (usize, usize))
    requires
        lo <= hi <= s@.len(),
    ensures
        lo <= r.0 <= r.1 <= hi,
        slice_of(s@, r.0 as int, r.1 as int) == trim_by(slice_of(s@, lo as int, hi as int), cls),
{
    let a = trim_start_in(s, lo, hi, cls);
    let b = trim_end_in(s, a, hi, cls);
    (a, b)
}

/// The bounds of `trim(s[lo..hi])` in `s`.
pub fn trim_in(s: &Vec<char>, lo: usize, hi: usize) -> (r: (usize, usize))
    requires
        lo <= hi <= s@.len(),
    ensures
        lo <= r.0 <= r.1 <= hi,
        slice_of(s@, r.0 as int, r.1 as int) == trim(slice_of(s@, lo as int, hi as int)),
{
    trim_by_in(s, lo, hi, CharClass::Whitespace)
}

/// Whether `s[lo..hi]` starts with `p`.
pub fn has_prefix_in(s: &Vec<char>, lo: usize, hi: usize, p: &Vec<char>) -> (r: bool)
    requires
        lo <= hi <= s@.len(),
    ensures
        r == has_prefix(slice_of(s@, lo as int, hi as int), p@),
{
    let ghost t = slice_of(s@, lo as int, hi as int);
    if p.len() > hi - lo {
        return false;
    }
    let mut i: usize = 0;
    while i < p.len()
        invariant
            i <= p@.len() <= hi - lo,
            lo <= hi <= s@.len(),
            t == slice_of(s@, lo as int, hi as int),
            forall|j: int| 0 <= j < i ==> s@[lo + j] == p@[j],
        decreases p@.len() - i,
    {
        if s[lo + i] != p[i] {
            assert(t.take(p@.len() as int)[i as int] == s@[lo + i]);
            return false;
        }
        i += 1;
    }
    assert(t.take(p@.len() as int) =~= p@);
    true
}

/// Whether `s[lo..hi]` is exactly `p`.
pub fn equals_in(s: &Vec<char>, lo: usize, hi: usize, p: &Vec<char>) -> (r: bool)
    requires
        lo <= hi <= s@.len(),
    ensures
        r == (slice_of(s@, lo as int, hi as int) == p@),
{
    if p.len() != hi - lo {
        return false;
    }
    let r = has_prefix_in(s, lo, hi, p);
    proof {
        let t = slice_of(s@, lo as int, hi as int);
        assert(t.take(p@.len() as int) =~= t);
    }
    r
}

/// Whether `s[lo..hi]` starts with `c`.
pub fn starts_with_in(s: &Vec<char>, lo: usize, hi: usize, c: char) -> (r: bool)
    requires
        lo <= hi <= s@.len(),
    ensures
        r == starts_with_char(slice_of(s@, lo as int, hi as int), c),
{
    lo < hi && s[lo] == c
}

/// The bounds of `first_word(s[lo..hi], sep)` in `s`.
pub fn first_word_in(s: &Vec<char>, lo: usize, hi: usize, sep: CharClass) -> (r: Option<
    (usize, usize),
>)
    requires
        lo <= hi <= s@.len(),
    ensures
        match r {
            Some((a, b)) => lo <= a <= b <= hi && first_word(slice_of(s@, lo as int, hi as int), sep)
                == Some(slice_of(s@, a as int, b as int)),
            None => first_word(slice_of(s@, lo as int, hi as int), sep) is None,
        },
{
    let a = trim_start_in(s, lo, hi, sep);
    if a == hi {
        return None;
    }
    let ghost t = slice_of(s@, a as int, hi as int);
    match find_in(s, a, hi, sep) {
        Some(j) => {
            assert(t.take(j - a) =~= slice_of(s@, a as int, j as int));
            Some((a, j))
        },
        None => Some((a, hi)),
    }
}

/// Every range of `r` lies within a text of length `len`.
pub open spec fn ranges_ok(len: int, r: Seq<(usize, usize)>) -> bool {
    forall|i: int| 0 <= i < r.len() ==> #[trigger] r[i].0 <= r[i].1 && r[i].1 <= len
}

/// The texts that ranges of `s` cover.
pub open spec fn range_texts(s: Seq<char>, r: Seq<(usize, usize)>) -> Seq<Seq<char>> {
    Seq::new(r.len(), |i: int| s.subrange(r[i].0 as int, r[i].1 as int))
}

/// Splits `s` into lines; each line is given by its bounds in `s`.
pub fn line_ranges(s: &Vec<char>) -> (r: Vec<(usize, usize)>)
    ensures
        ranges_ok(s@.len() as int, r@),
        range_texts(s@, r@) == lines(s@),
{
    let mut out: Vec<(usize, usize)> = Vec::new();
    let mut start: usize = 0;
    let n = s.len();
    assert(s@.skip(0) =~= s@);
    while start < n
        invariant
            start <= n == s@.len(),
            ranges_ok(n as int, out@),
            range_texts(s@, out@) + lines(s@.skip(start as int)) == lines(s@),
        decreases n - start,
    {
        let ghost rest = s@.skip(start as int);
        assert(rest =~= slice_of(s@, start as int, n as int));
        match find_in(s, start, n, CharClass::Just('\n')) {
            Some(j) => {
                let end = if j > start && s[j - 1] == '\r' {
                    j - 1
                } else {
                    j
                };
                proof {
                    let k = j - start;
                    assert(rest.take(k) =~= slice_of(s@, start as int, j as int));
                    assert(strip_cr(rest.take(k)) =~= slice_of(s@, start as int, end as int));
                    assert(rest.skip(k + 1) =~= s@.skip(j + 1));
                    assert(lines(rest) == seq![slice_of(s@, start as int, end as int)] + lines(
                        s@.skip(j + 1),
                    ));
                }
                let ghost before = range_texts(s@, out@);
                out.push((start, end));
                proof {
                    assert(range_texts(s@, out@) =~= before.push(
                        slice_of(s@, start as int, end as int),
                    ));
                    assert(range_texts(s@, out@) + lines(s@.skip(j + 1)) =~= before + (seq![
                        slice_of(s@, start as int, end as int),
                    ] + lines(s@.skip(j + 1))));
                }
                start = j + 1;
            },
            None => {
                let ghost before = range_texts(s@, out@);
                out.push((start, n));
                proof {
                    assert(lines(rest) == seq![rest]);
                    assert(range_texts(s@, out@) =~= before.push(rest));
                    assert(s@.skip(n as int) =~= Seq::<char>::empty());
                    assert(lines(s@.skip(n as int)) =~= Seq::<Seq<char>>::empty());
                    assert(range_texts(s@, out@) + lines(s@.skip(n as int)) =~= before + seq![
                        rest,
                    ]);
                }
                start = n;
            },
        }
    }
    proof {
        assert(s@.skip(n as int) =~= Seq::<char>::empty());
        assert(lines(s@.skip(start as int)) =~= Seq::<Seq<char>>::empty());
        assert(range_texts(s@, out@) + lines(s@.skip(start as int)) =~= range_texts(s@, out@));
    }
    out
}

/// The UTF-8 length of `s[lo..hi]`.
pub fn utf8_len_in(s: &Vec<char>, lo: usize, hi: usize) -> (r: u128)
    requires
        lo <= hi <= s@.len(),
    ensures
        r == utf8_len(slice_of(s@, lo as int, hi as int)),
{
    let mut acc: u128 = 0;
    let mut i = lo;
    assert(slice_of(s@, lo as int, lo as int) =~= Seq::<char>::empty());
    while i < hi
        invariant
            lo <= i <= hi <= s@.len(),
            acc == utf8_len(slice_of(s@, lo as int, i as int)),
            acc <= 4 * (i - lo),
        decreases hi - i,
    {
        let u = s[i] as u32;
        let w: u128 = if u < 0x80 {
            1
        } else if u < 0x800 {
            2
        } else if u < 0x10000 {
            3
        } else {
            4
        };
        assert(slice_of(s@, lo as int, i + 1).drop_last() =~= slice_of(s@, lo as int, i as int));
        acc = acc + w;
        i += 1;
    }
    acc
}

/// The words of `s`, words being separated by runs of characters of
/// class `sep`.
pub fn words_of(s: &Vec<char>, sep: CharClass) -> (r: Vec<String>)
    ensures
        r@.map_values(|w: String| w@) == words(s@, sep),
{
    let n = s.len();
    let mut out: Vec<String> = Vec::new();
    let mut pos: usize = 0;
    assert(s@.skip(0) =~= s@);
    while pos < n
        invariant
            pos <= n == s@.len(),
            out@.map_values(|w: String| w@) + words(s@.skip(pos as int), sep) == words(s@, sep),
        decreases n - pos,
    {
        let ghost rest = s@.skip(pos as int);
        let ghost before = out@.map_values(|w: String| w@);
        assert(rest =~= slice_of(s@, pos as int, n as int));
        let a = trim_start_in(s, pos, n, sep);
        if a == n {
            assert(words(rest, sep) =~= Seq::<Seq<char>>::empty());
            assert(s@.skip(n as int) =~= Seq::<char>::empty());
            assert(before + words(s@.skip(n as int), sep) =~= before + words(rest, sep));
            pos = n;
        } else {
            let ghost t = slice_of(s@, a as int, n as int);
            match find_in(s, a, n, sep) {
                Some(j) => {
                    let w = string_of(s, a, j);
                    proof {
                        assert(t.take(j - a) =~= slice_of(s@, a as int, j as int));
                        assert(t.skip(j - a) =~= s@.skip(j as int));
                        assert(words(rest, sep) == seq![slice_of(s@, a as int, j as int)] + words(
                            s@.skip(j as int),
                            sep,
                        ));
                    }
                    out.push(w);
                    assert(out@.map_values(|w: String| w@) =~= before.push(
                        slice_of(s@, a as int, j as int),
                    ));
                    assert(out@.map_values(|w: String| w@) + words(s@.skip(j as int), sep) =~= before
                        + (seq![slice_of(s@, a as int, j as int)] + words(s@.skip(j as int), sep)));
                    pos = j;
                },
                None => {
                    let w = string_of(s, a, n);
                    proof {
                        assert(words(rest, sep) == seq![t]);
                        assert(s@.skip(n as int) =~= Seq::<char>::empty());
                        assert(words(s@.skip(n as int), sep) =~= Seq::<Seq<char>>::empty());
                    }
                    out.push(w);
                    assert(out@.map_values(|w: String| w@) =~= before.push(t));
                    assert(out@.map_values(|w: String| w@) + words(s@.skip(n as int), sep) =~= before
                        + seq![t]);
                    pos = n;
                },
            }
        }
    }
    proof {
        assert(s@.skip(n as int) =~= Seq::<char>::empty());
        assert(words(s@.skip(n as int), sep) =~= Seq::<Seq<char>>::empty());
        assert(out@.map_values(|w: String| w@) + words(s@.skip(n as int), sep) =~= out@.map_values(
            |w: String| w@,
        ));
    }
    out
}

} // verus!
