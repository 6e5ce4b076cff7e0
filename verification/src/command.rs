//! Deciding whether a command line can be exec'd directly, skipping the
//! shell.
use vstd::prelude::*;
use crate::text::{
    any_in, any_in_range, first_word, first_word_in, slice_of, to_chars, words, words_of, CharClass,
};

verus! {

/// A command is safe to exec directly (skipping the shell) if it has no shell
/// metacharacters and no leading `VAR=value` assignment: its first
/// ASCII-whitespace-separated word exists and holds no `=`, and no character
/// of it is one of ``&|;<>$`"'(){}[]*?~!#\`` or a line break.
pub open spec fn simple_command(cmd: Seq<char>) -> bool {
    match first_word(cmd, CharClass::AsciiWhitespace) {
        Some(first) => !any_in(first, CharClass::Just('=')) && !any_in(cmd, CharClass::ShellMeta),
        None => false,
    }
}

/// Whether `cmd` can be exec'd directly, skipping the shell.
pub fn is_simple_command(cmd: &str) -> (r: bool)
    ensures
        r == simple_command(cmd@),
{
    let v = to_chars(cmd);
    let n = v.len();
    assert(slice_of(v@, 0, n as int) =~= cmd@);
    match first_word_in(&v, 0, n, CharClass::AsciiWhitespace) {
        Some((a, b)) => !any_in_range(&v, a, b, CharClass::Just('=')) && !any_in_range(
            &v,
            0,
            n,
            CharClass::ShellMeta,
        ),
        None => false,
    }
}

/// The words of a command line, split at runs of ASCII whitespace: the
/// program followed by its arguments, for exec'ing a simple command directly.
pub fn command_words(cmd: &str) -> (r: Vec<String>)
    ensures
        r@.map_values(|w: String| w@) == words(cmd@, CharClass::AsciiWhitespace),
{
    let v = to_chars(cmd);
    words_of(&v, CharClass::AsciiWhitespace)
}

/// A command that can be exec'd directly has a program to exec: its first
/// word, which holds no `=`.
pub proof fn lemma_simple_command_program(cmd: Seq<char>)
    requires
        simple_command(cmd),
    ensures
        words(cmd, CharClass::AsciiWhitespace).len() > 0,
        first_word(cmd, CharClass::AsciiWhitespace) == Some(
            words(cmd, CharClass::AsciiWhitespace)[0],
        ),
        !any_in(words(cmd, CharClass::AsciiWhitespace)[0], CharClass::Just('=')),
{
}

} // verus!
