//! Shell completion scripts. The scripts ask `nr --list-scripts` for the
//! script names of the nearest package.json.
use vstd::prelude::*;

verus! {

/// The bash completion script.
pub const BASH_COMPLETION: &'static str = r#"_nr_completions() {
    local cur="${COMP_WORDS[COMP_CWORD]}"
    if [ "$COMP_CWORD" -eq 1 ]; then
        local scripts
        scripts="$(nr --list-scripts 2>/dev/null)"
        COMPREPLY=($(compgen -W "$scripts" -- "$cur"))
    fi
}
complete -F _nr_completions nr"#;

/// The zsh completion script.
pub const ZSH_COMPLETION: &'static str = r#"#compdef nr

_nr() {
    local -a scripts
    scripts=(${(f)"$(nr --list-scripts 2>/dev/null)"})
    if (( CURRENT == 2 )); then
        _describe 'script' scripts
    fi
}

_nr "$@""#;

/// The fish completion script.
pub const FISH_COMPLETION: &'static str = r#"complete -c nr -f
complete -c nr -n '__fish_use_subcommand' -a '(nr --list-scripts 2>/dev/null)' -d 'npm script'"#;

/// The bash completion script.
pub fn generate_bash() -> (r: String)
    ensures
        r@ == BASH_COMPLETION@,
{
    String::from_str(BASH_COMPLETION)
}

/// The zsh completion script.
pub fn generate_zsh() -> (r: String)
    ensures
        r@ == ZSH_COMPLETION@,
{
    String::from_str(ZSH_COMPLETION)
}

/// The fish completion script.
pub fn generate_fish() -> (r: String)
    ensures
        r@ == FISH_COMPLETION@,
{
    String::from_str(FISH_COMPLETION)
}

/// The completion script for `shell` (`bash`, `zsh` or `fish`); `None` for
/// any other shell, which is not supported.
pub fn generate(shell: &str) -> (r: Option<String>)
    ensures
        shell@ == "bash"@ ==> (r matches Some(s) && s@ == BASH_COMPLETION@),
        shell@ == "zsh"@ ==> (r matches Some(s) && s@ == ZSH_COMPLETION@),
        shell@ == "fish"@ ==> (r matches Some(s) && s@ == FISH_COMPLETION@),
        r is None <==> (shell@ != "bash"@ && shell@ != "zsh"@ && shell@ != "fish"@),
{
    proof {
        reveal_strlit("bash");
        reveal_strlit("zsh");
        reveal_strlit("fish");
        assert("bash"@.len() == 4 && "zsh"@.len() == 3 && "fish"@.len() == 4);
        assert("bash"@[0] == 'b' && "fish"@[0] == 'f');
    }
    let s = String::from_str(shell);
    if s == String::from_str("bash") {
        Some(generate_bash())
    } else if s == String::from_str("zsh") {
        Some(generate_zsh())
    } else if s == String::from_str("fish") {
        Some(generate_fish())
    } else {
        None
    }
}

} // verus!
