//! The conventional cargo commands a Rust project can run. Cargo.toml is not
//! read beyond confirming that it exists; `nr build` simply maps to
//! `cargo build`.
use vstd::prelude::*;
use crate::sources::{names_distinct, strings2, tasks_view, RunSpec, RunView, SourceKind, Task, TaskView};

verus! {

/// The conventional cargo commands, in listing order.
pub open spec fn cargo_commands() -> Seq<Seq<char>> {
    seq!["build"@, "run"@, "test"@, "check"@, "clippy"@, "fmt"@, "bench"@, "doc"@]
}

/// The task that runs `cargo <command>`.
pub open spec fn cargo_task(command: Seq<char>) -> TaskView {
    TaskView {
        name: command,
        detail: "cargo "@ + command,
        source: SourceKind::Cargo,
        run: RunView::Exec(seq!["cargo"@, command]),
    }
}

/// No cargo command is listed twice.
pub proof fn lemma_cargo_commands_distinct()
    ensures
        names_distinct(cargo_task_list()),
{
    reveal_strlit("build");
    reveal_strlit("run");
    reveal_strlit("test");
    reveal_strlit("check");
    reveal_strlit("clippy");
    reveal_strlit("fmt");
    reveal_strlit("bench");
    reveal_strlit("doc");
    let c = cargo_commands();
    assert forall|i: int, j: int| 0 <= i < j < c.len() implies c[i] != c[j] by {
        assert(c[i].len() > 1 && c[j].len() > 1);
        if c[i].len() == c[j].len() {
            assert(c[i][0] != c[j][0] || c[i][1] != c[j][1]);
        }
    }
}

/// The tasks of a Cargo project.
pub open spec fn cargo_task_list() -> Seq<TaskView> {
    cargo_commands().map_values(|c: Seq<char>| cargo_task(c))
}

/// The conventional cargo commands a Rust project can run.
pub fn cargo_tasks() -> (r: Vec<Task>)
    ensures
        tasks_view(r@) == cargo_task_list(),
        names_distinct(tasks_view(r@)),
{
    proof {
        lemma_cargo_commands_distinct();
    }
    let cmds: [&str; 8] = ["build", "run", "test", "check", "clippy", "fmt", "bench", "doc"];
    let ghost want = cargo_task_list();
    assert(cmds@.map_values(|c: &str| c@) =~= cargo_commands());
    let mut out: Vec<Task> = Vec::new();
    let mut i: usize = 0;
    while i < 8
        invariant
            i <= 8,
            want == cargo_task_list(),
            cmds@.map_values(|c: &str| c@) == cargo_commands(),
            tasks_view(out@) == want.take(i as int),
        decreases 8 - i,
    {
        let c = cmds[i];
        assert(c@ == cargo_commands()[i as int]);
        let t = Task {
            name: String::from_str(c),
            detail: String::from_str("cargo ").concat(c),
            source: SourceKind::Cargo,
            run: RunSpec::Exec(strings2(String::from_str("cargo"), String::from_str(c))),
        };
        assert(t@ == want[i as int]);
        let ghost before = tasks_view(out@);
        let ghost tv = t@;
        out.push(t);
        assert(tasks_view(out@) =~= before.push(tv));
        assert(want.take(i + 1) =~= want.take(i as int).push(want[i as int]));
        i += 1;
    }
    assert(want.take(8) =~= want);
    out
}

} // verus!
