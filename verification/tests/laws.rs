use nr::justfile::parse_justfile;
use nr::makefile::parse_makefile;
use nr::procfile::parse_procfile;
use nr::python::{parse_pipfile, parse_pyproject, parse_pyproject_in};
use nr::sources::{RunSpec, SourceKind, Task};
use nr::taskfile::parse_taskfile;
use nr::toml::table_keys;

fn names(tasks: &[Task]) -> Vec<&str> {
    tasks.iter().map(|t| t.name.as_str()).collect()
}

fn strings(words: &[&str]) -> Vec<String> {
    words.iter().map(|w| w.to_string()).collect()
}

#[test]
fn makefile_tasks_run_make_with_their_own_name() {
    let mf = "build: deps\n\tcc\n.PHONY: build\nVAR := 1\nbuild:\n# note: x\nsrc/app.o: app.c\n";
    let tasks = parse_makefile(mf);
    assert_eq!(names(&tasks), vec!["build", "src/app.o"]);
    for t in &tasks {
        assert_eq!(t.source, SourceKind::Make);
        assert_eq!(t.detail, "make target");
        assert_eq!(t.run, RunSpec::Exec(strings(&["make", t.name.as_str()])));
    }
}

#[test]
fn justfile_tasks_come_from_recipe_lines_only() {
    let jf = "set shell := [\"bash\"]\nversion := \"1\"\n# build: no\n  indented:\n@quiet:\nbuild arg: quiet\nbuild:\n";
    let tasks = parse_justfile(jf);
    assert_eq!(names(&tasks), vec!["quiet", "build"]);
    for t in &tasks {
        assert_eq!(t.source, SourceKind::Just);
        assert_eq!(t.detail, "just recipe");
        assert_eq!(t.run, RunSpec::Exec(strings(&["just", t.name.as_str()])));
    }
}

#[test]
fn procfile_first_definition_wins() {
    let pf = "web: ./serve --port 80\nworker:\nweb: ./other\n# jobs: no\nbad name: x\n";
    let tasks = parse_procfile(pf);
    assert_eq!(names(&tasks), vec!["web"]);
    assert_eq!(tasks[0].run, RunSpec::Shell("./serve --port 80".to_string()));
    assert_eq!(tasks[0].detail, "./serve --port 80");
    assert_eq!(tasks[0].source, SourceKind::Procfile);
}

#[test]
fn pipfile_one_task_per_distinct_key() {
    let pf = "[scripts]\ntest = \"pytest\"\nlint = \"ruff\"\ntest = \"pytest -x\"\n";
    let tasks = parse_pipfile(pf);
    assert_eq!(names(&tasks), vec!["test", "lint"]);
    assert_eq!(
        tasks[0].run,
        RunSpec::Venv {
            command: "pytest".to_string(),
            required: None,
            fallback: strings(&["pipenv", "run", "test"]),
        }
    );
    assert!(tasks.iter().all(|t| t.source == SourceKind::Pipenv));
}

#[test]
fn table_keys_are_distinct_and_non_empty() {
    let toml = "[tool.pdm.scripts]\nlint = \"ruff\"\n\"\" = \"x\"\nlint = \"again\"\n[tool.pdm.scripts.serve]\ncmd = \"x\"\n[tool.pdm.scripts.serve.env]\nA = \"1\"\n[tool.other]\nno = \"1\"\n";
    assert_eq!(table_keys(toml, "tool.pdm.scripts"), vec!["lint", "serve"]);
}

#[test]
fn taskfile_tasks_stand_at_the_first_key_indentation() {
    let tf = "version: '3'\nbuild:\n  cmds: []\ntasks:\n  # comment\n  build:\n    cmds:\n      - go build\n  test:\n    desc: run\nvars:\n  other: 1\n";
    let tasks = parse_taskfile(tf);
    assert_eq!(names(&tasks), vec!["build", "test"]);
    for t in &tasks {
        assert_eq!(t.source, SourceKind::Taskfile);
        assert_eq!(t.run, RunSpec::Exec(strings(&["task", t.name.as_str()])));
    }
}

#[test]
fn pyproject_precedence_between_tables() {
    let toml = "[tool.pdm.scripts]\ntest = \"pytest\"\n[tool.poetry.scripts]\ntest = \"demo:test\"\ncli = \"demo:main\"\n[tool.taskipy.tasks]\ncli = \"echo cli\"\nempty = \"\"\nfmt = \"black .\"\nfmt = \"isort .\"\n[project.scripts]\nempty = \"demo:empty\"\n";
    let tasks = parse_pyproject(toml);
    assert_eq!(names(&tasks), vec!["test", "cli", "fmt"]);
    assert_eq!(
        tasks[0].run,
        RunSpec::Venv {
            command: "pytest".to_string(),
            required: None,
            fallback: strings(&["pdm", "run", "test"]),
        }
    );
    assert_eq!(tasks[1].detail, "poetry script");
    assert_eq!(tasks[2].run, RunSpec::Shell("black .".to_string()));
    let uv = parse_pyproject_in(toml, true);
    assert_eq!(names(&uv), vec!["test", "cli", "fmt", "empty"]);
    assert_eq!(uv[3].run, RunSpec::Exec(strings(&["uv", "run", "empty"])));
}
