use std::collections::HashMap;

use nr::cargo::cargo_tasks;
use nr::justfile::parse_justfile;
use nr::makefile::parse_makefile;
use nr::npm::{parse_npm, PackageJson};
use nr::procfile::parse_procfile;
use nr::python::{parse_pipfile, parse_pyproject};
use nr::sources::{RunSpec, SourceKind, Task};
use nr::taskfile::parse_taskfile;

fn names(tasks: &[Task]) -> Vec<&str> {
    tasks.iter().map(|t| t.name.as_str()).collect()
}

/// Decodes a package.json document as the program does: an object whose
/// `scripts`, if present and not null, is an object of strings; any other
/// document is not valid.
fn parse_npm_json(json: &str) -> Vec<Task> {
    let pkg = serde_json::from_str::<serde_json::Map<String, serde_json::Value>>(json)
        .ok()
        .and_then(|doc| match doc.get("scripts") {
            None | Some(serde_json::Value::Null) => Some(PackageJson { scripts: None }),
            Some(v) => serde_json::from_value::<HashMap<String, String>>(v.clone())
                .ok()
                .map(|m| PackageJson {
                    scripts: Some(m.into_iter().collect()),
                }),
        });
    parse_npm(pkg)
}

#[test]
fn npm_scripts_sorted_with_command_preview() {
    let json = r#"{"scripts":{"build":"tsc","test":"vitest run"}}"#;
    let tasks = parse_npm_json(json);
    assert_eq!(names(&tasks), vec!["build", "test"]);
    assert_eq!(tasks[0].run, RunSpec::Shell("tsc".to_string()));
    assert_eq!(tasks[1].detail, "vitest run");
}

#[test]
fn npm_missing_scripts_is_empty_not_error() {
    assert!(parse_npm_json(r#"{"name":"x"}"#).is_empty());
    assert!(parse_npm_json("not json").is_empty());
}

#[test]
fn makefile_targets_skip_assignments_and_specials() {
    let mk = "\
CC := gcc
.PHONY: build test
build: deps
\tcc -o out
test:
\t./out
%.o: %.c
\tcc -c $<
deploy-prod:
\techo go
";
    let tasks = parse_makefile(mk);
    assert_eq!(names(&tasks), vec!["build", "test", "deploy-prod"]);
    assert_eq!(
        tasks[0].run,
        RunSpec::Exec(vec!["make".to_string(), "build".to_string()])
    );
}

#[test]
fn justfile_recipes_skip_vars_and_settings() {
    let jf = "\
set shell := [\"bash\", \"-c\"]
version := \"1.0\"
# a comment
build:
    cargo build
test target=\"all\":
    cargo test
@quiet:
    echo hi
";
    let tasks = parse_justfile(jf);
    assert_eq!(names(&tasks), vec!["build", "test", "quiet"]);
    assert_eq!(
        tasks[1].run,
        RunSpec::Exec(vec!["just".to_string(), "test".to_string()])
    );
}

#[test]
fn cargo_exposes_conventional_commands() {
    let tasks = cargo_tasks();
    assert!(names(&tasks).contains(&"build"));
    assert!(names(&tasks).contains(&"clippy"));
    let build = tasks.iter().find(|t| t.name == "build").unwrap();
    assert_eq!(
        build.run,
        RunSpec::Exec(vec!["cargo".to_string(), "build".to_string()])
    );
}

#[test]
fn pyproject_pdm_poetry_and_taskipy() {
    let toml = "\
[project]
name = \"demo\"

[tool.pdm.scripts]
lint = \"ruff check .\"

[tool.pdm.scripts.serve]
cmd = \"uvicorn app:main\"

[tool.poetry.scripts]
mycli = \"demo.cli:main\"

[tool.taskipy.tasks]
fmt = \"black .\"
";
    let tasks = parse_pyproject(toml);
    let n = names(&tasks);
    assert!(n.contains(&"lint"), "pdm inline: {n:?}");
    assert!(n.contains(&"serve"), "pdm subtable: {n:?}");
    assert!(n.contains(&"mycli"), "poetry: {n:?}");
    assert!(n.contains(&"fmt"), "taskipy: {n:?}");

    // Inline pdm command -> run in the venv directly, fall back to `pdm run`.
    let lint = tasks.iter().find(|t| t.name == "lint").unwrap();
    assert_eq!(
        lint.run,
        RunSpec::Venv {
            command: "ruff check .".to_string(),
            required: None,
            fallback: vec!["pdm".to_string(), "run".to_string(), "lint".to_string()],
        }
    );
    // Sub-table pdm script keeps pdm semantics -> delegate.
    let serve = tasks.iter().find(|t| t.name == "serve").unwrap();
    assert_eq!(
        serve.run,
        RunSpec::Exec(vec![
            "pdm".to_string(),
            "run".to_string(),
            "serve".to_string()
        ])
    );
    // poetry console script -> exec `<venv>/bin/mycli`, fall back to poetry.
    let mycli = tasks.iter().find(|t| t.name == "mycli").unwrap();
    assert_eq!(
        mycli.run,
        RunSpec::Venv {
            command: "mycli".to_string(),
            required: Some("mycli".to_string()),
            fallback: vec!["poetry".to_string(), "run".to_string(), "mycli".to_string()],
        }
    );
    // taskipy stays a plain shell command.
    let fmt = tasks.iter().find(|t| t.name == "fmt").unwrap();
    assert_eq!(fmt.run, RunSpec::Shell("black .".to_string()));
}

#[test]
fn pipfile_scripts() {
    let pipfile = "\
[[source]]
url = \"https://pypi.org/simple\"

[packages]
flask = \"*\"

[scripts]
test = \"pytest -q\"
serve = \"flask run\"
";
    let tasks = parse_pipfile(pipfile);
    assert_eq!(names(&tasks), vec!["test", "serve"]);
    assert_eq!(
        tasks[0].run,
        RunSpec::Venv {
            command: "pytest -q".to_string(),
            required: None,
            fallback: vec!["pipenv".to_string(), "run".to_string(), "test".to_string()],
        }
    );
    assert_eq!(tasks[0].source, SourceKind::Pipenv);
}

#[test]
fn procfile_processes() {
    let pf = "\
# comment
web: bundle exec puma -C config/puma.rb
worker: bundle exec sidekiq
";
    let tasks = parse_procfile(pf);
    assert_eq!(names(&tasks), vec!["web", "worker"]);
    assert_eq!(
        tasks[0].run,
        RunSpec::Shell("bundle exec puma -C config/puma.rb".to_string())
    );
}

#[test]
fn taskfile_top_level_tasks_only() {
    let tf = "\
version: '3'

vars:
  GREETING: Hello

tasks:
  build:
    cmds:
      - go build
  test:
    desc: run tests
    cmds:
      - go test ./...
  lint:
    cmd: golangci-lint run
";
    let tasks = parse_taskfile(tf);
    assert_eq!(names(&tasks), vec!["build", "test", "lint"]);
    assert_eq!(
        tasks[0].run,
        RunSpec::Exec(vec!["task".to_string(), "build".to_string()])
    );
}

