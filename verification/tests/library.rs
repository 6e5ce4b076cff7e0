use std::path::PathBuf;

use nr::command::{command_words, is_simple_command};
use nr::completions::{generate, generate_bash, generate_fish, generate_zsh};
use nr::makefile::parse_makefile;
use nr::npm::{parse_npm, PackageJson};
use nr::procfile::parse_procfile;
use nr::python::{parse_pipfile, parse_pyproject, parse_pyproject_in};
use nr::sources::{
    collect, detect_from, takes_venv_fast_path, truncate, DirFiles, RunSpec, SourceKind, Task,
};
use nr::taskfile::parse_taskfile;
use nr::toml::{section_header, table_keys, table_pairs, unquote};
use nr::justfile::parse_justfile;

fn names(tasks: &[Task]) -> Vec<&str> {
    tasks.iter().map(|t| t.name.as_str()).collect()
}

fn no_files() -> DirFiles {
    DirFiles {
        package_json: None,
        makefile: None,
        justfile: None,
        cargo_toml: false,
        pyproject: None,
        uv_lock: false,
        pipfile: None,
        procfile: None,
        taskfile: None,
    }
}

fn pkg(scripts: &[(&str, &str)]) -> Option<PackageJson> {
    Some(PackageJson {
        scripts: Some(
            scripts
                .iter()
                .map(|(n, c)| (n.to_string(), c.to_string()))
                .collect(),
        ),
    })
}

#[test]
fn npm_tasks_are_sorted_by_name() {
    let tasks = parse_npm(pkg(&[("test", "vitest run"), ("build", "tsc"), ("Z", "z")]));
    assert_eq!(names(&tasks), vec!["Z", "build", "test"]);
    assert_eq!(tasks[1].run, RunSpec::Shell("tsc".to_string()));
    assert_eq!(tasks[2].detail, "vitest run");
    assert_eq!(tasks[2].source, SourceKind::Npm);
}

#[test]
fn npm_without_document_or_scripts_is_empty() {
    assert!(parse_npm(None).is_empty());
    assert!(parse_npm(Some(PackageJson { scripts: None })).is_empty());
}

#[test]
fn truncate_trims_and_cuts_long_commands() {
    assert_eq!(truncate("  tsc -p .  "), "tsc -p .");
    let long = "x".repeat(70);
    let t = truncate(&long);
    assert_eq!(t.chars().count(), 64);
    assert!(t.ends_with('…'));
    assert_eq!(&t[..63], &long[..63]);
    let exact = "y".repeat(64);
    assert_eq!(truncate(&exact), exact);
}

#[test]
fn unquote_strips_one_pair_of_quotes() {
    assert_eq!(unquote(" \"a b\" "), "a b");
    assert_eq!(unquote("'x'"), "x");
    assert_eq!(unquote("\"x'"), "\"x'");
    assert_eq!(unquote("\""), "\"");
    assert_eq!(unquote("plain"), "plain");
}

#[test]
fn section_header_ignores_array_tables() {
    assert_eq!(section_header("[tool.pdm.scripts]"), Some("tool.pdm.scripts"));
    assert_eq!(section_header("[ scripts ]"), Some("scripts"));
    assert_eq!(section_header("[[source]]"), None);
    assert_eq!(section_header("[x"), None);
    assert_eq!(section_header("["), None);
    assert_eq!(section_header("[]"), Some(""));
}

#[test]
fn table_pairs_and_keys_read_one_table() {
    let toml = "[a]\nx = \"1\"\n# c = 3\n[a.sub]\ny = 2\n[a.'q'.deep]\n[b]\nz = 3\n[a]\nx = \"4\"\n";
    let pairs = table_pairs(toml, "a");
    assert_eq!(
        pairs,
        vec![
            ("x".to_string(), "1".to_string()),
            ("x".to_string(), "4".to_string())
        ]
    );
    assert_eq!(table_keys(toml, "a"), vec!["x", "sub", "q"]);
}

#[test]
fn pdm_last_inline_value_wins_and_tables_delegate() {
    let toml = "[tool.pdm.scripts]\nlint = \"ruff\"\nlint = \"ruff check\"\ncomp = {composite = [\"a\"]}\n[tool.taskipy.tasks]\nlint = \"other\"\nempty = \"\"\n";
    let tasks = parse_pyproject(toml);
    assert_eq!(names(&tasks), vec!["lint", "comp"]);
    assert_eq!(
        tasks[0].run,
        RunSpec::Venv {
            command: "ruff check".to_string(),
            required: None,
            fallback: vec!["pdm".to_string(), "run".to_string(), "lint".to_string()],
        }
    );
    assert_eq!(
        tasks[1].run,
        RunSpec::Exec(vec!["pdm".to_string(), "run".to_string(), "comp".to_string()])
    );
    assert_eq!(tasks[1].detail, "pdm script");
}

#[test]
fn pipfile_table_scripts_delegate() {
    let tasks = parse_pipfile("[scripts]\nweb = {cmd = \"x\"}\ntest = \"pytest\"\ntest = \"again\"\n");
    assert_eq!(names(&tasks), vec!["web", "test"]);
    assert_eq!(
        tasks[0].run,
        RunSpec::Exec(vec!["pipenv".to_string(), "run".to_string(), "web".to_string()])
    );
    assert_eq!(tasks[1].detail, "pytest");
}

#[test]
fn lines_accept_crlf_and_duplicates_keep_the_first() {
    let tasks = parse_procfile("web: a\r\nweb: b\r\nbad name: c\n: d\nw:\n");
    assert_eq!(names(&tasks), vec!["web"]);
    assert_eq!(tasks[0].run, RunSpec::Shell("a".to_string()));
    let mk = parse_makefile("a: b\r\n.hidden:\nx/y.z:\nv := 1\n a:\n");
    assert_eq!(names(&mk), vec!["a", "x/y.z"]);
}

#[test]
fn justfile_skips_directives_and_assignments() {
    let tasks = parse_justfile("alias b := build\nexport X := \"1\"\nmod foo\nimport 'x'\n@deploy env:\nbuild arg:\n");
    assert_eq!(names(&tasks), vec!["deploy", "build"]);
}

#[test]
fn taskfile_quotes_and_indentation() {
    let tf = "tasks:\n    \"a\":\n        cmds: [x]\n    'b:c':\n    # c:\n    - d:\nother:\n  e:\n";
    let tasks = parse_taskfile(tf);
    assert_eq!(names(&tasks), vec!["a", "b"]);
}

#[test]
fn simple_commands_skip_the_shell() {
    assert!(is_simple_command("vitest"));
    assert!(is_simple_command("  tsc -p ."));
    assert!(!is_simple_command("FOO=1 vitest"));
    assert!(!is_simple_command("a && b"));
    assert!(!is_simple_command("echo $HOME"));
    assert!(!is_simple_command("   "));
    assert!(is_simple_command("run --x=1"));
}

#[test]
fn completions_for_supported_shells() {
    assert_eq!(generate("bash"), Some(generate_bash()));
    assert_eq!(generate("zsh"), Some(generate_zsh()));
    assert_eq!(generate("fish"), Some(generate_fish()));
    assert_eq!(generate("tcsh"), None);
    assert!(generate_bash().ends_with("complete -F _nr_completions nr"));
    assert!(generate_zsh().starts_with("#compdef nr"));
}

#[test]
fn labels_name_the_manifests() {
    assert_eq!(SourceKind::Npm.label(), "package.json");
    assert_eq!(SourceKind::Taskfile.label(), "taskfile");
    assert_eq!(SourceKind::Make.label(), "makefile");
    assert_eq!(SourceKind::Cargo.label(), "cargo.toml");
    assert_eq!(SourceKind::Python.label(), "pyproject.toml");
}

#[test]
fn collect_orders_sources_by_precedence() {
    let mut files = no_files();
    files.package_json = Some(pkg(&[("test", "vitest")]));
    files.makefile = Some("test:\n\t./run\nlint:\n".to_string());
    files.cargo_toml = true;
    files.procfile = Some(String::new());
    let (manifests, tasks) = collect(files);
    assert_eq!(
        manifests,
        vec![SourceKind::Npm, SourceKind::Make, SourceKind::Cargo, SourceKind::Procfile]
    );
    assert_eq!(&names(&tasks)[..3], &["test", "test", "lint"]);
    assert_eq!(tasks.len(), 3 + 8);
}

#[test]
fn detect_from_takes_nearest_directory_with_a_manifest() {
    let mut inner = no_files();
    inner.pipfile = None;
    let mut mid = no_files();
    mid.package_json = Some(pkg(&[("start", "node .")]));
    mid.makefile = Some("deploy:\n\techo go\n".to_string());
    let mut root = no_files();
    root.cargo_toml = true;
    let detection = detect_from(vec![
        (PathBuf::from("/p/a/b"), inner),
        (PathBuf::from("/p/a"), mid),
        (PathBuf::from("/p"), root),
    ])
    .unwrap();
    assert_eq!(detection.dir, PathBuf::from("/p/a"));
    assert_eq!(detection.manifests, vec![SourceKind::Npm, SourceKind::Make]);
    assert_eq!(detection.find("start").unwrap().source, SourceKind::Npm);
    assert_eq!(detection.find("deploy").unwrap().source, SourceKind::Make);
    assert!(detection.find("build").is_none());
    assert!(detect_from(vec![(PathBuf::from("/"), no_files())]).is_none());
}

#[test]
fn npm_wins_name_conflict_in_find() {
    let mut files = no_files();
    files.package_json = Some(pkg(&[("test", "vitest")]));
    files.makefile = Some("test:\n\t./run\n".to_string());
    let detection = detect_from(vec![(PathBuf::from("/x"), files)]).unwrap();
    assert_eq!(detection.tasks.len(), 2);
    assert_eq!(detection.find("test").unwrap().source, SourceKind::Npm);
}

#[test]
fn uv_project_scripts_run_through_uv() {
    let toml = "[project]\nname = \"demo\"\n\n[project.scripts]\nserve = \"demo:main\"\n[tool.taskipy.tasks]\nserve = \"python x\"\n";
    assert_eq!(names(&parse_pyproject(toml)), vec!["serve"]);
    let with_uv = parse_pyproject_in(toml, true);
    assert_eq!(names(&with_uv), vec!["serve"]);
    assert_eq!(with_uv[0].run, RunSpec::Shell("python x".to_string()));
    let only_uv = parse_pyproject_in("[project.scripts]\ncli = \"demo:main\"\n", true);
    assert_eq!(
        only_uv[0].run,
        RunSpec::Exec(vec!["uv".to_string(), "run".to_string(), "cli".to_string()])
    );
    assert_eq!(only_uv[0].detail, "uv script");
    assert!(parse_pyproject_in("[project.scripts]\ncli = \"demo:main\"\n", false).is_empty());
    let mut files = no_files();
    files.pyproject = Some("[project.scripts]\ncli = \"x\"\n".to_string());
    files.uv_lock = true;
    let (manifests, tasks) = collect(files);
    assert_eq!(manifests, vec![SourceKind::Python]);
    assert_eq!(names(&tasks), vec!["cli"]);
}

#[test]
fn command_words_split_at_ascii_whitespace() {
    assert_eq!(command_words("  tsc  -p\t. "), vec!["tsc", "-p", "."]);
    assert!(command_words(" \n ").is_empty());
    assert_eq!(command_words("a\u{3000}b"), vec!["a\u{3000}b"]);
}

#[test]
fn task_names_are_sorted_and_unique() {
    let mut files = no_files();
    files.package_json = Some(pkg(&[("test", "vitest"), ("b", "x")]));
    files.makefile = Some("test:\nall:\nb:\n".to_string());
    let detection = detect_from(vec![(PathBuf::from("/x"), files)]).unwrap();
    assert_eq!(detection.task_names(), vec!["all", "b", "test"]);
}

#[test]
fn taskfile_indentation_counts_bytes() {
    let tf = "tasks:\n   a:\n\u{3000}b:\n  c:\n";
    assert_eq!(names(&parse_taskfile(tf)), vec!["a", "b"]);
}

#[test]
fn trim_uses_unicode_whitespace() {
    let tasks = parse_procfile("\u{3000}web:\u{a0}run it\u{2003}\n");
    assert_eq!(names(&tasks), vec!["web"]);
    assert_eq!(tasks[0].run, RunSpec::Shell("run it".to_string()));
}

#[test]
fn array_tables_end_the_current_table() {
    let toml = "[scripts]\na = 'x'\n[[source]]\nurl = 'y'\n";
    assert_eq!(table_pairs(toml, "scripts"), vec![("a".to_string(), "x".to_string())]);
    assert_eq!(table_keys(toml, "scripts"), vec!["a"]);
    let pipfile = "[scripts]\ntest = \"pytest\"\n[[source]]\nurl = \"https://pypi.org/simple\"\nverify_ssl = true\n";
    assert_eq!(names(&parse_pipfile(pipfile)), vec!["test"]);
    let pdm = "[tool.pdm.scripts]\nlint = \"ruff\"\n[[tool.pdm.source]]\nname = \"x\"\n";
    assert_eq!(names(&parse_pyproject(pdm)), vec!["lint"]);
}

#[test]
fn listing_groups_and_venv_choice() {
    let mut files = no_files();
    files.package_json = Some(pkg(&[("a", "x"), ("b", "y")]));
    files.makefile = Some("c:\n".to_string());
    let detection = detect_from(vec![(PathBuf::from("/x"), files)]).unwrap();
    let starts: Vec<bool> = (0..4).map(|i| detection.starts_group(i)).collect();
    assert_eq!(starts, vec![true, false, true, false]);
    assert!(takes_venv_fast_path(true, &None, false));
    assert!(!takes_venv_fast_path(false, &None, true));
    assert!(!takes_venv_fast_path(true, &Some("cli".to_string()), false));
    assert!(takes_venv_fast_path(true, &Some("cli".to_string()), true));
}
