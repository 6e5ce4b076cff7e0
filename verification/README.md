# nr

A task runner's discovery logic, verified with Verus. From the nearest
directory holding a recognised manifest (package.json, Makefile, justfile,
Cargo.toml, pyproject.toml with or without uv.lock, Pipfile, Procfile,
Taskfile) it gathers every runnable task and how to run it.

Layout:

- `src/text.rs`: characters, trimming, searching and line splitting, each with
  a definition over `Seq<char>`.
- `src/makefile.rs`, `src/justfile.rs`, `src/procfile.rs`, `src/taskfile.rs`,
  `src/toml.rs`, `src/python.rs`, `src/npm.rs`, `src/cargo.rs`: one reader per
  manifest kind, each proved equal to its definition.
- `src/sources.rs`: tasks, merging a directory's manifests, finding a task,
  and picking the nearest directory.
- `src/command.rs`, `src/completions.rs`: direct-exec decisions and shell
  completion scripts.
- `app/`: the `nr` program: file reading, JSON decoding, process execution.
