//! Task discovery across the manifests a project might use.
pub mod cargo;
pub mod command;
pub mod completions;
pub mod justfile;
pub mod makefile;
pub mod npm;
pub mod procfile;
pub mod python;
pub mod sources;
pub mod taskfile;
pub mod text;
pub mod toml;
