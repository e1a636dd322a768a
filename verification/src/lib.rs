//! `stale` runs or skips a command depending on whether the files it
//! watches have changed since the command last succeeded.  This library
//! holds its logic: expanding glob patterns into a sorted file list, the
//! combined SHA-256 hash of files and extra strings, the names and the text
//! of the `.sum` file that stores hashes and where that file goes, package
//! version lookup in `package.json` and `uv.lock`, and the decisions of a
//! run.
pub mod digest;
pub mod discovery;
pub mod guard;
pub mod order;
pub mod paths;
pub mod pkg;
pub mod sort;
pub mod sumfile;
pub mod text;

pub use digest::{compute_hash, compute_hash_verbose, derive_name, FileInput};
pub use discovery::git_root_level;
pub use guard::{finish_run, plan_exit_code, plan_run, RunPlan};
pub use paths::{expand_globs, select_files, sort_unique_paths, GlobFailure};
pub use pkg::{
    manifest_file, npm_version_in, parse_pkg_query, resolve_pkg_version, uv_version_in,
    JsonDocument, Leaf, PkgError, PkgManager, PkgQuery, Record, TomlDocument, TomlMember,
};
pub use sumfile::{load_sum_entry, save_sum_entry};
