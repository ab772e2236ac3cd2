//! Environment materialization and shim dispatch for per-directory
//! activation files.
//!
//! An activation file is run once in a shell; the variables that it changed
//! are cached as a diff against the ambient environment. Shims on the search
//! path replay the diff for the commands they stand for.
//!
//! The library holds the rules: the diff protocol, the cache format, the
//! snapshot and its diff, the layout of the tool's home, the amended search
//! path of a shim and the detector of commands without a shim. Reading the
//! file system, starting processes and talking to the terminal are left to
//! the program around it, which hands the library plain values.

pub mod bytes;
pub mod cache;
pub mod context;
pub mod dispatch;
pub mod env;
pub mod error;
pub mod grid;
pub mod install;
pub mod materialize;
pub mod names;
pub mod protocol;
pub mod settings;
pub mod shims;
pub mod signals;
