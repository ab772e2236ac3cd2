//! The settings that the tool reads from the environment.

use vstd::prelude::*;

verus! {

/// The name under which the tool itself is installed.
pub const TOOL_NAME: &'static str = "quickenv";

/// Overrides the tool's home directory.
pub const QUICKENV_HOME: &'static str = "QUICKENV_HOME";

/// The user's home directory, below which the tool's home is by default.
pub const HOME: &'static str = "HOME";

/// Overrides the prelude of the activation script.
pub const QUICKENV_PRELUDE: &'static str = "QUICKENV_PRELUDE";

/// Set to `1`, makes a shim replace its process by the command instead of
/// running it as a child.
pub const QUICKENV_SHIM_EXEC: &'static str = "QUICKENV_SHIM_EXEC";

/// Set to `1`, makes shims run their commands without the cached
/// variables. The activation script runs with it set, so that a shimmed
/// command in the script does not see the diff of an earlier run.
pub const QUICKENV_NO_SHIM: &'static str = "QUICKENV_NO_SHIM";

/// Set to `1`, silences the advisory on commands without a shim.
pub const QUICKENV_NO_SHIM_WARNINGS: &'static str = "QUICKENV_NO_SHIM_WARNINGS";

/// Overrides the verbosity of the log.
pub const QUICKENV_LOG: &'static str = "QUICKENV_LOG";

/// The variable that holds the search path.
pub const PATH: &'static str = "PATH";

/// The exit code of the tool after a failure of its own.
pub const FAILURE_EXIT_CODE: i32 = 1;

/// The shell that runs the activation script.
pub const SHELL: &'static str = "bash";

} // verus!
