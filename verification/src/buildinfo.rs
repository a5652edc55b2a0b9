//! Schema types for the build description: passive records describing build
//! commands, tests, and the sandboxed directories.

use vstd::prelude::*;

verus! {

/// A build command.  All paths are absolute and canonical.
pub struct BuildCommand {
    /// Command to run; token 0 is the executable.  Must be non-empty.
    pub command: Vec<String>,
    /// All files it reads inside the sandboxed dirs.
    pub inputs: Vec<String>,
    /// All files it writes inside the sandboxed dirs (it can also read these).
    pub outputs: Vec<String>,
    /// The working directory.
    pub working_dir: String,
    /// Environment variables, layered over the ambient environment.
    pub env: Vec<(String, String)>,
}

/// A test command.  Like a build command but with no outputs: tests are
/// always considered stale.
pub struct TestCommand {
    /// Command to run; token 0 is the executable.  Must be non-empty.
    pub command: Vec<String>,
    /// All files it reads inside the sandboxed dirs.
    pub inputs: Vec<String>,
    /// The working directory.
    pub working_dir: String,
    /// Environment variables, layered over the ambient environment.
    pub env: Vec<(String, String)>,
}

/// The build description: the input document of the engine.
pub struct BuildInfo {
    /// Commands, in description order; these become the build nodes.
    pub commands: Vec<BuildCommand>,
    /// Tests, keyed by test name.  The order of this list is the stable test
    /// ordering that assigns test-node indices.
    pub tests: Vec<(String, TestCommand)>,
    /// Directories inside which every read and write must be declared.
    pub sandboxed_dirs: Vec<String>,
}

} // verus!
