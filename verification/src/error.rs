//! The fatal errors of the build engine.

use vstd::prelude::*;
use vstd::string::*;

verus! {

/// Everything that is fatal at parse, graph-construction or execution time.
#[derive(Debug)]
pub enum BuildError {
    /// A path in the description is not absolute.
    PathNotAbsolute(String),
    /// A path in the description has a `.` or `..` component.
    PathNotCanonical(String),
    /// A file is declared as the output of more than one command.
    DuplicateOutput(String),
    /// The dependency graph has a cycle.
    CyclicGraph,
    /// A target names an output file that no command produces.
    NoProducer(String),
    /// A target names a file that no command consumes.
    NoConsumer(String),
    /// A target names a test that the description does not define.
    UnknownTest(String),
    /// A target string has an unknown kind.
    UnknownTargetKind(String),
    /// A command's argv is empty.
    EmptyCommand,
}

impl BuildError {
    /// A human-readable description of the error.
    pub fn message(&self) -> (r: String)
        ensures
            match self {
                BuildError::PathNotAbsolute(p) => r@ == "Path must be absolute: "@ + p@,
                BuildError::PathNotCanonical(p) => r@ == "Path must be canonical (no .. or .): "@
                    + p@,
                BuildError::DuplicateOutput(p) => r@ == "File '"@ + p@
                    + "' is specified as the output of more than one command."@,
                BuildError::CyclicGraph => r@ == "Build graph is cyclic"@,
                BuildError::NoProducer(p) => r@ == "No command generates output "@ + p@,
                BuildError::NoConsumer(p) => r@ == "No command uses file "@ + p@,
                BuildError::UnknownTest(t) => r@ == "Test "@ + t@ + " not found"@,
                BuildError::UnknownTargetKind(k) => r@ == "Unknown option: "@ + k@,
                BuildError::EmptyCommand => r@ == "Command is empty"@,
            },
    {
        match self {
            BuildError::PathNotAbsolute(p) => {
                let mut s = String::from_str("Path must be absolute: ");
                s.append(p.as_str());
                s
            }
            BuildError::PathNotCanonical(p) => {
                let mut s = String::from_str("Path must be canonical (no .. or .): ");
                s.append(p.as_str());
                s
            }
            BuildError::DuplicateOutput(p) => {
                let mut s = String::from_str("File '");
                s.append(p.as_str());
                s.append("' is specified as the output of more than one command.");
                s
            }
            BuildError::CyclicGraph => String::from_str("Build graph is cyclic"),
            BuildError::NoProducer(p) => {
                let mut s = String::from_str("No command generates output ");
                s.append(p.as_str());
                s
            }
            BuildError::NoConsumer(p) => {
                let mut s = String::from_str("No command uses file ");
                s.append(p.as_str());
                s
            }
            BuildError::UnknownTest(t) => {
                let mut s = String::from_str("Test ");
                s.append(t.as_str());
                s.append(" not found");
                s
            }
            BuildError::UnknownTargetKind(k) => {
                let mut s = String::from_str("Unknown option: ");
                s.append(k.as_str());
                s
            }
            BuildError::EmptyCommand => String::from_str("Command is empty"),
        }
    }
}

} // verus!
