//! Core of a hermetic, dependency-tracking build driver.
//!
//! Given a declarative description of build and test commands together with
//! the files each one reads and writes, this library constructs a directed
//! acyclic dependency graph, selects the subset of commands implied by a set
//! of requested targets, and yields them in a dependency-respecting order,
//! deciding per command whether it must re-run by comparing modification
//! times.  Running child processes, reading the filesystem and parsing the
//! description document are left to the surrounding program.

pub mod buildinfo;
pub mod counting;
pub mod cycle;
pub mod dag;
pub mod dag_walker;
pub mod error;
pub mod paths;
pub mod deno;
pub mod resolve;
pub mod sandbox;
pub mod schedule;
pub mod target;
pub mod uptodate;
