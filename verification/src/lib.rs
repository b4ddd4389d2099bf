//! Core of a dependency-freshness checker: it models a project's lockfile as
//! a dependency graph, walks that graph to a configurable depth, and decides,
//! for each visited package, whether newer semver-compatible or breaking
//! releases are published.

pub mod deps;
pub mod error;
pub mod graph;
pub mod lockfile;
pub mod resolver;
pub mod util;
pub mod version;
