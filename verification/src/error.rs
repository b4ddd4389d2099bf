use vstd::prelude::*;

verus! {

/// Failures of the dependency-checking core.
///
/// Structural failures (`LockfileParse`, `DanglingDependency`,
/// `UnknownPackage`) abort a run before any traversal; `InvalidVersion`
/// is fatal when it concerns a pinned version from the lockfile. A registry
/// query that cannot be completed is not an abort: it is collected per
/// package in `resolver::Report::failures` alongside the successful records.
#[derive(Debug)]
pub enum OutdatedError {
    /// A version string does not conform to the `major.minor.patch` grammar
    /// (with optional `-prerelease` and `+buildmetadata` suffixes).
    InvalidVersion,
    /// The lockfile text is structurally malformed, or records the same
    /// package name and version twice.
    LockfileParse,
    /// A dependency edge names a package and version absent from the
    /// lockfile's own entry set.
    DanglingDependency { name: Vec<u8> },
    /// A requested root package is absent from the dependency graph.
    UnknownPackage { name: Vec<u8> },
}

} // verus!
