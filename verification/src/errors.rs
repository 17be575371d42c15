//! Error kinds shared by the feature graph resolver and the archive
//! extraction planner. Every payload is a raw byte string (a feature name, a
//! package name or an archive path) so callers can show it to the user.

use vstd::prelude::*;

verus! {

#[derive(Debug)]
pub enum Error {
    /// A feature edge names a package that is not among the package's
    /// (non-development) dependencies, or a feature that the table lacks.
    UnresolvedFeatureDependency(Vec<u8>),
    /// A feature directly or indirectly references itself.
    CyclicFeatureGraph(Vec<u8>),
    /// Paths of disallowed file types, gathered over the whole archive.
    SuspiciousContent(Vec<Vec<u8>>),
    /// A single archive entry whose path would escape the staging root.
    PathTraversal(Vec<u8>),
    /// The archive does not unpack to exactly one top-level directory.
    MalformedArchiveLayout,
    /// Reading or writing the manifest failed; the payload carries the
    /// destination path so the user knows what to delete and retry.
    ManifestIoFailure(Vec<u8>),
}

} // verus!
