//! Conversion core for turning registry package metadata into the inputs of a
//! downstream OS packaging system.
//!
//! Two verified subsystems live here: the feature dependency graph resolver
//! (building a closure-complete feature table and synthesizing provides
//! equivalences) and the pure planning half of the source archive extractor
//! (path filtering, traversal safety, layout checks and manifest
//! canonicalization decisions). Feature names, package names and archive
//! paths are kept as raw bytes throughout.

pub mod bytes;
pub mod closure;
pub mod deps;
pub mod errors;
pub mod extract;
pub mod provides;
pub mod table;
