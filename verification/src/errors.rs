//! Error types of the library. Absence (a missing file, a missing key)
//! is never an error here; these cover the genuinely failing outcomes.

use vstd::prelude::*;

verus! {

/// Failure of a cache-manager operation.
#[derive(Debug, PartialEq, Eq, Structural)]
pub enum CacheError {
    /// The host environment gives no home directory to derive the cache
    /// directory from.
    HomeDirUnknown,
    /// A persisted cache file exists but does not parse as the expected
    /// shape.
    Malformed,
}

/// Failure of a template lookup: the name matched nothing, even after
/// the full fallback scan. Carries the original, unnormalized input.
#[derive(Debug)]
pub struct TemplateError {
    pub name: String,
}

} // verus!
