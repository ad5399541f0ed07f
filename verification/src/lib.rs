use vstd::prelude::*;

pub mod fsmodel;
pub mod manifest;
pub mod registry;
pub mod resolve;
pub mod strutil;
pub mod utils;

verus! {

/// Errors reported by the library's fallible operations.
///
/// `MalformedManifestEntry` replaces the panics that a manifest with a
/// non-table top-level value, a non-boolean `instance` flag, or a
/// non-string nested reference would otherwise cause; `key` names the
/// offending manifest key. `MissingHomeDirectory` is returned when no
/// home directory can be determined for the default registry path.
#[derive(Debug, PartialEq)]
pub enum LinkerError {
    MalformedManifestEntry { key: String },
    MissingHomeDirectory,
}

} // verus!
