//! The parts of a CryptoBOM (Cryptographic Bill of Materials) that a
//! comparison reads: each component's rule id, name, priority, occurrences and
//! the number of distinct files it was found in.

use vstd::prelude::*;

verus! {

/// A per-file occurrence of a component.
#[derive(Debug, Clone, PartialEq)]
pub struct Occurrence {
    pub file: String,
    pub line: usize,
    pub excerpt: String,
    pub needle: String,
}

/// One cryptographic component aggregated across a whole scan.
#[derive(Debug, Clone)]
pub struct Component {
    /// Stable rule identifier, e.g. `rsa`.
    pub rule_id: String,
    /// Display name, e.g. `RSA`.
    pub name: String,
    /// Computed migration priority score (0-100).
    pub priority: u32,
    pub occurrences: Vec<Occurrence>,
    /// Number of distinct files this component appears in.
    pub file_count: usize,
}

/// A CryptoBOM, as far as a comparison reads it.
#[derive(Debug, Clone)]
pub struct CryptoBom {
    pub components: Vec<Component>,
}

} // verus!
