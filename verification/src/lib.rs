//! quantumseal: the reports of a comparison between a CryptoBOM (Cryptographic
//! Bill of Materials) and a saved baseline, and the reading of the component
//! snapshots such a comparison works on, with the small JSON and text helpers
//! they need.
//!
//! The library reads names of cryptographic primitives only; it does not
//! implement or evaluate any cryptography.

pub mod cbom;
pub mod diff;
pub mod json;
pub mod text;
