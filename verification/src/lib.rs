//! Structural diff engine for semi-structured value trees.
//!
//! A [`value::Value`] is a closed tree of scalars, ordered sequences and keyed
//! mappings, as produced by plist/JSON-like formats.  [`diff::diff`] compares
//! two such trees and appends the structural changes between them — additions,
//! removals and modifications, addressed by dot-joined key paths — to a
//! [`diff::Recorder`] owned by the caller.

pub mod keys;
pub mod value;
pub mod diff;
pub mod laws;
