//! A minimal generic persistence layer: values are encoded to compact JSON
//! text and stored at a per-type file location under a base directory.
//!
//! The crate is organized around three capabilities:
//! - `json`: a verified JSON codec for structural [`json::Value`]s;
//! - `storage`: path resolution from type-level names, and a store model
//!   with verified `save`/`load` composition.

use vstd::prelude::*;

pub mod json;
pub mod storage;

verus! {

} // verus!
