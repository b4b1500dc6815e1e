//! A client-side model of a distributed object store with a local sparse
//! cache.  Objects live in named buckets under path-like keys; a handle to an
//! object moves through a two-state lifecycle (writable, then sealed), byte
//! ranges are staged in a budgeted local cache with sparse zero-fill
//! semantics, and bulk operations (list, rename, copy, delete) act on every
//! key sharing a prefix, with directory markers simulating a hierarchy over
//! the flat key space.

pub mod bytes;
pub mod config;
pub mod errors;
pub mod client;
pub mod model;
pub mod status;
pub mod text;
