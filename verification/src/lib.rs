//! Verified core of a directory-to-object-store synchronizer.
//!
//! The library enumerates a local tree and a remote listing into
//! fingerprinted file sets, diffs them into a queue of sync operations,
//! and provides the pure pieces of the execution path (key resolution,
//! content-type lookup). All I/O stays with the caller.

pub mod content_type;
pub mod local;
pub mod location;
pub mod remote;
pub mod sync;
pub mod text;
