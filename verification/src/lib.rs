//! A persistent path-indexed tree that records which filesystem entries a
//! declarative configuration tool created, so that later runs can tell which
//! of them are still declared and which must be torn down.

pub mod laws;
pub mod model;
pub mod status;
pub mod tree;

pub use status::EtcFileStatus;
