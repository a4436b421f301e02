//! A local, queryable catalogue of installable software packages.
//!
//! The crate keeps per-scope collection metadata fresh (staleness checks,
//! collection-file rewriting, icon mirroring plans) and maintains an
//! in-memory package index with lookup by id, by category and by recency.
//! All file, network and package-source traffic is left to the caller;
//! the library computes every decision and transformation over plain data.

pub mod backend;
pub mod category;
pub mod client;
pub mod component;
pub mod package;
pub mod recent;
pub mod utils;
pub mod versions;
