//! Core logic of a distributed breadth-first web crawler backed by a graph
//! store: URL normalization, link extraction, DNS candidate construction,
//! the job-claiming protocol, the crawl lifecycle, and the aggregations the
//! manager serves. All state-changing operations work on an in-memory graph
//! model whose invariants are machine-checked; the unverified binaries drive
//! the same operations against the real store.

pub mod config;
pub mod dns;
pub mod error;
pub mod extract;
pub mod feeder;
pub mod graphdata;
pub mod lifecycle;
pub mod manager;
pub mod normalize;
pub mod store;
pub mod text;

pub use normalize::normalize_url;
