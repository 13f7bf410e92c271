//! Core of a concurrent breadth-first web crawler: URL normalization, a
//! domain-inclusion policy, exactly-once admission of URLs, a FIFO frontier,
//! and quiescence-based termination detection for a pool of fetch workers.
//!
//! Fetching pages and running worker threads is left to the surrounding
//! program; this library holds every decision the crawl makes.

pub mod crawl;
pub mod extract;
pub mod frontier;
pub mod policy;
pub mod urls;
pub mod visited;
