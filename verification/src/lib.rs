//! Groups catalog titles into franchises: maximal sets of titles connected by
//! qualifying relation edges.
//!
//! The library holds the whole franchise computation: the relation filter, the
//! undirected relation graph, the paginated closure computation that resolves
//! every related identifier, connected-component extraction, and the
//! deterministic ordering of the resulting franchise list. Network transport,
//! response decoding and rate limiting stay outside; they hand the library
//! plain records and take plain results back.

pub mod builder;
pub mod components;
pub mod date;
pub mod extract;
pub mod graph;
pub mod model;
pub mod ordering;
pub mod text;
