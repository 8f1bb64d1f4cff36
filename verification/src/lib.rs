//! Similar-artist discovery trees built from the Last.fm API.
//!
//! The crate assembles bounded-depth directed graphs of similar artists,
//! with integer similarity weights, backed by a cache of previously fetched
//! similarity pairs, so that repeated requests for the same artist issue no
//! redundant network calls.
//!
//! The core is split along the only suspension point it has — the network:
//! [`store::Store`] holds the cache and decides, per artist, between a
//! cached answer and a fetch; [`tree::TreeBuilder`] assembles the graph
//! level by level and pauses whenever a fetch is needed; the caller
//! performs the fetch and hands the payload back. Everything that decides
//! or computes is verified; only the transport stays outside.

pub mod charts;
pub mod error;
pub mod lastfm;
pub mod simmap;
pub mod store;
pub mod tree;
pub mod utils;
