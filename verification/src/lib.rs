//! A light routing library with REST-like features. The heart of the crate is
//! a tree router: it stores request handlers under an HTTP method and a path
//! pattern, where a pattern is built from literal segments (`"path/to/item"`),
//! variable segments (`"users/:group/:user"`) and wildcards (`"path/*/item"`),
//! and answers lookups with the stored handler and the text captured by each
//! variable segment.

use vstd::prelude::*;

pub mod file;
pub mod laws;
pub mod method;
pub mod params;
pub mod query;
pub mod response;
pub mod router;
pub mod segment;
pub mod tree;

verus! {

/// The protocol a server speaks.
pub enum Scheme {
    /// Standard HTTP.
    Http,
}

} // verus!
