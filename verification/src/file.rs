//! File serving settings.

use vstd::prelude::*;

verus! {

/// Settings for loading files from the file system and sending them to a
/// client in chunks.
pub struct Loader {
    /// The size, in bytes, of the file chunks.
    pub chunk_size: usize,
}

impl Loader {
    /// Creates a loader with the default chunk size of one megabyte.
    pub fn new() -> (loader: Loader)
        ensures
            loader.chunk_size == 1048576,
    {
        Loader { chunk_size: 1048576 }
    }
}

} // verus!
