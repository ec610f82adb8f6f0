//! What can go wrong when memory is reserved, bound or found.

use crate::page_key::PageKey;
use vstd::prelude::*;

verus! {

#[derive(Clone, Copy, Debug, PartialEq, Eq, Structural)]
pub enum IoError {
    /// The buffer is larger than what can be allocated.
    BufferTooBig {
        /// The size of the buffer in bytes.
        size: u64,
    },
    /// There is no memory where it was looked for.
    NotFound {
        /// The page that was named.
        page: PageKey,
    },
}

/// The error for a key that names no page of a pool.
pub fn page_not_found(key: PageKey) -> (error: IoError)
    ensures
        error == (IoError::NotFound { page: key }),
{
    IoError::NotFound { page: key }
}

} // verus!
