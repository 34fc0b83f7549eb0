//! Failures of the page-store layer.
use vstd::prelude::*;

verus! {

/// Why a page store or one of its pages is refused.
#[derive(Debug, Clone, PartialEq, Eq)]
pub enum Error {
    /// The store is shorter than one page.
    TooSmall {
        /// Size of the store in bytes.
        size: u64,
    },
    /// The store does not consist of whole pages.
    NotPageAligned {
        /// Size of the store in bytes.
        size: u64,
        /// Bytes of one page.
        page_size: usize,
    },
    /// The requested page lies after the end of the store.
    PageOutOfRange {
        /// Requested zero-based page.
        page: u64,
        /// Number of pages in the store.
        total: u64,
    },
    /// The superblock does not carry the expected magic.
    BadMagic {
        /// Magic found in page zero.
        got: Vec<u8>,
        /// Magic that was expected.
        want: Vec<u8>,
    },
}

} // verus!
