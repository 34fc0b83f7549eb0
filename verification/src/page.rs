//! Pages of a page store.
use vstd::prelude::*;

verus! {

/// Bytes of one page.
pub const PAGE_SIZE: usize = 4096;

/// One page borrowed from a page store.
#[derive(Debug, Clone, Copy)]
pub struct Page<'a> {
    index: u64,
    bytes: &'a [u8],
}

/// What a page says.
#[verifier::ext_equal]
pub ghost struct PageView {
    /// Zero-based position in the store.
    pub index: int,
    /// The page's bytes.
    pub bytes: Seq<u8>,
}

impl<'a> View for Page<'a> {
    type V = PageView;

    closed spec fn view(&self) -> PageView {
        PageView { index: self.index as int, bytes: self.bytes@ }
    }
}

impl<'a> Page<'a> {
    #[verifier::type_invariant]
    spec fn well_formed(self) -> bool {
        self.bytes@.len() == PAGE_SIZE
    }

    /// Wrap the bytes of one page.
    pub fn from_bytes(index: u64, bytes: &'a [u8]) -> (page: Self)
        requires
            bytes@.len() == PAGE_SIZE,
        ensures
            page@ == (PageView { index: index as int, bytes: bytes@ }),
    {
        Page { index, bytes }
    }

    /// Zero-based position of the page in its store.
    pub fn index(&self) -> (index: u64)
        ensures
            index == self@.index,
    {
        self.index
    }

    /// The page's bytes.
    pub fn bytes(&self) -> (bytes: &'a [u8])
        ensures
            bytes@ == self@.bytes,
            bytes@.len() == PAGE_SIZE,
    {
        proof {
            use_type_invariant(self);
        }
        self.bytes
    }
}

} // verus!
