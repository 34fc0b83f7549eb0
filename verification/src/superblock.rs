//! The magic of the page-zero superblock.
//!
//! A store is recognized by a magic in its first page. Where that magic stands
//! and what it is belongs to the dialect of the file, so the caller supplies
//! both.
use vstd::prelude::*;
use vstd::slice;

use crate::bytes;
use crate::page::PAGE_SIZE;

verus! {

/// Where page zero carries the magic of a dialect, and what it is.
#[derive(Debug, Clone, PartialEq, Eq)]
pub struct SuperblockFormat {
    /// Byte offset of the magic in page zero.
    pub magic_offset: usize,
    /// The magic of the dialect.
    pub magic: Vec<u8>,
}

impl SuperblockFormat {
    /// Whether the magic lies inside page zero.
    pub open spec fn fits(self) -> bool {
        self.magic_offset + self.magic@.len() <= PAGE_SIZE
    }

    /// The bytes of page zero where the magic is expected.
    pub open spec fn magic_in(self, page: Seq<u8>) -> Seq<u8> {
        page.subrange(self.magic_offset as int, self.magic_offset + self.magic@.len())
    }
}

/// A parsed page-zero superblock.
#[derive(Debug, Clone, PartialEq, Eq)]
pub struct Superblock {
    /// The bytes that stand where the magic is expected.
    pub magic: Vec<u8>,
}

impl Superblock {
    /// Parse page zero.
    pub fn parse(page: &[u8], format: &SuperblockFormat) -> (superblock: Self)
        requires
            page@.len() == PAGE_SIZE,
            format.fits(),
        ensures
            superblock.magic@ == format.magic_in(page@),
    {
        let end: usize = format.magic_offset + format.magic.len();
        Superblock {
            magic: bytes::copy_bytes(slice::slice_subrange(page, format.magic_offset, end)),
        }
    }

    /// Whether the magic is that of the dialect.
    pub fn magic_ok(&self, format: &SuperblockFormat) -> (ok: bool)
        ensures
            ok == (self.magic@ == format.magic@),
    {
        bytes::same_bytes(&self.magic, &format.magic)
    }
}

/// The magic of a page has the length of the expected one, and its bytes are
/// those of the page from the offset of the magic on.
pub proof fn magic_stands_at_its_offset(format: SuperblockFormat, page: Seq<u8>, i: int)
    requires
        format.fits(),
        page.len() == PAGE_SIZE,
        0 <= i < format.magic@.len(),
    ensures
        format.magic_in(page).len() == format.magic@.len(),
        format.magic_in(page)[i] == page[format.magic_offset + i],
{
}

/// A magic fits exactly where its last byte still stands in page zero.
pub proof fn magics_fit_inside_a_page(format: SuperblockFormat)
    ensures
        format.fits() <==> format.magic_offset + format.magic@.len() <= 4096,
{
}

} // verus!
