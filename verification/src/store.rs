//! The page store: a whole number of pages in memory.
use vstd::prelude::*;
use vstd::slice;

use crate::bytes;
use crate::error::Error;
use crate::page::{Page, PageView, PAGE_SIZE};
use crate::superblock::{Superblock, SuperblockFormat};

verus! {

// ---------------------------------------------------------------------------
// Sizes
// ---------------------------------------------------------------------------

/// Why a store of `size` bytes is refused, if it is.
pub open spec fn size_failure(size: u64) -> Option<Error> {
    if size < PAGE_SIZE {
        Some(Error::TooSmall { size })
    } else if size as int % PAGE_SIZE as int != 0 {
        Some(Error::NotPageAligned { size, page_size: PAGE_SIZE })
    } else {
        None
    }
}

/// Number of pages in a store of `size` bytes.
pub open spec fn pages_in(size: int) -> int {
    size / PAGE_SIZE as int
}

/// Check that a store consists of at least one page and of whole pages.
pub fn validate_store_size(size: u64) -> (result: Result<(), Error>)
    ensures
        match result {
            Ok(()) => size_failure(size) is None,
            Err(error) => size_failure(size) == Some(error),
        },
{
    if size < PAGE_SIZE as u64 {
        return Err(Error::TooSmall { size });
    }
    if size % (PAGE_SIZE as u64) != 0 {
        return Err(Error::NotPageAligned { size, page_size: PAGE_SIZE });
    }
    Ok(())
}

// ---------------------------------------------------------------------------
// Snapshots
// ---------------------------------------------------------------------------

/// Why no snapshot of a file is taken, or none is kept.
#[derive(Debug, Clone, PartialEq, Eq)]
pub enum SnapshotRefusal {
    /// The file is no page store.
    Store(Error),
    /// The file does not fit this platform's address space.
    AddressSpace,
    /// The file changed its size while its snapshot was read.
    Changed,
}

/// Number of bytes to read for a snapshot of a file of `initial_size` bytes.
pub fn plan_snapshot(initial_size: u64) -> (capacity: Result<usize, SnapshotRefusal>)
    ensures
        capacity == match size_failure(initial_size) {
            Some(error) => Err::<usize, SnapshotRefusal>(SnapshotRefusal::Store(error)),
            None => if initial_size > usize::MAX {
                Err(SnapshotRefusal::AddressSpace)
            } else {
                Ok(initial_size as usize)
            },
        },
{
    match validate_store_size(initial_size) {
        Ok(()) => {},
        Err(error) => {
            return Err(SnapshotRefusal::Store(error));
        },
    }
    if initial_size > usize::MAX as u64 {
        return Err(SnapshotRefusal::AddressSpace);
    }
    Ok(initial_size as usize)
}

/// Whether a snapshot is kept: only if the file has the same size after the
/// read as before it.
///
/// This cannot detect same-length in-place rewrites; callers that need an
/// atomic content snapshot must supply an immutable copy or external file
/// locking.
pub fn accept_snapshot(initial_size: u64, final_size: u64) -> (result: Result<(), SnapshotRefusal>)
    ensures
        result == if initial_size != final_size {
            Err::<(), SnapshotRefusal>(SnapshotRefusal::Changed)
        } else {
            match size_failure(final_size) {
                Some(error) => Err(SnapshotRefusal::Store(error)),
                None => Ok(()),
            }
        },
{
    if final_size != initial_size {
        return Err(SnapshotRefusal::Changed);
    }
    match validate_store_size(final_size) {
        Ok(()) => Ok(()),
        Err(error) => Err(SnapshotRefusal::Store(error)),
    }
}

// ---------------------------------------------------------------------------
// Stores
// ---------------------------------------------------------------------------

/// The page with the given index.
pub open spec fn page_of(store: Seq<u8>, index: int) -> PageView {
    PageView {
        index,
        bytes: store.subrange(index * PAGE_SIZE, index * PAGE_SIZE + PAGE_SIZE),
    }
}

/// Whether a store consists of at least one page and of whole pages.
pub open spec fn is_store(store: Seq<u8>) -> bool {
    PAGE_SIZE <= store.len() <= usize::MAX && store.len() as int % PAGE_SIZE as int == 0
}

/// An SA17 page store in memory.
///
/// The whole store is held in one buffer. This is appropriate for the file
/// sizes the format typically produces (13-45 MiB in the QBW corpus) and keeps
/// the API zero-copy at the per-page level.
#[derive(Debug)]
pub struct PageStore {
    bytes: Vec<u8>,
}

impl View for PageStore {
    type V = Seq<u8>;

    closed spec fn view(&self) -> Seq<u8> {
        self.bytes@
    }
}

impl PageStore {
    #[verifier::type_invariant]
    spec fn well_formed(self) -> bool {
        is_store(self.bytes@)
    }

    /// Wrap an already-materialised byte buffer as a page store.
    ///
    /// The buffer length must be a positive multiple of [`PAGE_SIZE`].
    pub fn from_bytes(bytes: Vec<u8>) -> (result: Result<Self, Error>)
        ensures
            match result {
                Ok(store) => size_failure(bytes@.len() as u64) is None && store@ == bytes@,
                Err(error) => size_failure(bytes@.len() as u64) == Some(error),
            },
    {
        assert(bytes@.len() == bytes.len());
        match validate_store_size(bytes.len() as u64) {
            Ok(()) => Ok(PageStore { bytes }),
            Err(error) => Err(error),
        }
    }

    /// Total number of pages in the store.
    pub fn page_count(&self) -> (count: u64)
        ensures
            count == pages_in(self@.len() as int),
            is_store(self@),
    {
        proof {
            use_type_invariant(self);
        }
        (self.bytes.len() / PAGE_SIZE) as u64
    }

    /// Total file size in bytes.
    pub fn size_bytes(&self) -> (size: u64)
        ensures
            size == self@.len(),
            is_store(self@),
    {
        proof {
            use_type_invariant(self);
        }
        self.bytes.len() as u64
    }

    /// Borrow a single page by zero-based index.
    pub fn page(&self, index: u64) -> (result: Result<Page<'_>, Error>)
        ensures
            is_store(self@),
            match result {
                Ok(page) => index < pages_in(self@.len() as int) && page@ == page_of(
                    self@,
                    index as int,
                ),
                Err(error) => index >= pages_in(self@.len() as int) && error
                    == (Error::PageOutOfRange {
                    page: index,
                    total: pages_in(self@.len() as int) as u64,
                }),
            },
    {
        let total: u64 = self.page_count();
        if index >= total {
            return Err(Error::PageOutOfRange { page: index, total });
        }
        let start: usize = index as usize * PAGE_SIZE;
        Ok(
            Page::from_bytes(
                index,
                slice::slice_subrange(self.bytes.as_slice(), start, start + PAGE_SIZE),
            ),
        )
    }

    /// Iterate over every page in order, starting at page 0.
    pub fn pages(&self) -> (pages: Pages<'_>)
        ensures
            pages@ == (PagesView { store: self@, next: 0 }),
            is_store(self@),
    {
        proof {
            use_type_invariant(self);
        }
        Pages { store: self, next: 0 }
    }

    /// Parse and return the page-0 superblock. This also verifies the
    /// superblock magic; use [`PageStore::try_superblock`] for a
    /// non-failing variant.
    pub fn superblock(&self, format: &SuperblockFormat) -> (result: Result<Superblock, Error>)
        requires
            format.fits(),
        ensures
            is_store(self@),
            ({
                let got = format.magic_in(page_of(self@, 0).bytes);
                match result {
                    Ok(superblock) => got == format.magic@ && superblock.magic@ == got,
                    Err(error) => got != format.magic@ && (error matches Error::BadMagic {
                        got: found,
                        want,
                    } && found@ == got && want@ == format.magic@),
                }
            }),
    {
        let superblock: Superblock = self.try_superblock(format)?;
        if !superblock.magic_ok(format) {
            return Err(
                Error::BadMagic {
                    got: superblock.magic,
                    want: bytes::copy_bytes(format.magic.as_slice()),
                },
            );
        }
        Ok(superblock)
    }

    /// Parse the page-0 superblock without validating the magic. Useful
    /// when inspecting files that might not be SA17.
    pub fn try_superblock(&self, format: &SuperblockFormat) -> (result: Result<Superblock, Error>)
        requires
            format.fits(),
        ensures
            is_store(self@),
            result matches Ok(superblock) && superblock.magic@ == format.magic_in(
                page_of(self@, 0).bytes,
            ),
    {
        let page: Page<'_> = self.page(0)?;
        Ok(Superblock::parse(page.bytes(), format))
    }
}

// ---------------------------------------------------------------------------
// Pages in order
// ---------------------------------------------------------------------------

/// The pages of a store that are still to come, in order.
#[derive(Debug)]
pub struct Pages<'a> {
    store: &'a PageStore,
    next: u64,
}

/// What an iteration over pages says.
#[verifier::ext_equal]
pub ghost struct PagesView {
    /// The bytes of the store.
    pub store: Seq<u8>,
    /// Index of the page that comes next.
    pub next: int,
}

impl PagesView {
    /// The pages that are still to come.
    pub open spec fn remaining(self) -> Seq<PageView> {
        Seq::new(
            (pages_in(self.store.len() as int) - self.next) as nat,
            |i: int| page_of(self.store, self.next + i),
        )
    }
}

impl<'a> View for Pages<'a> {
    type V = PagesView;

    closed spec fn view(&self) -> PagesView {
        PagesView { store: self.store@, next: self.next as int }
    }
}

impl<'a> Pages<'a> {
    #[verifier::type_invariant]
    spec fn well_formed(self) -> bool {
        is_store(self.store@) && self.next <= pages_in(self.store@.len() as int)
    }

    /// Borrow the next page, if any is left.
    pub fn next(&mut self) -> (page: Option<Page<'a>>)
        ensures
            final(self)@.store == old(self)@.store,
            match page {
                Some(page) => {
                    &&& old(self)@.remaining().len() > 0
                    &&& page@ == old(self)@.remaining()[0]
                    &&& final(self)@.next == old(self)@.next + 1
                    &&& final(self)@.remaining() == old(self)@.remaining().skip(1)
                },
                None => old(self)@.remaining().len() == 0 && final(self)@ == old(self)@,
            },
    {
        proof {
            use_type_invariant(&*self);
        }
        let store: &'a PageStore = self.store;
        let index: u64 = self.next;
        match store.page(index) {
            Err(_) => None,
            Ok(page) => {
                self.next = index + 1;
                assert(self@.remaining() =~= old(self)@.remaining().skip(1));
                Some(page)
            },
        }
    }

    /// Exact number of pages that are still to come, as lower and upper bound.
    pub fn size_hint(&self) -> (hint: (usize, Option<usize>))
        ensures
            hint.0 == self@.remaining().len(),
            hint.1 == Some(hint.0),
    {
        proof {
            use_type_invariant(self);
        }
        let remaining: usize = (self.store.page_count() - self.next) as usize;
        (remaining, Some(remaining))
    }
}

// ---------------------------------------------------------------------------
// Laws
// ---------------------------------------------------------------------------

/// The pages of a store make it up: every byte stands in just the page and at
/// just the place that its offset says, and the pages leave no byte over.
pub proof fn pages_make_up_the_store(store: Seq<u8>, offset: int)
    requires
        is_store(store),
        0 <= offset < store.len(),
    ensures
        pages_in(store.len() as int) * PAGE_SIZE == store.len(),
        0 <= offset / PAGE_SIZE as int,
        offset / (PAGE_SIZE as int) < pages_in(store.len() as int),
        page_of(store, offset / PAGE_SIZE as int).bytes.len() == PAGE_SIZE,
        page_of(store, offset / PAGE_SIZE as int).bytes[offset % PAGE_SIZE as int]
            == store[offset],
{
}

/// Iterating from the start hands out every page once and in order.
pub proof fn iteration_visits_every_page(store: Seq<u8>)
    requires
        is_store(store),
    ensures
        ({
            let pages = PagesView { store, next: 0 }.remaining();
            &&& pages.len() == pages_in(store.len() as int)
            &&& forall|i: int| 0 <= i < pages.len() ==> #[trigger] pages[i] == page_of(store, i)
        }),
{
}

/// A size is accepted exactly where it is that of one page or more; what is
/// shorter than a page is too small, and all else is not aligned.
pub proof fn exactly_whole_pages_are_accepted(size: u64)
    ensures
        size_failure(size) is None <==> exists|pages: int|
            pages >= 1 && #[trigger] (4096 * pages) == size,
        size < 4096 ==> size_failure(size) == Some(Error::TooSmall { size }),
        size > 4096 && size as int % 4096 != 0 ==> size_failure(size) == Some(
            Error::NotPageAligned { size, page_size: 4096 },
        ),
{
    if size_failure(size) is None {
        assert(4096 * (size as int / 4096) == size);
    }
}

/// A store is what an accepted size leaves, and it has as many pages as fit.
pub proof fn stores_have_an_accepted_size(store: Seq<u8>)
    requires
        store.len() <= usize::MAX,
    ensures
        is_store(store) <==> size_failure(store.len() as u64) is None,
        is_store(store) ==> 4096 * pages_in(store.len() as int) == store.len(),
{
}

/// Each byte of a page is the byte of the store that stands as many whole pages
/// further on as there are before the page.
pub proof fn pages_are_cut_out_of_the_store(store: Seq<u8>, index: int, at: int)
    requires
        is_store(store),
        0 <= index,
        4096 * index < store.len(),
        0 <= at < 4096,
    ensures
        page_of(store, index).index == index,
        page_of(store, index).bytes.len() == 4096,
        page_of(store, index).bytes[at] == store[4096 * index + at],
{
    let page = page_of(store, index);
    assert(page.bytes == store.subrange(4096 * index, 4096 * index + 4096));
}

/// What an iteration still hands out are the pages from its next one on, to the
/// last.
pub proof fn iteration_goes_on_to_the_last_page(store: Seq<u8>, next: int, i: int)
    requires
        is_store(store),
        0 <= next,
        4096 * next <= store.len(),
        0 <= i,
    ensures
        ({
            let pages = PagesView { store, next }.remaining();
            &&& 4096 * (next + pages.len()) == store.len()
            &&& i < pages.len() ==> {
                &&& pages[i].index == next + i
                &&& pages[i].bytes == store.subrange(4096 * (next + i), 4096 * (next + i) + 4096)
            }
        }),
{
}

} // verus!
