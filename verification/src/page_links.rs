//! Conservative parsing and traversal of the observed SA17 page-link block.
//!
//! This module deliberately does **not** call the link a B-tree sibling or
//! child pointer.  In the Enterprise 24 QBW examined during development the
//! block occurs on allocation and extent pages, but neither its ownership nor
//! its relationship to a `SYSINDEX` entry has been established.  It is useful
//! nevertheless as a bounded, independently verifiable page-chain primitive.
//!
//! The currently observed block is:
//!
//! ```text
//! +00  u32_le  page's own page number
//! +04  00 00
//! +08  f32_le(1.0)
//! ...
//! +24  d5 0b
//! +26  link flag
//! +27  00 00 00
//! +30  u32_le  link target when the flag is one
//! ```
//!
//! All other bytes remain intentionally opaque.  A target is never followed
//! unless it is a non-zero in-range page number and it differs from the page
//! containing the block.
use vstd::prelude::*;

use crate::bytes;

verus! {

/// Bytes of one page-link block.
pub const BLOCK_MIN_LEN: usize = 34;

/// Target state decoded from a page-link block.
#[derive(Debug, Clone, Copy, PartialEq, Eq, Structural)]
pub enum PageLinkTarget {
    /// The block's link flag was not set.
    Absent,
    /// A non-zero in-range target, safe for a caller to consider following.
    InRange(u32),
    /// The link flag was set, but the raw target is not safe to follow.
    ///
    /// This includes page zero, a target outside the supplied store size, and
    /// a self link.  Keeping the raw value makes diagnostics possible without
    /// turning a malformed reference into a traversal edge.
    Invalid(u32),
}

/// A verified occurrence of the observed page-link metadata block.
#[derive(Debug, Clone, Copy, PartialEq, Eq, Structural)]
pub struct PageLinkMetadata {
    /// Byte offset at which the block begins in the plaintext page body.
    pub offset: usize,
    /// Raw flag byte immediately after the `d5 0b` marker.
    pub link_flag: u8,
    /// Validated link state.
    pub target: PageLinkTarget,
}

// ---------------------------------------------------------------------------
// Finding a block
// ---------------------------------------------------------------------------

/// Whether the bytes from `at` on are a page-link block of the given page.
pub open spec fn is_block_at(plain: Seq<u8>, page_number: int, at: int) -> bool {
    &&& 0 <= at
    &&& at + BLOCK_MIN_LEN <= plain.len()
    &&& bytes::le32(plain, at) == page_number
    &&& plain.subrange(at + 4, at + 6) == seq![0u8, 0u8]
    &&& plain.subrange(at + 8, at + 12) == seq![0x00u8, 0x00u8, 0x80u8, 0x3fu8]
    &&& plain.subrange(at + 24, at + 26) == seq![0xd5u8, 0x0bu8]
    &&& plain.subrange(at + 27, at + 30) == seq![0u8, 0u8, 0u8]
}

/// What a flag and a raw target say in a store of `page_count` pages.
pub open spec fn link_target(
    flag: u8,
    raw_target: u32,
    page_number: int,
    page_count: int,
) -> PageLinkTarget {
    if flag != 1 {
        PageLinkTarget::Absent
    } else if raw_target == 0 || raw_target >= page_count || raw_target == page_number {
        PageLinkTarget::Invalid(raw_target)
    } else {
        PageLinkTarget::InRange(raw_target)
    }
}

/// The metadata of the block at `at`.
pub open spec fn block_at(
    plain: Seq<u8>,
    page_number: int,
    page_count: int,
    at: int,
) -> PageLinkMetadata {
    let flag = plain[at + 26];
    PageLinkMetadata {
        offset: at as usize,
        link_flag: flag,
        target: link_target(flag, bytes::le32(plain, at + 30) as u32, page_number, page_count),
    }
}

/// Whether the bytes from `at` on are a page-link block of the given page.
fn has_block_at(plain: &[u8], page_number: u32, at: usize) -> (r: bool)
    requires
        at + BLOCK_MIN_LEN <= plain@.len(),
    ensures
        r == is_block_at(plain@, page_number as int, at as int),
{
    assert(plain@.len() == plain.len());
    let zeros: bool = plain[at + 4] == 0 && plain[at + 5] == 0;
    let one: bool = plain[at + 8] == 0x00 && plain[at + 9] == 0x00 && plain[at + 10] == 0x80
        && plain[at + 11] == 0x3f;
    let marker: bool = plain[at + 24] == 0xd5 && plain[at + 25] == 0x0b;
    let padding: bool = plain[at + 27] == 0 && plain[at + 28] == 0 && plain[at + 29] == 0;
    proof {
        let p = plain@;
        let i = at as int;
        assert(zeros == (p.subrange(i + 4, i + 6) == seq![0u8, 0u8])) by {
            let s = p.subrange(i + 4, i + 6);
            assert(s[0] == p[i + 4] && s[1] == p[i + 5]);
            if zeros {
                assert(s =~= seq![0u8, 0u8]);
            }
        }
        assert(one == (p.subrange(i + 8, i + 12) == seq![0x00u8, 0x00u8, 0x80u8, 0x3fu8])) by {
            let s = p.subrange(i + 8, i + 12);
            assert(s[0] == p[i + 8] && s[1] == p[i + 9] && s[2] == p[i + 10] && s[3] == p[i + 11]);
            if one {
                assert(s =~= seq![0x00u8, 0x00u8, 0x80u8, 0x3fu8]);
            }
        }
        assert(marker == (p.subrange(i + 24, i + 26) == seq![0xd5u8, 0x0bu8])) by {
            let s = p.subrange(i + 24, i + 26);
            assert(s[0] == p[i + 24] && s[1] == p[i + 25]);
            if marker {
                assert(s =~= seq![0xd5u8, 0x0bu8]);
            }
        }
        assert(padding == (p.subrange(i + 27, i + 30) == seq![0u8, 0u8, 0u8])) by {
            let s = p.subrange(i + 27, i + 30);
            assert(s[0] == p[i + 27] && s[1] == p[i + 28] && s[2] == p[i + 29]);
            if padding {
                assert(s =~= seq![0u8, 0u8, 0u8]);
            }
        }
    }
    bytes::read_le32(plain, at) == page_number && zeros && one && marker && padding
}

/// Find the first strictly validated page-link block in `plain`.
///
/// `page_number` is the zero-based number of the containing page and
/// `page_count` is the number of pages in the store.  The function is purely
/// byte-oriented: callers are responsible for deobfuscating the page first.
/// It returns `None` for malformed, short, or unrelated byte sequences.
pub fn find_page_link_metadata(plain: &[u8], page_number: u64, page_count: u64) -> (found: Option<
    PageLinkMetadata,
>)
    ensures
        match found {
            Some(metadata) => {
                &&& page_number < page_count
                &&& is_block_at(plain@, page_number as int, metadata.offset as int)
                &&& forall|at: int|
                    0 <= at < metadata.offset ==> !is_block_at(plain@, page_number as int, at)
                &&& metadata == block_at(
                    plain@,
                    page_number as int,
                    page_count as int,
                    metadata.offset as int,
                )
            },
            None => page_number >= page_count || forall|at: int|
                !is_block_at(plain@, page_number as int, at),
        },
{
    if page_number >= page_count || plain.len() < BLOCK_MIN_LEN {
        return None;
    }
    if page_number > u32::MAX as u64 {
        assert forall|at: int| !is_block_at(plain@, page_number as int, at) by {
            if 0 <= at && at + BLOCK_MIN_LEN <= plain@.len() {
                assert(bytes::le32(plain@, at) <= u32::MAX);
            }
        }
        return None;
    }
    let own: u32 = page_number as u32;
    let scan_end: usize = plain.len() - BLOCK_MIN_LEN;
    let mut offset: usize = 0;
    while offset <= scan_end
        invariant
            own == page_number,
            page_number < page_count,
            scan_end + BLOCK_MIN_LEN == plain@.len() <= usize::MAX,
            offset <= scan_end + 1,
            forall|at: int| 0 <= at < offset ==> !is_block_at(plain@, page_number as int, at),
        decreases scan_end + 1 - offset,
    {
        if has_block_at(plain, own, offset) {
            let link_flag: u8 = plain[offset + 26];
            let raw_target: u32 = bytes::read_le32(plain, offset + 30);
            let target: PageLinkTarget = if link_flag != 1 {
                PageLinkTarget::Absent
            } else if raw_target == 0 || raw_target as u64 >= page_count || raw_target == own {
                PageLinkTarget::Invalid(raw_target)
            } else {
                PageLinkTarget::InRange(raw_target)
            };
            return Some(PageLinkMetadata { offset, link_flag, target });
        }
        offset = offset + 1;
    }
    None
}

// ---------------------------------------------------------------------------
// Walking
// ---------------------------------------------------------------------------

/// Why a bounded page-link walk stopped.
#[derive(Debug, Clone, Copy, PartialEq, Eq, Structural)]
pub enum PageLinkWalkStop {
    /// The current page did not have a recognized metadata block.
    MissingMetadata,
    /// The current block had no link flag.
    NoLink,
    /// The current block's target was malformed and was not followed.
    InvalidTarget(u32),
    /// The next page was already visited.
    Cycle(u32),
    /// The caller's explicit page bound was reached.
    LimitReached,
}

/// Result of following observed page links from one starting page.
#[derive(Debug, Clone, PartialEq, Eq)]
pub struct PageLinkWalk {
    /// Every visited page, including the starting page when `max_pages > 0`.
    pub pages: Vec<u32>,
    /// The reason traversal stopped.
    pub stop: PageLinkWalkStop,
}

/// The page that the metadata of a page leads to, or why it leads nowhere.
pub open spec fn link_of(metadata: Option<PageLinkMetadata>) -> Result<u32, PageLinkWalkStop> {
    match metadata {
        None => Err(PageLinkWalkStop::MissingMetadata),
        Some(metadata) => match metadata.target {
            PageLinkTarget::Absent => Err(PageLinkWalkStop::NoLink),
            PageLinkTarget::Invalid(raw) => Err(PageLinkWalkStop::InvalidTarget(raw)),
            PageLinkTarget::InRange(next) => Ok(next),
        },
    }
}

/// The page that follows the first `n` pages of a walk, given what was found
/// on each of them.
pub open spec fn page_after(start: u32, found: Seq<Option<PageLinkMetadata>>, n: int) -> u32 {
    if n == 0 {
        start
    } else {
        link_of(found[n - 1])->Ok_0
    }
}

/// Whether a walk visits `pages` and stops with `stop` when `found` is what was
/// looked up on each page.
///
/// A page leads to the next one by its link, no page is visited twice, and the
/// walk goes on until a page leads nowhere, the bound is reached or a page
/// comes up again.
pub open spec fn is_walk(
    start: u32,
    max_pages: int,
    found: Seq<Option<PageLinkMetadata>>,
    pages: Seq<u32>,
    stop: PageLinkWalkStop,
) -> bool {
    let next = page_after(start, found, pages.len() as int);
    &&& found.len() == pages.len() <= max_pages
    &&& forall|i: int| 0 <= i < pages.len() ==> #[trigger] pages[i] == page_after(start, found, i)
    &&& forall|i: int| 0 <= i < pages.len() - 1 ==> link_of(#[trigger] found[i]) is Ok
    &&& pages.no_duplicates()
    &&& if pages.len() > 0 && link_of(found.last()) is Err {
        stop == link_of(found.last())->Err_0
    } else if pages.len() == max_pages {
        stop == PageLinkWalkStop::LimitReached
    } else {
        pages.contains(next) && stop == PageLinkWalkStop::Cycle(next)
    }
}

/// The page that the metadata of a page leads to, or why it leads nowhere.
pub fn follow_page_link(metadata: Option<PageLinkMetadata>) -> (next: Result<u32, PageLinkWalkStop>)
    ensures
        next == link_of(metadata),
{
    match metadata {
        None => Err(PageLinkWalkStop::MissingMetadata),
        Some(metadata) => match metadata.target {
            PageLinkTarget::Absent => Err(PageLinkWalkStop::NoLink),
            PageLinkTarget::Invalid(raw) => Err(PageLinkWalkStop::InvalidTarget(raw)),
            PageLinkTarget::InRange(next) => Ok(next),
        },
    }
}

/// Whether `page` was visited.
fn was_visited(pages: &Vec<u32>, page: u32) -> (r: bool)
    ensures
        r == pages@.contains(page),
{
    let mut index: usize = 0;
    while index < pages.len()
        invariant
            index <= pages@.len(),
            forall|i: int| 0 <= i < index ==> pages@[i] != page,
        decreases pages@.len() - index,
    {
        if pages[index] == page {
            return true;
        }
        index = index + 1;
    }
    false
}

/// Whether `found` is what `lookup` gave for each page.
pub open spec fn looked_up<F: FnMut(u32) -> Option<PageLinkMetadata>>(
    lookup: F,
    pages: Seq<u32>,
    found: Seq<Option<PageLinkMetadata>>,
) -> bool {
    &&& found.len() == pages.len()
    &&& forall|i: int|
        0 <= i < pages.len() ==> call_ensures(lookup, (pages[i],), #[trigger] found[i])
}

/// Follow a caller-supplied sequence of parsed page-link blocks safely.
///
/// The `lookup` closure must return already-validated metadata for the given
/// page, or `None` when that page cannot be decoded or has no block.  This
/// separation prevents the low-level primitive from guessing deobfuscation or
/// physical index semantics.  At most `max_pages` pages are visited.
pub fn walk_page_links<F: FnMut(u32) -> Option<PageLinkMetadata>>(
    start: u32,
    max_pages: usize,
    lookup: F,
) -> (walk: PageLinkWalk)
    requires
        forall|page: u32| #[trigger] call_requires(lookup, (page,)),
    ensures
        exists|found: Seq<Option<PageLinkMetadata>>|
            is_walk(start, max_pages as int, found, walk.pages@, walk.stop) && looked_up(
                lookup,
                walk.pages@,
                found,
            ),
{
    let mut look: F = lookup;
    let mut pages: Vec<u32> = Vec::new();
    let mut current: u32 = start;
    let ghost mut found: Seq<Option<PageLinkMetadata>> = Seq::empty();
    while pages.len() < max_pages
        invariant
            look == lookup,
            forall|page: u32| #[trigger] call_requires(lookup, (page,)),
            pages@.len() <= max_pages,
            found.len() == pages@.len(),
            current == page_after(start, found, pages@.len() as int),
            pages@.len() > 0 ==> link_of(found.last()) is Ok,
            forall|i: int|
                0 <= i < pages@.len() ==> #[trigger] pages@[i] == page_after(start, found, i),
            forall|i: int| 0 <= i < pages@.len() ==> link_of(#[trigger] found[i]) is Ok,
            pages@.no_duplicates(),
            looked_up(lookup, pages@, found),
        decreases max_pages - pages@.len(),
    {
        if was_visited(&pages, current) {
            let walk: PageLinkWalk = PageLinkWalk { pages, stop: PageLinkWalkStop::Cycle(current) };
            assert(is_walk(start, max_pages as int, found, walk.pages@, walk.stop));
            return walk;
        }
        let ghost before = found;
        pages.push(current);
        let metadata: Option<PageLinkMetadata> = look(current);
        proof {
            found = found.push(metadata);
            assert forall|i: int| 0 <= i < pages@.len() implies #[trigger] pages@[i] == page_after(
                start,
                found,
                i,
            ) by {
                assert(page_after(start, found, i) == page_after(start, before, i));
            }
            assert(looked_up(lookup, pages@, found));
        }
        match follow_page_link(metadata) {
            Err(stop) => {
                let walk: PageLinkWalk = PageLinkWalk { pages, stop };
                assert(is_walk(start, max_pages as int, found, walk.pages@, walk.stop));
                return walk;
            },
            Ok(next) => {
                current = next;
            },
        }
    }
    let walk: PageLinkWalk = PageLinkWalk { pages, stop: PageLinkWalkStop::LimitReached };
    assert(is_walk(start, max_pages as int, found, walk.pages@, walk.stop));
    walk
}

// ---------------------------------------------------------------------------
// Laws
// ---------------------------------------------------------------------------

/// Only a set flag gives a target, and a target that may be followed is a
/// nonzero page of the store other than the page that holds the link.
pub proof fn followed_targets_are_safe(flag: u8, raw_target: u32, page_number: int, page_count: int)
    ensures
        link_target(flag, raw_target, page_number, page_count) matches PageLinkTarget::InRange(
            target,
        ) ==> target == raw_target && flag == 1 && 0 < target < page_count && target
            != page_number,
{
}

/// The block of a page with this flag and raw target, around opaque bytes.
pub open spec fn link_block(
    page_number: u32,
    opaque: (Seq<u8>, Seq<u8>),
    flag: u8,
    raw_target: u32,
) -> Seq<u8> {
    le32_bytes(page_number) + seq![0u8, 0u8] + opaque.0 + seq![0x00u8, 0x00u8, 0x80u8, 0x3fu8]
        + opaque.1 + seq![0xd5u8, 0x0bu8, flag, 0u8, 0u8, 0u8] + le32_bytes(raw_target)
}

/// The little-endian bytes of a number.
pub open spec fn le32_bytes(n: u32) -> Seq<u8> {
    seq![
        (n as int % 256) as u8,
        (n as int / 0x100 % 256) as u8,
        (n as int / 0x1_0000 % 256) as u8,
        (n as int / 0x100_0000) as u8,
    ]
}

proof fn lemma_le32_bytes(n: u32, s: Seq<u8>, at: int)
    requires
        0 <= at,
        at + 4 <= s.len(),
        s.subrange(at, at + 4) == le32_bytes(n),
    ensures
        bytes::le32(s, at) == n,
{
    let written = s.subrange(at, at + 4);
    assert(s[at] == written[0] && s[at + 1] == written[1] && s[at + 2] == written[2] && s[at + 3]
        == written[3]);
    let i = n as int;
    assert(i == i % 256 + 0x100 * (i / 0x100 % 256) + 0x1_0000 * (i / 0x1_0000 % 256) + 0x100_0000
        * (i / 0x100_0000));
}

proof fn lemma_block_parts(
    page_number: u32,
    opaque: (Seq<u8>, Seq<u8>),
    flag: u8,
    raw_target: u32,
)
    requires
        opaque.0.len() == 2,
        opaque.1.len() == 12,
    ensures
        ({
            let block = link_block(page_number, opaque, flag, raw_target);
            &&& block.len() == BLOCK_MIN_LEN
            &&& block.subrange(0, 4) == le32_bytes(page_number)
            &&& block.subrange(4, 6) == seq![0u8, 0u8]
            &&& block.subrange(8, 12) == seq![0x00u8, 0x00u8, 0x80u8, 0x3fu8]
            &&& block.subrange(24, 26) == seq![0xd5u8, 0x0bu8]
            &&& block[26] == flag
            &&& block.subrange(27, 30) == seq![0u8, 0u8, 0u8]
            &&& block.subrange(30, 34) == le32_bytes(raw_target)
        }),
{
    let block = link_block(page_number, opaque, flag, raw_target);
    assert(block.subrange(0, 4) =~= le32_bytes(page_number));
    assert(block.subrange(4, 6) =~= seq![0u8, 0u8]);
    assert(block.subrange(8, 12) =~= seq![0x00u8, 0x00u8, 0x80u8, 0x3fu8]);
    assert(block.subrange(24, 26) =~= seq![0xd5u8, 0x0bu8]);
    assert(block.subrange(27, 30) =~= seq![0u8, 0u8, 0u8]);
    assert(block.subrange(30, 34) =~= le32_bytes(raw_target));
}

proof fn lemma_embedded(before: Seq<u8>, block: Seq<u8>, after: Seq<u8>, i: int, j: int)
    requires
        0 <= i <= j <= block.len(),
    ensures
        (before + block + after).subrange(before.len() + i, before.len() + j) == block.subrange(
            i,
            j,
        ),
{
    assert((before + block + after).subrange(before.len() + i, before.len() + j)
        =~= block.subrange(i, j));
}

/// A written block is recognized wherever it stands, and its flag and raw
/// target are read back.
pub proof fn written_blocks_are_recognized(
    page_number: u32,
    opaque: (Seq<u8>, Seq<u8>),
    flag: u8,
    raw_target: u32,
    before: Seq<u8>,
    after: Seq<u8>,
    page_count: int,
)
    requires
        opaque.0.len() == 2,
        opaque.1.len() == 12,
        before.len() + BLOCK_MIN_LEN + after.len() <= usize::MAX,
    ensures
        ({
            let plain = before + link_block(page_number, opaque, flag, raw_target) + after;
            let at = before.len() as int;
            &&& is_block_at(plain, page_number as int, at)
            &&& block_at(plain, page_number as int, page_count, at) == (PageLinkMetadata {
                offset: at as usize,
                link_flag: flag,
                target: link_target(flag, raw_target, page_number as int, page_count),
            })
        }),
{
    let block = link_block(page_number, opaque, flag, raw_target);
    let plain = before + block + after;
    let at = before.len() as int;
    lemma_block_parts(page_number, opaque, flag, raw_target);
    lemma_embedded(before, block, after, 0, 4);
    lemma_embedded(before, block, after, 4, 6);
    lemma_embedded(before, block, after, 8, 12);
    lemma_embedded(before, block, after, 24, 26);
    lemma_embedded(before, block, after, 27, 30);
    lemma_embedded(before, block, after, 30, 34);
    lemma_le32_bytes(page_number, plain, at);
    lemma_le32_bytes(raw_target, plain, at + 30);
}

/// What is looked up on each page of a walk, when a table answers.
pub open spec fn answers(
    table: spec_fn(u32) -> Option<PageLinkMetadata>,
    pages: Seq<u32>,
) -> Seq<Option<PageLinkMetadata>> {
    Seq::new(pages.len(), |i: int| table(pages[i]))
}

/// A lookup that answers from a table leaves only one walk: two walks with the
/// same start and bound visit the same pages and stop alike.
pub proof fn walks_are_determined(
    start: u32,
    max_pages: int,
    table: spec_fn(u32) -> Option<PageLinkMetadata>,
    first: (Seq<u32>, PageLinkWalkStop),
    second: (Seq<u32>, PageLinkWalkStop),
)
    requires
        is_walk(start, max_pages, answers(table, first.0), first.0, first.1),
        is_walk(start, max_pages, answers(table, second.0), second.0, second.1),
    ensures
        first == second,
{
    if first.0.len() <= second.0.len() {
        lemma_shorter_walk(start, max_pages, table, first, second);
    } else {
        lemma_shorter_walk(start, max_pages, table, second, first);
    }
}

proof fn lemma_shorter_walk(
    start: u32,
    max_pages: int,
    table: spec_fn(u32) -> Option<PageLinkMetadata>,
    short: (Seq<u32>, PageLinkWalkStop),
    long: (Seq<u32>, PageLinkWalkStop),
)
    requires
        is_walk(start, max_pages, answers(table, short.0), short.0, short.1),
        is_walk(start, max_pages, answers(table, long.0), long.0, long.1),
        short.0.len() <= long.0.len(),
    ensures
        short == long,
{
    let n = short.0.len() as int;
    lemma_common_pages(start, max_pages, table, short, long, n);
    if n < long.0.len() {
        let next = page_after(start, answers(table, short.0), n);
        assert(long.0[n] == page_after(start, answers(table, long.0), n));
        if n > 0 {
            assert(answers(table, long.0)[n - 1] == answers(table, short.0)[n - 1]);
            assert(link_of(answers(table, long.0)[n - 1]) is Ok);
        }
        assert(short.0.contains(next));
        let i = short.0.index_of(next);
        assert(long.0[i] == long.0[n]);
        assert(false);
    }
    assert(short.0 =~= long.0);
}

proof fn lemma_common_pages(
    start: u32,
    max_pages: int,
    table: spec_fn(u32) -> Option<PageLinkMetadata>,
    short: (Seq<u32>, PageLinkWalkStop),
    long: (Seq<u32>, PageLinkWalkStop),
    n: int,
)
    requires
        is_walk(start, max_pages, answers(table, short.0), short.0, short.1),
        is_walk(start, max_pages, answers(table, long.0), long.0, long.1),
        0 <= n <= short.0.len() <= long.0.len(),
    ensures
        forall|i: int| 0 <= i < n ==> #[trigger] short.0[i] == long.0[i],
    decreases n,
{
    if n > 0 {
        lemma_common_pages(start, max_pages, table, short, long, n - 1);
        assert(short.0[n - 1] == page_after(start, answers(table, short.0), n - 1));
        assert(long.0[n - 1] == page_after(start, answers(table, long.0), n - 1));
        if n > 1 {
            assert(short.0[n - 2] == long.0[n - 2]);
        }
    }
}

} // verus!
