//! Page links, told by their bytes.
//!
//! [`crate::page_links`] says what is found in a page and how links are
//! followed. Here a block is told byte by byte and a walk page by page.
use vstd::prelude::*;

use crate::page_links;
use crate::page_links::{PageLinkMetadata, PageLinkTarget, PageLinkWalkStop};

verus! {

/// Every nonzero page of the store but the one that holds the link may be
/// followed, also one before it, and no other; a link is absent exactly where
/// the flag is not one.
pub proof fn exactly_the_safe_targets_are_followed(
    flag: u8,
    raw_target: u32,
    page_number: int,
    page_count: int,
)
    ensures
        ({
            let target = page_links::link_target(flag, raw_target, page_number, page_count);
            let safe = 0 < raw_target < page_count && raw_target != page_number;
            &&& flag == 1 && safe <==> target == PageLinkTarget::InRange(raw_target)
            &&& flag == 1 && safe <==> target is InRange
            &&& flag == 1 && !safe <==> target == PageLinkTarget::Invalid(raw_target)
            &&& flag == 1 && !safe <==> target is Invalid
            &&& flag != 1 <==> target == PageLinkTarget::Absent
        }),
{
}

/// The number that four bytes spell, the lowest byte first.
pub open spec fn spelled_number(plain: Seq<u8>, at: int) -> int {
    plain[at] + 0x100 * plain[at + 1] + 0x1_0000 * plain[at + 2] + 0x100_0000 * plain[at + 3]
}

/// A block begins exactly where there is room for it, the page's own number
/// stands, and the fixed bytes are as they must be. All other bytes are free.
pub proof fn blocks_are_told_by_their_fixed_bytes(plain: Seq<u8>, page_number: int, at: int)
    ensures
        page_links::is_block_at(plain, page_number, at) <==> {
            &&& 0 <= at
            &&& at + 34 <= plain.len()
            &&& spelled_number(plain, at) == page_number
            &&& plain[at + 4] == 0 && plain[at + 5] == 0
            &&& plain[at + 8] == 0x00 && plain[at + 9] == 0x00
            &&& plain[at + 10] == 0x80 && plain[at + 11] == 0x3f
            &&& plain[at + 24] == 0xd5 && plain[at + 25] == 0x0b
            &&& plain[at + 27] == 0 && plain[at + 28] == 0 && plain[at + 29] == 0
        },
{
    if 0 <= at && at + 34 <= plain.len() {
        let zeros = plain.subrange(at + 4, at + 6);
        let one = plain.subrange(at + 8, at + 12);
        let marker = plain.subrange(at + 24, at + 26);
        let padding = plain.subrange(at + 27, at + 30);
        assert(zeros[0] == plain[at + 4] && zeros[1] == plain[at + 5]);
        assert(one[0] == plain[at + 8] && one[1] == plain[at + 9] && one[2] == plain[at + 10]
            && one[3] == plain[at + 11]);
        assert(marker[0] == plain[at + 24] && marker[1] == plain[at + 25]);
        assert(padding[0] == plain[at + 27] && padding[1] == plain[at + 28] && padding[2]
            == plain[at + 29]);
        if plain[at + 4] == 0 && plain[at + 5] == 0 {
            assert(zeros =~= seq![0u8, 0u8]);
        }
        if plain[at + 8] == 0x00 && plain[at + 9] == 0x00 && plain[at + 10] == 0x80 && plain[at
            + 11] == 0x3f {
            assert(one =~= seq![0x00u8, 0x00u8, 0x80u8, 0x3fu8]);
        }
        if plain[at + 24] == 0xd5 && plain[at + 25] == 0x0b {
            assert(marker =~= seq![0xd5u8, 0x0bu8]);
        }
        if plain[at + 27] == 0 && plain[at + 28] == 0 && plain[at + 29] == 0 {
            assert(padding =~= seq![0u8, 0u8, 0u8]);
        }
    }
}

/// A block tells where it stands, its flag, and, where the flag is one, the
/// number that its last four bytes spell: to follow if it is a nonzero page of
/// the store other than the page that holds the block, and as invalid if not.
pub proof fn blocks_tell_their_flag_and_target(
    plain: Seq<u8>,
    page_number: int,
    page_count: int,
    at: int,
)
    requires
        page_links::is_block_at(plain, page_number, at),
        plain.len() <= usize::MAX,
    ensures
        ({
            let block = page_links::block_at(plain, page_number, page_count, at);
            let raw = spelled_number(plain, at + 30);
            &&& block.offset == at
            &&& block.link_flag == plain[at + 26]
            &&& match block.target {
                PageLinkTarget::Absent => plain[at + 26] != 1,
                PageLinkTarget::InRange(target) => plain[at + 26] == 1 && target == raw && 0 < raw
                    < page_count && raw != page_number,
                PageLinkTarget::Invalid(target) => plain[at + 26] == 1 && target == raw && (raw
                    == 0 || raw >= page_count || raw == page_number),
            }
        }),
{
}

/// Whether the metadata of a page leads to this page.
pub open spec fn leads_to(metadata: Option<PageLinkMetadata>, page: u32) -> bool {
    metadata is Some && metadata->Some_0.target == PageLinkTarget::InRange(page)
}

/// Whether the metadata of a page leads nowhere, and this is why.
pub open spec fn leads_nowhere(
    metadata: Option<PageLinkMetadata>,
    reason: PageLinkWalkStop,
) -> bool {
    match reason {
        PageLinkWalkStop::MissingMetadata => metadata is None,
        PageLinkWalkStop::NoLink => metadata is Some && metadata->Some_0.target is Absent,
        PageLinkWalkStop::InvalidTarget(raw) => metadata is Some && metadata->Some_0.target
            == PageLinkTarget::Invalid(raw),
        PageLinkWalkStop::Cycle(_) | PageLinkWalkStop::LimitReached => false,
    }
}

/// What the metadata of a page leads to.
pub proof fn metadata_leads_on_or_nowhere(metadata: Option<PageLinkMetadata>)
    ensures
        match page_links::link_of(metadata) {
            Ok(page) => leads_to(metadata, page),
            Err(reason) => leads_nowhere(metadata, reason),
        },
{
}

/// Whether pages are those of a walk: the first is the start, each leads to the
/// next, none comes twice, and there are no more than allowed.
pub open spec fn is_trail(
    start: u32,
    max_pages: int,
    found: Seq<Option<PageLinkMetadata>>,
    pages: Seq<u32>,
) -> bool {
    &&& found.len() == pages.len() <= max_pages
    &&& pages.len() > 0 ==> pages[0] == start
    &&& forall|i: int|
        0 < i < pages.len() ==> leads_to(found[i - 1], #[trigger] pages[i])
    &&& forall|i: int, j: int|
        0 <= i < j < pages.len() ==> #[trigger] pages[i] != #[trigger] pages[j]
}

/// Whether a walk stops after these pages, for this reason: the last page leads
/// nowhere; it leads on, but no more pages are allowed; or more are allowed and
/// it leads to a page of the walk.
pub open spec fn stops(
    max_pages: int,
    found: Seq<Option<PageLinkMetadata>>,
    pages: Seq<u32>,
    stop: PageLinkWalkStop,
) -> bool {
    match stop {
        PageLinkWalkStop::LimitReached => {
            &&& pages.len() == max_pages
            &&& pages.len() > 0 ==> exists|page: u32| leads_to(found.last(), page)
        },
        PageLinkWalkStop::Cycle(page) => {
            &&& 0 < pages.len() < max_pages
            &&& leads_to(found.last(), page)
            &&& exists|i: int| 0 <= i < pages.len() && #[trigger] pages[i] == page
        },
        reason => pages.len() > 0 && leads_nowhere(found.last(), reason),
    }
}

/// A walk visits the pages that lead to one another from the start on, and
/// stops as soon as there is a reason to, and only then.
pub proof fn walks_follow_links_until_there_is_a_reason_to_stop(
    start: u32,
    max_pages: int,
    found: Seq<Option<PageLinkMetadata>>,
    pages: Seq<u32>,
    stop: PageLinkWalkStop,
)
    requires
        max_pages >= 0,
    ensures
        page_links::is_walk(start, max_pages, found, pages, stop) <==> is_trail(
            start,
            max_pages,
            found,
            pages,
        ) && stops(max_pages, found, pages, stop),
{
    let n = pages.len() as int;
    if page_links::is_walk(start, max_pages, found, pages, stop) {
        lemma_walks_are_trails(start, max_pages, found, pages, stop);
    }
    if is_trail(start, max_pages, found, pages) && stops(max_pages, found, pages, stop) {
        lemma_trails_are_walks(start, max_pages, found, pages, stop);
    }
}

proof fn lemma_walks_are_trails(
    start: u32,
    max_pages: int,
    found: Seq<Option<PageLinkMetadata>>,
    pages: Seq<u32>,
    stop: PageLinkWalkStop,
)
    requires
        max_pages >= 0,
        page_links::is_walk(start, max_pages, found, pages, stop),
    ensures
        is_trail(start, max_pages, found, pages),
        stops(max_pages, found, pages, stop),
{
    let n = pages.len() as int;
    assert forall|i: int| 0 < i < n implies leads_to(found[i - 1], #[trigger] pages[i]) by {
        assert(page_links::link_of(found[i - 1]) is Ok);
        metadata_leads_on_or_nowhere(found[i - 1]);
    }
    if n > 0 {
        metadata_leads_on_or_nowhere(found.last());
        if page_links::link_of(found.last()) is Ok {
            let next = page_links::link_of(found.last())->Ok_0;
            assert(leads_to(found.last(), next));
            if n < max_pages {
                let i = pages.index_of(next);
                assert(pages[i] == next);
            }
        }
    }
}

proof fn lemma_trails_are_walks(
    start: u32,
    max_pages: int,
    found: Seq<Option<PageLinkMetadata>>,
    pages: Seq<u32>,
    stop: PageLinkWalkStop,
)
    requires
        max_pages >= 0,
        is_trail(start, max_pages, found, pages),
        stops(max_pages, found, pages, stop),
    ensures
        page_links::is_walk(start, max_pages, found, pages, stop),
{
    let n = pages.len() as int;
    assert forall|i: int| 0 <= i < n implies #[trigger] pages[i] == page_links::page_after(
        start,
        found,
        i,
    ) by {
        if i > 0 {
            assert(leads_to(found[i - 1], pages[i]));
        }
    }
    assert forall|i: int| 0 <= i < n - 1 implies page_links::link_of(#[trigger] found[i]) is Ok by {
        assert(leads_to(found[i], pages[i + 1]));
    }
    if n > 0 {
        metadata_leads_on_or_nowhere(found.last());
    }
}

/// There is a walk from every page under every bound, whatever table answers.
pub proof fn every_page_has_its_walk(
    start: u32,
    max_pages: nat,
    table: spec_fn(u32) -> Option<PageLinkMetadata>,
) -> (walk: (Seq<u32>, PageLinkWalkStop))
    ensures
        page_links::is_walk(
            start,
            max_pages as int,
            page_links::answers(table, walk.0),
            walk.0,
            walk.1,
        ),
{
    lemma_walk_from(start, max_pages as int, table, Seq::empty(), start)
}

proof fn lemma_walk_from(
    start: u32,
    max_pages: int,
    table: spec_fn(u32) -> Option<PageLinkMetadata>,
    trail: Seq<u32>,
    next: u32,
) -> (walk: (Seq<u32>, PageLinkWalkStop))
    requires
        is_trail(start, max_pages, page_links::answers(table, trail), trail),
        if trail.len() == 0 {
            next == start
        } else {
            leads_to(table(trail.last()), next)
        },
    ensures
        page_links::is_walk(
            start,
            max_pages,
            page_links::answers(table, walk.0),
            walk.0,
            walk.1,
        ),
    decreases max_pages - trail.len(),
{
    let found = page_links::answers(table, trail);
    if trail.len() == max_pages {
        if trail.len() > 0 {
            assert(leads_to(found.last(), next));
        }
        lemma_trails_are_walks(start, max_pages, found, trail, PageLinkWalkStop::LimitReached);
        (trail, PageLinkWalkStop::LimitReached)
    } else if trail.contains(next) {
        let i = trail.index_of(next);
        assert(trail[i] == next);
        lemma_trails_are_walks(start, max_pages, found, trail, PageLinkWalkStop::Cycle(next));
        (trail, PageLinkWalkStop::Cycle(next))
    } else {
        let longer = trail.push(next);
        let met = page_links::answers(table, longer);
        assert forall|i: int| 0 < i < longer.len() implies leads_to(
            met[i - 1],
            #[trigger] longer[i],
        ) by {
            if i < trail.len() {
                assert(leads_to(found[i - 1], trail[i]));
            }
        }
        match page_links::link_of(met.last()) {
            Ok(page) => lemma_walk_from(start, max_pages, table, longer, page),
            Err(reason) => {
                lemma_trails_are_walks(start, max_pages, met, longer, reason);
                (longer, reason)
            },
        }
    }
}

/// What a walk finds is what the lookup gave, page by page.
pub proof fn lookups_are_taken_page_by_page<F: FnMut(u32) -> Option<PageLinkMetadata>>(
    lookup: F,
    pages: Seq<u32>,
    found: Seq<Option<PageLinkMetadata>>,
    i: int,
)
    requires
        page_links::looked_up(lookup, pages, found),
        0 <= i < pages.len(),
    ensures
        found.len() == pages.len(),
        call_ensures(lookup, (pages[i],), found[i]),
{
}

} // verus!
