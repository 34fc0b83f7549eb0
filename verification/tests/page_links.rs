use opensqlany::page_links::BLOCK_MIN_LEN;
use opensqlany::{
    find_page_link_metadata, walk_page_links, PageLinkMetadata, PageLinkTarget, PageLinkWalkStop,
};

const F32_ONE: [u8; 4] = [0x00, 0x00, 0x80, 0x3f];
const LINK_MARKER: [u8; 2] = [0xd5, 0x0b];

fn block(page: u32, flag: u8, target: u32) -> Vec<u8> {
    let mut bytes = vec![0_u8; BLOCK_MIN_LEN];
    bytes[0..4].copy_from_slice(&page.to_le_bytes());
    bytes[8..12].copy_from_slice(&F32_ONE);
    bytes[24..26].copy_from_slice(&LINK_MARKER);
    bytes[26] = flag;
    bytes[30..34].copy_from_slice(&target.to_le_bytes());
    bytes
}

#[test]
fn parses_only_strictly_shaped_in_range_link() {
    let mut page = vec![0_u8; 96];
    let b = block(7, 1, 11);
    page[13..13 + b.len()].copy_from_slice(&b);

    assert_eq!(
        find_page_link_metadata(&page, 7, 12),
        Some(PageLinkMetadata {
            offset: 13,
            link_flag: 1,
            target: PageLinkTarget::InRange(11),
        })
    );
}

#[test]
fn rejects_near_miss_and_short_pages() {
    let mut b = block(7, 1, 11);
    b[24] = 0;
    assert_eq!(find_page_link_metadata(&b, 7, 12), None);
    assert_eq!(find_page_link_metadata(&b[..20], 7, 12), None);
}

#[test]
fn preserves_but_does_not_accept_unsafe_targets() {
    for raw in [0, 7, 12] {
        let b = block(7, 1, raw);
        assert_eq!(
            find_page_link_metadata(&b, 7, 12).unwrap().target,
            PageLinkTarget::Invalid(raw)
        );
    }
}

#[test]
fn non_link_flag_has_no_target_even_when_bytes_are_nonzero() {
    let b = block(7, 2, 11);
    assert_eq!(
        find_page_link_metadata(&b, 7, 12).unwrap().target,
        PageLinkTarget::Absent
    );
}

fn metadata(target: PageLinkTarget) -> PageLinkMetadata {
    PageLinkMetadata {
        offset: 0,
        link_flag: matches!(
            target,
            PageLinkTarget::InRange(_) | PageLinkTarget::Invalid(_)
        ) as u8,
        target,
    }
}

#[test]
fn walk_stops_on_missing_metadata_and_never_guesses() {
    let walked = walk_page_links(3, 5, |page| match page {
        3 => Some(metadata(PageLinkTarget::InRange(4))),
        _ => None,
    });
    assert_eq!(walked.pages, vec![3, 4]);
    assert_eq!(walked.stop, PageLinkWalkStop::MissingMetadata);
}

#[test]
fn walk_detects_cycle_before_revisiting_page() {
    let walked = walk_page_links(3, 5, |page| match page {
        3 => Some(metadata(PageLinkTarget::InRange(4))),
        4 => Some(metadata(PageLinkTarget::InRange(3))),
        _ => None,
    });
    assert_eq!(walked.pages, vec![3, 4]);
    assert_eq!(walked.stop, PageLinkWalkStop::Cycle(3));
}

#[test]
fn walk_obeys_hard_page_bound() {
    let walked = walk_page_links(3, 2, |page| {
        Some(metadata(PageLinkTarget::InRange(page + 1)))
    });
    assert_eq!(walked.pages, vec![3, 4]);
    assert_eq!(walked.stop, PageLinkWalkStop::LimitReached);
}
