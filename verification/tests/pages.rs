use opensqlany::materialized_page::{DIRECTORY_OFFSET, RECORD_COUNT_OFFSET};
use opensqlany::{
    find_page_link_metadata, find_slot_directory, follow_page_link, scan_from, walk_page_links,
    MaterializedPageError, MaterializedTablePage, Page, PageLinkMetadata, PageLinkTarget,
    PageLinkWalkStop, SlotDirectory, SlottedPage, MATERIALIZED_TABLE_PAGE_LEN, PAGE_SIZE,
};

fn table_page(count: u16, entries: &[u16]) -> Vec<u8> {
    let mut page = vec![0_u8; MATERIALIZED_TABLE_PAGE_LEN];
    page[0x10] = 4;
    page[RECORD_COUNT_OFFSET..RECORD_COUNT_OFFSET + 2].copy_from_slice(&count.to_le_bytes());
    for (index, entry) in entries.iter().enumerate() {
        let at = DIRECTORY_OFFSET + 2 * index;
        page[at..at + 2].copy_from_slice(&entry.to_le_bytes());
    }
    page
}

#[test]
fn every_listed_record_of_a_parsed_page_is_available() {
    let mut bytes = table_page(3, &[6, 0, 4066]);
    bytes[DIRECTORY_OFFSET + 6] = 40;
    bytes[4094] = 2;
    bytes[..4].copy_from_slice(&[0x78, 0x56, 0x34, 0x12]);
    let page = MaterializedTablePage::parse(&bytes).unwrap();
    assert_eq!(page.key(), 0x1234_5678);
    assert_eq!(page.record_count(), 3);
    let first = page.record(0).unwrap();
    assert_eq!(first.byte_offset(), DIRECTORY_OFFSET + 6);
    assert_eq!(first.bytes(), &bytes[DIRECTORY_OFFSET + 6..DIRECTORY_OFFSET + 46]);
    assert_eq!(page.record(1), Err(MaterializedPageError::MissingRecord { record_id: 1 }));
    let last = page.record(2).unwrap();
    assert_eq!(last.byte_offset(), 4094);
    assert_eq!(last.bytes(), &[2, 0]);
}

#[test]
fn directories_have_to_fit_their_page() {
    assert_eq!(
        MaterializedTablePage::parse(&table_page(2035, &[])),
        Err(MaterializedPageError::DirectoryOutOfBounds { record_count: 2035 })
    );
    assert!(MaterializedTablePage::parse(&table_page(2034, &[])).is_ok());
}

#[test]
fn the_first_bad_record_is_reported() {
    let mut bytes = table_page(3, &[0, 4067, 5000]);
    assert_eq!(
        MaterializedTablePage::parse(&bytes),
        Err(MaterializedPageError::InvalidRecordLength {
            record_id: 1,
            directory_offset: 4067,
            declared: 0,
            available: 1,
        })
    );
    bytes[DIRECTORY_OFFSET + 2..DIRECTORY_OFFSET + 4].copy_from_slice(&[100, 0]);
    bytes[DIRECTORY_OFFSET + 100..DIRECTORY_OFFSET + 102].copy_from_slice(&[0xff, 0xff]);
    assert_eq!(
        MaterializedTablePage::parse(&bytes),
        Err(MaterializedPageError::InvalidRecordLength {
            record_id: 1,
            directory_offset: 100,
            declared: 0xffff,
            available: 4096 - DIRECTORY_OFFSET - 100,
        })
    );
    bytes[DIRECTORY_OFFSET + 2..DIRECTORY_OFFSET + 4].copy_from_slice(&[0, 0]);
    assert_eq!(
        MaterializedTablePage::parse(&bytes),
        Err(MaterializedPageError::RecordOutOfBounds { record_id: 2, directory_offset: 5000 })
    );
}

fn link(page: u32, flag: u8, target: u32) -> Vec<u8> {
    let mut bytes = vec![0x55_u8; 34];
    bytes[0..4].copy_from_slice(&page.to_le_bytes());
    bytes[4..6].copy_from_slice(&[0, 0]);
    bytes[8..12].copy_from_slice(&[0, 0, 0x80, 0x3f]);
    bytes[24..30].copy_from_slice(&[0xd5, 0x0b, flag, 0, 0, 0]);
    bytes[30..34].copy_from_slice(&target.to_le_bytes());
    bytes
}

#[test]
fn the_first_link_block_is_taken_wherever_it_stands() {
    for before in [0_usize, 1, 17] {
        let mut plain = vec![0x77; before];
        plain.extend_from_slice(&link(5, 1, 6));
        plain.extend_from_slice(&link(5, 1, 7));
        assert_eq!(
            find_page_link_metadata(&plain, 5, 10),
            Some(PageLinkMetadata {
                offset: before,
                link_flag: 1,
                target: PageLinkTarget::InRange(6),
            })
        );
    }
}

#[test]
fn every_fixed_byte_of_a_link_block_counts() {
    for at in [0, 1, 2, 3, 4, 5, 8, 9, 10, 11, 24, 25, 27, 28, 29] {
        let mut plain = link(5, 1, 6);
        plain[at] ^= 0x10;
        assert_eq!(find_page_link_metadata(&plain, 5, 10), None);
    }
    for at in [6, 7, 12, 23] {
        let mut plain = link(5, 1, 6);
        plain[at] ^= 0x10;
        assert!(find_page_link_metadata(&plain, 5, 10).is_some());
    }
}

#[test]
fn pages_outside_the_store_have_no_links() {
    let plain = link(5, 1, 6);
    assert_eq!(find_page_link_metadata(&plain, 5, 0), None);
    assert_eq!(find_page_link_metadata(&plain, 5, 5), None);
    assert!(find_page_link_metadata(&plain, 5, 6).is_some());
    assert_eq!(find_page_link_metadata(&plain, 0x1_0000_0005, u64::MAX), None);
}

fn found(target: PageLinkTarget) -> Option<PageLinkMetadata> {
    Some(PageLinkMetadata { offset: 0, link_flag: 1, target })
}

#[test]
fn each_target_state_leads_on_or_stops() {
    assert_eq!(follow_page_link(None), Err(PageLinkWalkStop::MissingMetadata));
    assert_eq!(follow_page_link(found(PageLinkTarget::Absent)), Err(PageLinkWalkStop::NoLink));
    assert_eq!(
        follow_page_link(found(PageLinkTarget::Invalid(9))),
        Err(PageLinkWalkStop::InvalidTarget(9))
    );
    assert_eq!(follow_page_link(found(PageLinkTarget::InRange(9))), Ok(9));
}

#[test]
fn walks_stop_for_each_reason() {
    let walk = walk_page_links(3, 5, |_| found(PageLinkTarget::Absent));
    assert_eq!((walk.pages, walk.stop), (vec![3], PageLinkWalkStop::NoLink));
    let walk = walk_page_links(3, 5, |_| found(PageLinkTarget::Invalid(8)));
    assert_eq!((walk.pages, walk.stop), (vec![3], PageLinkWalkStop::InvalidTarget(8)));
    let walk = walk_page_links(3, 0, |_| found(PageLinkTarget::InRange(4)));
    assert_eq!((walk.pages, walk.stop), (vec![], PageLinkWalkStop::LimitReached));
    let walk = walk_page_links(3, 1, |_| found(PageLinkTarget::InRange(3)));
    assert_eq!((walk.pages, walk.stop), (vec![3], PageLinkWalkStop::LimitReached));
    let walk = walk_page_links(3, 2, |_| found(PageLinkTarget::InRange(3)));
    assert_eq!((walk.pages, walk.stop), (vec![3], PageLinkWalkStop::Cycle(3)));
}

fn put(page: &mut [u8], start: usize, slots: &[u16]) {
    for (index, slot) in slots.iter().enumerate() {
        let at = start + 2 * index;
        page[at..at + 2].copy_from_slice(&slot.to_le_bytes());
    }
}

#[test]
fn a_leading_zero_word_is_no_slot() {
    let mut page = vec![0xff_u8; PAGE_SIZE];
    put(&mut page, 10, &[0, 900, 800, 0, 700, 600, 500, 400, 300, 200]);
    let directory = scan_from(&page, 10, false).unwrap();
    assert_eq!(directory.scan_start, 10);
    assert_eq!(directory.array_start, 12);
    assert_eq!(directory.end, 30);
    assert!(directory.leading_zero);
    assert_eq!(directory.slots, vec![900, 800, 0, 700, 600, 500, 400, 300, 200]);
    assert_eq!(directory.live_slots(), vec![900, 800, 700, 600, 500, 400, 300, 200]);
    assert_eq!(directory.live_count(), 8);
    assert_eq!(directory.deleted_count(), 1);
    assert_eq!(directory.min_offset(), Some(200));
}

#[test]
fn slots_descend_inside_the_row_area() {
    let mut page = vec![0xff_u8; PAGE_SIZE];
    put(&mut page, 0, &[900, 800, 700, 600, 500, 400, 300, 300]);
    assert!(scan_from(&page, 0, false).is_none());
    put(&mut page, 0, &[0xff0, 800, 700, 600, 500, 400, 300, 200]);
    assert!(scan_from(&page, 0, false).is_none());
    put(&mut page, 0, &[0xfef, 800, 700, 600, 500, 400, 300, 0x1f]);
    assert!(scan_from(&page, 0, false).is_none());
    put(&mut page, 0, &[0xfef, 800, 700, 600, 500, 400, 300, 0x20]);
    assert_eq!(scan_from(&page, 0, false).unwrap().end, 16);
    assert!(scan_from(&page, 0x300, false).is_none());
}

#[test]
fn the_directory_with_most_live_slots_wins() {
    let mut page = vec![0xff_u8; PAGE_SIZE];
    put(&mut page, 0, &[900, 800, 700, 600, 500, 400, 300, 200]);
    put(&mut page, 40, &[990, 900, 800, 700, 600, 500, 400, 300, 200]);
    assert_eq!(find_slot_directory(&page).unwrap().array_start, 40);
    put(&mut page, 100, &[990, 900, 800, 0, 700, 600, 500, 400, 300, 200]);
    assert_eq!(find_slot_directory(&page).unwrap().array_start, 100);
    put(&mut page, 140, &[990, 900, 800, 0, 700, 600, 500, 400, 300, 200]);
    assert_eq!(find_slot_directory(&page).unwrap().array_start, 100);
    assert!(find_slot_directory(&vec![0; PAGE_SIZE]).is_none());
}

#[test]
fn rows_fill_the_space_up_to_the_trailer() {
    let mut page: Vec<u8> = (0..PAGE_SIZE).map(|i| (i * 7) as u8).collect();
    put(&mut page, 0, &[900, 800, 0, 700, 600, 500, 400, 300, 200]);
    page[18..20].copy_from_slice(&[0xff, 0xff]);
    let slotted = SlottedPage::parse(Page::from_bytes(4, &page));
    let directory = slotted.directory.clone().unwrap();
    assert_eq!(slotted.page.index(), 4);
    let rows = slotted.row_slots();
    assert_eq!(rows.len(), directory.live_count());
    let mut end = 0xff0;
    for (index, offset, bytes) in rows {
        assert_eq!(directory.slots[index], offset);
        assert_eq!(bytes, &page[offset as usize..end]);
        end = offset as usize;
    }
    assert!(directory.end <= end);
}

fn by_hand(slots: Vec<u16>) -> SlotDirectory {
    SlotDirectory {
        scan_start: 0,
        array_start: 2,
        end: 0,
        slots,
        leading_zero: false,
        big_endian: false,
    }
}

#[test]
fn rows_of_a_directory_made_by_hand() {
    let bytes = vec![1_u8; PAGE_SIZE];
    let mut slotted = SlottedPage {
        page: Page::from_bytes(0, &bytes),
        directory: Some(by_hand(vec![100, 300, 100, 0, 0xff0, 0x1234])),
    };
    let rows: Vec<(usize, u16, usize)> =
        slotted.row_slots().iter().map(|row| (row.0, row.1, row.2.len())).collect();
    assert_eq!(rows, vec![(0, 100, 200), (1, 300, 0xff0 - 300), (2, 100, 200)]);
    assert_eq!(slotted.row_bytes().len(), 3);
    slotted.directory = None;
    assert!(slotted.row_slots().is_empty());
    assert!(slotted.row_bytes().is_empty());
    assert_eq!(by_hand(vec![0, 0]).min_offset(), None);
}

#[test]
fn deleted_slots_stand_between_live_ones() {
    let cases: [(&[u16], usize); 8] = [
        (&[400, 0, 300, 0, 0], 1),
        (&[0, 0, 400, 0, 0, 300, 0, 200, 0], 3),
        (&[400, 300], 0),
        (&[400, 0, 0], 0),
        (&[0, 0, 400], 0),
        (&[400], 0),
        (&[0, 0, 0], 0),
        (&[], 0),
    ];
    for (slots, expected) in cases {
        assert_eq!(by_hand(slots.to_vec()).deleted_count(), expected);
    }
}

#[test]
fn a_zero_filled_gap_after_the_array_deletes_nothing() {
    let mut page = vec![0_u8; PAGE_SIZE];
    put(&mut page, 0, &[3000, 2900, 0, 2800, 2700, 2600, 2500, 2400, 2300]);
    let directory = scan_from(&page, 0, false).unwrap();
    assert!(directory.slots.len() > 9);
    assert_eq!(directory.live_count(), 8);
    assert_eq!(directory.deleted_count(), 1);
}

#[test]
fn prefixes_are_reported_unless_all_zero() {
    let mut bytes = vec![0_u8; PAGE_SIZE];
    assert_eq!(SlottedPage::parse(Page::from_bytes(0, &bytes)).unclassified_prefix(), None);
    put(&mut bytes, 20, &[900, 800, 700, 600, 500, 400, 300, 200, 0xffff]);
    assert_eq!(SlottedPage::parse(Page::from_bytes(0, &bytes)).unclassified_prefix(), None);
    bytes[3] = 0xff;
    let slotted = SlottedPage::parse(Page::from_bytes(0, &bytes));
    let prefix = slotted.unclassified_prefix();
    assert_eq!(prefix, Some(&bytes[..slotted.directory.as_ref().unwrap().array_start]));
    assert_eq!(slotted.overflow_prefix(), prefix);
}
