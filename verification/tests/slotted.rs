use opensqlany::slotted::TRAILER_START;
use opensqlany::{find_slot_directory, scan_from, Page, SlottedPage};

fn put_slots(page: &mut [u8], start: usize, slots: &[u16], big_endian: bool) {
    for (index, slot) in slots.iter().enumerate() {
        let offset = start + index * 2;
        let bytes = if big_endian {
            slot.to_be_bytes()
        } else {
            slot.to_le_bytes()
        };
        page[offset..offset + 2].copy_from_slice(&bytes);
    }
}

#[test]
fn rejects_directory_that_overlaps_its_first_live_row() {
    let mut page = vec![0_u8; 4096];
    // The directory occupies 20..36, but its smallest claimed row starts
    // at 33, inside the directory itself.
    put_slots(&mut page, 20, &[40, 39, 38, 37, 36, 35, 34, 33], false);

    assert!(scan_from(&page, 20, false).is_none());
}

#[test]
fn keeps_valid_directory_when_an_overlapping_false_one_precedes_it() {
    let mut page = vec![0_u8; 4096];
    put_slots(&mut page, 20, &[40, 39, 38, 37, 36, 35, 34, 33], false);
    put_slots(
        &mut page,
        200,
        &[1000, 950, 900, 850, 800, 750, 700, 650],
        false,
    );
    // A non-slot metadata word terminates the otherwise-zero-filled
    // synthetic directory.
    page[216..218].copy_from_slice(&u16::MAX.to_le_bytes());

    let directory = find_slot_directory(&page).expect("valid directory");
    assert_eq!(directory.array_start, 200);
    assert_eq!(directory.end, 216);
    assert_eq!(directory.min_offset(), Some(650));
    assert!(!directory.big_endian);
}

#[test]
fn parses_big_endian_directory_and_preserves_its_byte_order() {
    let mut page = vec![0_u8; 4096];
    put_slots(
        &mut page,
        0,
        &[
            0x0ea1, 0x0e84, 0x0e67, 0x0e4a, 0x0e2d, 0x0e10, 0x0df3, 0x0dd6,
        ],
        true,
    );
    page[16..18].copy_from_slice(&u16::MAX.to_be_bytes());

    let directory = find_slot_directory(&page).expect("big-endian directory");
    assert_eq!(directory.array_start, 0);
    assert_eq!(directory.slots[0], 0x0ea1);
    assert_eq!(directory.min_offset(), Some(0x0dd6));
    assert!(directory.big_endian);
}

#[test]
fn rejects_big_endian_directory_that_overlaps_its_first_live_row() {
    let mut page = vec![0_u8; 4096];
    put_slots(&mut page, 20, &[40, 39, 38, 37, 36, 35, 34, 33], true);

    assert!(scan_from(&page, 20, true).is_none());
}

#[test]
fn row_bytes_preserves_slot_array_order_while_using_address_order_for_bounds() {
    let mut page = vec![0_u8; 4096];
    let slots = [400_u16, 300, 200, 100, 90, 80, 70, 60];
    put_slots(&mut page, 0, &slots, false);
    page[16..18].copy_from_slice(&u16::MAX.to_le_bytes());
    page[60..70].fill(1);
    page[70..80].fill(2);
    page[80..90].fill(3);
    page[90..100].fill(4);
    page[100..200].fill(5);
    page[200..300].fill(6);
    page[300..400].fill(7);
    page[400..TRAILER_START].fill(8);

    let parsed = SlottedPage::parse(Page::from_bytes(0, &page));
    let rows = parsed.row_bytes();
    assert_eq!(
        rows.iter().map(|(offset, _)| *offset).collect::<Vec<_>>(),
        slots
    );
    assert_eq!(rows[0].1, &page[400..TRAILER_START]);
    assert_eq!(rows[7].1, &page[60..70]);
    assert_eq!(
        parsed
            .row_slots()
            .iter()
            .map(|(slot_index, _, _)| *slot_index)
            .collect::<Vec<_>>(),
        (0..slots.len()).collect::<Vec<_>>(),
    );
}

#[test]
fn row_slots_retains_indices_after_deleted_entries() {
    let mut page = vec![0_u8; 4096];
    put_slots(
        &mut page,
        0,
        &[400, 300, 0, 200, 100, 90, 80, 70, 60],
        false,
    );
    page[18..20].copy_from_slice(&u16::MAX.to_le_bytes());
    let parsed = SlottedPage::parse(Page::from_bytes(0, &page));
    assert_eq!(
        parsed
            .row_slots()
            .iter()
            .map(|(slot_index, _, _)| *slot_index)
            .collect::<Vec<_>>(),
        vec![0, 1, 3, 4, 5, 6, 7, 8],
    );
}
