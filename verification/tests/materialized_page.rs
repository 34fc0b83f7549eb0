use opensqlany::materialized_page::{
    DIRECTORY_ENTRY_LEN, DIRECTORY_OFFSET, PAGE_TYPE_OFFSET, RECORD_COUNT_OFFSET,
};
use opensqlany::{
    MaterializedPageError, MaterializedTablePage, RowSegmentError, MATERIALIZED_TABLE_PAGE_LEN,
    MATERIALIZED_TABLE_PAGE_TYPE, ROW_SEGMENT_CONTINUED,
};

fn synthetic_page(key: u32, record_count: u16) -> [u8; MATERIALIZED_TABLE_PAGE_LEN] {
    let mut page = [0_u8; MATERIALIZED_TABLE_PAGE_LEN];
    page[..4].copy_from_slice(&key.to_le_bytes());
    page[PAGE_TYPE_OFFSET] = MATERIALIZED_TABLE_PAGE_TYPE;
    page[RECORD_COUNT_OFFSET..RECORD_COUNT_OFFSET + 2]
        .copy_from_slice(&record_count.to_le_bytes());
    page
}

fn set_record(page: &mut [u8], record_id: u16, relative_offset: u16, segment: &[u8]) {
    let entry = DIRECTORY_OFFSET + usize::from(record_id) * DIRECTORY_ENTRY_LEN;
    page[entry..entry + 2].copy_from_slice(&relative_offset.to_le_bytes());
    let start = DIRECTORY_OFFSET + usize::from(relative_offset);
    page[start..start + segment.len()].copy_from_slice(segment);
}

#[test]
fn parses_synthetic_page_4296_record_17_metadata_without_payload_fixture() {
    let mut bytes = synthetic_page(4296, 18);
    set_record(&mut bytes, 17, 128, &[3, 0, 0]);

    let page = MaterializedTablePage::parse(&bytes).expect("type-4 page");
    let record = page.record(17).expect("record 17");
    assert_eq!(page.key(), 4296);
    assert_eq!(page.record_count(), 18);
    assert_eq!(record.record_id(), 17);
    assert_eq!(record.directory_offset(), 128);
    assert_eq!(record.byte_offset(), DIRECTORY_OFFSET + 128);
    assert_eq!(record.declared_len(), 3);
    assert_eq!(record.bytes(), &[3, 0, 0]);
    assert!(matches!(
        record.as_row_segment(),
        Ok(segment) if segment.flags() == 0 && segment.payload().is_empty()
    ));
}

#[test]
fn parses_synthetic_page_3980_record_16_continuation_metadata() {
    let mut bytes = synthetic_page(3980, 17);
    set_record(
        &mut bytes,
        16,
        160,
        &[
            9,
            0,
            ROW_SEGMENT_CONTINUED,
            0x78,
            0x56,
            0x34,
            0x12,
            0xCD,
            0xAB,
        ],
    );

    let record = MaterializedTablePage::parse(&bytes)
        .expect("type-4 page")
        .record(16)
        .expect("record 16");
    assert_eq!(record.record_id(), 16);
    assert_eq!(record.directory_offset(), 160);
    assert_eq!(record.byte_offset(), DIRECTORY_OFFSET + 160);
    assert_eq!(record.declared_len(), 9);
    assert_eq!(record.bytes()[2], ROW_SEGMENT_CONTINUED);
    assert_eq!(
        record.as_row_segment().unwrap().next_target(),
        Some(opensqlany::ContinuationTarget::new(0x1234_5678, 0xABCD))
    );
}

#[test]
fn rejects_non_materialized_length_and_type() {
    assert_eq!(
        MaterializedTablePage::parse(&[0; MATERIALIZED_TABLE_PAGE_LEN - 1]),
        Err(MaterializedPageError::InvalidPageLength {
            actual: MATERIALIZED_TABLE_PAGE_LEN - 1,
        })
    );
    let mut bytes = synthetic_page(1, 0);
    bytes[PAGE_TYPE_OFFSET] = 3;
    assert_eq!(
        MaterializedTablePage::parse(&bytes),
        Err(MaterializedPageError::WrongPageType { actual: 3 })
    );
}

#[test]
fn accepts_bounded_rows_that_are_not_row_segments() {
    let mut bytes = synthetic_page(1, 1);
    set_record(&mut bytes, 0, 128, &[2, 0, 0]);

    let record = MaterializedTablePage::parse(&bytes)
        .unwrap()
        .record(0)
        .unwrap();
    assert_eq!(record.bytes(), &[2, 0]);
    assert_eq!(
        record.as_row_segment(),
        Err(RowSegmentError::MissingHeader { available: 2 })
    );
}

#[test]
fn rejects_record_id_outside_directory_and_zero_directory_entry() {
    let bytes = synthetic_page(1, 2);
    let page = MaterializedTablePage::parse(&bytes).expect("empty entries are valid");

    assert_eq!(
        page.record(2),
        Err(MaterializedPageError::RecordIdOutOfRange {
            record_id: 2,
            record_count: 2,
        })
    );
    assert_eq!(
        page.record(1),
        Err(MaterializedPageError::MissingRecord { record_id: 1 })
    );
}

#[test]
fn rejects_directory_offset_that_cannot_address_a_row_length() {
    let mut bytes = synthetic_page(1, 1);
    let relative_offset = (MATERIALIZED_TABLE_PAGE_LEN - DIRECTORY_OFFSET - 2) as u16;
    let entry = DIRECTORY_OFFSET;
    bytes[entry..entry + 2].copy_from_slice(&relative_offset.to_le_bytes());

    assert_eq!(
        MaterializedTablePage::parse(&bytes),
        Err(MaterializedPageError::InvalidRecordLength {
            record_id: 0,
            directory_offset: relative_offset,
            declared: 0,
            available: 2,
        })
    );
}

#[test]
fn eagerly_rejects_a_record_offset_inside_its_directory() {
    let mut bytes = synthetic_page(1, 2);
    // The two entries occupy 0x1c..0x20; a relative offset of two points
    // at 0x1e, inside that directory rather than at a row body.
    bytes[DIRECTORY_OFFSET..DIRECTORY_OFFSET + 2].copy_from_slice(&2_u16.to_le_bytes());

    assert_eq!(
        MaterializedTablePage::parse(&bytes),
        Err(MaterializedPageError::RecordOutOfBounds {
            record_id: 0,
            directory_offset: 2,
        })
    );
}
