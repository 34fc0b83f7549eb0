//! Materialized table pages, told by their bytes.
//!
//! [`crate::materialized_page`] says what its parser checks, in its order. Here
//! a page is told by what must stand where, and each refusal by the first thing
//! that does not.
use vstd::prelude::*;

use crate::materialized_page;
use crate::materialized_page::{MaterializedPageError, RowRecordView};

verus! {

/// The number that two bytes of a page spell, the lower byte first.
pub open spec fn number_at(page: Seq<u8>, at: int) -> int {
    page[at] + 0x100 * page[at + 1]
}

/// How many entries the directory declares.
pub open spec fn entries(page: Seq<u8>) -> int {
    number_at(page, 0x16)
}

/// Where the row of a record begins, by its entry.
pub open spec fn row_start(page: Seq<u8>, record: int) -> int {
    0x1c + number_at(page, 0x1c + 2 * record)
}

/// Whether an entry is in use.
pub open spec fn is_in_use(page: Seq<u8>, record: int) -> bool {
    number_at(page, 0x1c + 2 * record) != 0
}

/// Whether the row of a record stands behind the directory and declares a
/// length that holds its own two bytes and ends inside the page.
pub open spec fn has_whole_row(page: Seq<u8>, record: int) -> bool {
    let start = row_start(page, record);
    &&& 0x1c + 2 * entries(page) <= start
    &&& start + 2 <= page.len()
    &&& 2 <= number_at(page, start)
    &&& start + number_at(page, start) <= page.len()
}

/// Whether bytes have the length, the type and the directory of a table page.
pub open spec fn has_directory(page: Seq<u8>) -> bool {
    &&& page.len() == 4096
    &&& page[0x10] == 4
    &&& 0x1c + 2 * entries(page) <= 4096
}

/// Whether bytes are a table page: every entry that is in use has a whole row.
pub open spec fn is_table_page(page: Seq<u8>) -> bool {
    &&& has_directory(page)
    &&& forall|record: int|
        0 <= record < entries(page) && is_in_use(page, record) ==> #[trigger] has_whole_row(
            page,
            record,
        )
}

/// Why the row of a record is not whole, if it is not.
pub open spec fn row_fault(page: Seq<u8>, record: int) -> MaterializedPageError {
    let entry = number_at(page, 0x1c + 2 * record);
    let start = 0x1c + entry;
    if 0x1c + 2 * entries(page) <= start <= page.len() {
        MaterializedPageError::InvalidRecordLength {
            record_id: record as u16,
            directory_offset: entry as u16,
            declared: if start + 2 <= page.len() {
                number_at(page, start) as usize
            } else {
                0
            },
            available: (page.len() - start) as usize,
        }
    } else {
        MaterializedPageError::RecordOutOfBounds {
            record_id: record as u16,
            directory_offset: entry as u16,
        }
    }
}

proof fn lemma_row_of(page: Seq<u8>, record: int)
    requires
        0 <= record < 0x1_0000,
    ensures
        materialized_page::row_of(page, record as u16) == if has_whole_row(page, record) {
            Ok::<Seq<u8>, MaterializedPageError>(
                page.subrange(
                    row_start(page, record),
                    row_start(page, record) + number_at(page, row_start(page, record)),
                ),
            )
        } else {
            Err(row_fault(page, record))
        },
{
}

proof fn lemma_rows_are_whole(page: Seq<u8>, n: int)
    requires
        0 <= n <= 0x1_0000,
    ensures
        materialized_page::row_failure(page, n) is None <==> forall|record: int|
            0 <= record < n && is_in_use(page, record) ==> #[trigger] has_whole_row(page, record),
    decreases n,
{
    if n > 0 {
        lemma_rows_are_whole(page, n - 1);
        lemma_row_of(page, n - 1);
        assert(is_in_use(page, n - 1) <==> materialized_page::entry_of(page, n - 1) != 0);
        if is_in_use(page, n - 1) && !has_whole_row(page, n - 1) {
            assert(!(forall|record: int|
                0 <= record < n && is_in_use(page, record) ==> #[trigger] has_whole_row(
                    page,
                    record,
                )));
        }
    }
}

/// Exactly the table pages are accepted.
pub proof fn exactly_the_table_pages_are_accepted(page: Seq<u8>)
    ensures
        materialized_page::page_failure(page) is None <==> is_table_page(page),
{
    lemma_rows_are_whole(page, materialized_page::record_count_of(page));
}

/// What has no directory is refused for the first thing that it lacks: its
/// length, its type, or room for its directory.
pub proof fn pages_without_a_directory_are_refused(page: Seq<u8>)
    requires
        !has_directory(page),
    ensures
        materialized_page::page_failure(page) == Some(
            if page.len() != 4096 {
                MaterializedPageError::InvalidPageLength { actual: page.len() as usize }
            } else if page[0x10] != 4 {
                MaterializedPageError::WrongPageType { actual: page[0x10] }
            } else {
                MaterializedPageError::DirectoryOutOfBounds {
                    record_count: entries(page) as u16,
                }
            },
        ),
{
}

/// The first record in use without a whole row is what a page is refused for.
pub proof fn the_first_broken_row_is_reported(page: Seq<u8>, record: int)
    requires
        has_directory(page),
        0 <= record < entries(page),
        is_in_use(page, record),
        !has_whole_row(page, record),
        forall|earlier: int|
            0 <= earlier < record && is_in_use(page, earlier) ==> #[trigger] has_whole_row(
                page,
                earlier,
            ),
    ensures
        materialized_page::page_failure(page) == Some(row_fault(page, record)),
{
    lemma_rows_are_whole(page, record);
    lemma_row_of(page, record);
    materialized_page::lemma_row_failure_remains(page, record + 1, entries(page));
}

/// What an identifier selects: nothing outside the directory, nothing where the
/// entry is not in use, and otherwise the whole row, with its entry and its
/// place in the page.
pub proof fn records_are_selected_by_their_entry(page: Seq<u8>, record: u16)
    requires
        is_table_page(page),
    ensures
        ({
            let selected = materialized_page::selected_record(page, record);
            let start = row_start(page, record as int);
            if record >= entries(page) {
                selected == Err::<RowRecordView, MaterializedPageError>(
                    MaterializedPageError::RecordIdOutOfRange {
                        record_id: record,
                        record_count: entries(page) as u16,
                    },
                )
            } else if !is_in_use(page, record as int) {
                selected == Err::<RowRecordView, MaterializedPageError>(
                    MaterializedPageError::MissingRecord { record_id: record },
                )
            } else {
                selected == Ok::<RowRecordView, MaterializedPageError>(
                    RowRecordView {
                        record_id: record,
                        directory_offset: (start - 0x1c) as u16,
                        byte_offset: start,
                        bytes: page.subrange(start, start + number_at(page, start)),
                    },
                )
            }
        }),
{
    lemma_row_of(page, record as int);
    if record < entries(page) && is_in_use(page, record as int) {
        assert(has_whole_row(page, record as int));
    }
}

/// The key of a page is what its first four bytes spell, the lowest byte first.
pub proof fn keys_stand_first(page: Seq<u8>)
    ensures
        crate::bytes::le32(page, materialized_page::PAGE_KEY_OFFSET as int) == number_at(page, 0)
            + 0x1_0000 * number_at(page, 2),
{
}

} // verus!
