//! Parser for an already-materialized SA17 type-4 table page.
//!
//! This module accepts only a caller-supplied 4096-byte in-memory page whose
//! type byte is already `4`. It does not map file bytes to that representation,
//! choose an owner, or assign a table to the page.
use vstd::prelude::*;
use vstd::slice;

use crate::bytes;
use crate::row_segment;
use crate::row_segment::{RowSegment, RowSegmentError};
use crate::text;

verus! {

/// Exact byte length of the materialized table-page representation.
pub const MATERIALIZED_TABLE_PAGE_LEN: usize = 4096;

/// Required type byte at offset `0x10` of a materialized table page.
pub const MATERIALIZED_TABLE_PAGE_TYPE: u8 = 4;

/// Offset of the page key.
pub const PAGE_KEY_OFFSET: usize = 0;

/// Offset of the page type.
pub const PAGE_TYPE_OFFSET: usize = 0x10;

/// Offset of the number of directory entries.
pub const RECORD_COUNT_OFFSET: usize = 0x16;

/// Offset of the record directory, to which its entries are relative.
pub const DIRECTORY_OFFSET: usize = 0x1c;

/// Bytes of one directory entry.
pub const DIRECTORY_ENTRY_LEN: usize = 2;

// ---------------------------------------------------------------------------
// The page grammar
// ---------------------------------------------------------------------------

/// Declared number of directory entries.
pub open spec fn record_count_of(page: Seq<u8>) -> int {
    bytes::le16(page, RECORD_COUNT_OFFSET as int)
}

/// Where the directory ends.
pub open spec fn directory_end_of(page: Seq<u8>) -> int {
    DIRECTORY_OFFSET + DIRECTORY_ENTRY_LEN * record_count_of(page)
}

/// The directory entry of a record.
pub open spec fn entry_of(page: Seq<u8>, record_id: int) -> int {
    bytes::le16(page, DIRECTORY_OFFSET + DIRECTORY_ENTRY_LEN * record_id)
}

/// The physical row that a nonzero directory entry selects, or why it selects
/// none.
pub open spec fn row_of(page: Seq<u8>, record_id: u16) -> Result<Seq<u8>, MaterializedPageError> {
    let directory_offset = entry_of(page, record_id as int) as u16;
    let start = DIRECTORY_OFFSET + directory_offset;
    let available = page.len() - start;
    let declared = bytes::le16(page, start);
    if start < directory_end_of(page) || start > page.len() {
        Err(MaterializedPageError::RecordOutOfBounds { record_id, directory_offset })
    } else if available < 2 {
        Err(
            MaterializedPageError::InvalidRecordLength {
                record_id,
                directory_offset,
                declared: 0,
                available: available as usize,
            },
        )
    } else if declared < 2 || declared > available {
        Err(
            MaterializedPageError::InvalidRecordLength {
                record_id,
                directory_offset,
                declared: declared as usize,
                available: available as usize,
            },
        )
    } else {
        Ok(page.subrange(start, start + declared))
    }
}

/// The first failure among the nonzero entries of the first `n` records.
pub open spec fn row_failure(page: Seq<u8>, n: int) -> Option<MaterializedPageError>
    decreases n,
{
    if n <= 0 {
        None
    } else {
        match row_failure(page, n - 1) {
            Some(error) => Some(error),
            None => if entry_of(page, n - 1) == 0 {
                None
            } else {
                match row_of(page, (n - 1) as u16) {
                    Ok(_) => None,
                    Err(error) => Some(error),
                }
            },
        }
    }
}

/// Why `page` is not a materialized table page, if it is not.
pub open spec fn page_failure(page: Seq<u8>) -> Option<MaterializedPageError> {
    if page.len() != MATERIALIZED_TABLE_PAGE_LEN {
        Some(MaterializedPageError::InvalidPageLength { actual: page.len() as usize })
    } else if page[PAGE_TYPE_OFFSET as int] != MATERIALIZED_TABLE_PAGE_TYPE {
        Some(MaterializedPageError::WrongPageType { actual: page[PAGE_TYPE_OFFSET as int] })
    } else if directory_end_of(page) > page.len() {
        Some(
            MaterializedPageError::DirectoryOutOfBounds {
                record_count: record_count_of(page) as u16,
            },
        )
    } else {
        row_failure(page, record_count_of(page))
    }
}

/// The record that an identifier selects in a page, or why it selects none.
pub open spec fn selected_record(page: Seq<u8>, record_id: u16) -> Result<
    RowRecordView,
    MaterializedPageError,
> {
    if record_id >= record_count_of(page) {
        Err(
            MaterializedPageError::RecordIdOutOfRange {
                record_id,
                record_count: record_count_of(page) as u16,
            },
        )
    } else if entry_of(page, record_id as int) == 0 {
        Err(MaterializedPageError::MissingRecord { record_id })
    } else {
        match row_of(page, record_id) {
            Err(error) => Err(error),
            Ok(row) => Ok(
                RowRecordView {
                    record_id,
                    directory_offset: entry_of(page, record_id as int) as u16,
                    byte_offset: DIRECTORY_OFFSET + entry_of(page, record_id as int),
                    bytes: row,
                },
            ),
        }
    }
}

// ---------------------------------------------------------------------------
// Pages
// ---------------------------------------------------------------------------

/// A checked, already-materialized type-4 page.
///
/// Its `key` is an opaque page-local value from offset zero. It is not claimed
/// to be a raw QBW page number, table identifier, or file offset.
#[derive(Debug, Clone, Copy, PartialEq, Eq)]
pub struct MaterializedTablePage<'a> {
    bytes: &'a [u8],
    key: u32,
    record_count: u16,
}

impl<'a> View for MaterializedTablePage<'a> {
    type V = Seq<u8>;

    closed spec fn view(&self) -> Seq<u8> {
        self.bytes@
    }
}

/// The bytes of a parsed page, or the error.
pub open spec fn parsed_page(result: Result<MaterializedTablePage<'_>, MaterializedPageError>) -> Result<
    Seq<u8>,
    MaterializedPageError,
> {
    match result {
        Ok(page) => Ok(page@),
        Err(error) => Err(error),
    }
}

/// A selected record as a specification sees it.
pub open spec fn record_view(result: Result<MaterializedRowRecord<'_>, MaterializedPageError>) -> Result<
    RowRecordView,
    MaterializedPageError,
> {
    match result {
        Ok(record) => Ok(record@),
        Err(error) => Err(error),
    }
}

impl<'a> MaterializedTablePage<'a> {
    #[verifier::type_invariant]
    spec fn well_formed(self) -> bool {
        &&& page_failure(self.bytes@) is None
        &&& self.key == bytes::le32(self.bytes@, PAGE_KEY_OFFSET as int)
        &&& self.record_count == record_count_of(self.bytes@)
    }

    /// Parse and fully validate an already-materialized 4096-byte type-4 page.
    ///
    /// Every nonzero directory entry is checked as a bounded physical row
    /// record: its little-endian `u16` must exactly bound the record within
    /// this page. Bytes after that length are intentionally not treated as a
    /// [`RowSegment`] header: their carrier grammar is table-specific and a
    /// first post-length byte can coincidentally look like a segment flag.
    /// Zero directory entries remain unavailable records because the proven
    /// runtime resolver rejects a requested zero entry.
    pub fn parse(bytes: &'a [u8]) -> (result: Result<Self, MaterializedPageError>)
        ensures
            parsed_page(result) == match page_failure(bytes@) {
                None => Ok(bytes@),
                Some(error) => Err(error),
            },
    {
        if bytes.len() != MATERIALIZED_TABLE_PAGE_LEN {
            return Err(MaterializedPageError::InvalidPageLength { actual: bytes.len() });
        }
        let page_type: u8 = bytes[PAGE_TYPE_OFFSET];
        if page_type != MATERIALIZED_TABLE_PAGE_TYPE {
            return Err(MaterializedPageError::WrongPageType { actual: page_type });
        }
        let key: u32 = bytes::read_le32(bytes, PAGE_KEY_OFFSET);
        let record_count: u16 = bytes::read_le16(bytes, RECORD_COUNT_OFFSET);
        if directory_end(record_count) > bytes.len() {
            return Err(MaterializedPageError::DirectoryOutOfBounds { record_count });
        }
        let mut record_id: u16 = 0;
        while record_id < record_count
            invariant
                record_id <= record_count,
                record_count == record_count_of(bytes@),
                directory_end_of(bytes@) <= bytes@.len(),
                row_failure(bytes@, record_id as int) is None,
                bytes@.len() == MATERIALIZED_TABLE_PAGE_LEN,
                bytes@[PAGE_TYPE_OFFSET as int] == MATERIALIZED_TABLE_PAGE_TYPE,
            decreases record_count - record_id,
        {
            let offset: u16 = directory_entry(bytes, record_id);
            if offset != 0 {
                match row_at(bytes, record_count, record_id, offset) {
                    Ok(_) => {},
                    Err(error) => {
                        proof {
                            lemma_row_failure_remains(
                                bytes@,
                                record_id + 1,
                                record_count as int,
                            );
                        }
                        return Err(error);
                    },
                }
            }
            record_id = record_id + 1;
        }
        Ok(MaterializedTablePage { bytes, key, record_count })
    }

    /// Opaque little-endian key stored at page offset zero.
    pub fn key(self) -> (key: u32)
        ensures
            key == bytes::le32(self@, PAGE_KEY_OFFSET as int),
            page_failure(self@) is None,
    {
        proof {
            use_type_invariant(&self);
        }
        self.key
    }

    /// Number of directory entries at page offset `0x1c`.
    pub fn record_count(self) -> (count: u16)
        ensures
            count == record_count_of(self@),
            page_failure(self@) is None,
    {
        proof {
            use_type_invariant(&self);
        }
        self.record_count
    }

    /// Return one checked record selected by its directory identifier.
    pub fn record(self, record_id: u16) -> (result: Result<
        MaterializedRowRecord<'a>,
        MaterializedPageError,
    >)
        ensures
            record_view(result) == selected_record(self@, record_id),
            page_failure(self@) is None,
    {
        proof {
            use_type_invariant(&self);
        }
        if record_id >= self.record_count {
            return Err(
                MaterializedPageError::RecordIdOutOfRange {
                    record_id,
                    record_count: self.record_count,
                },
            );
        }
        let offset: u16 = directory_entry(self.bytes, record_id);
        if offset == 0 {
            return Err(MaterializedPageError::MissingRecord { record_id });
        }
        match row_at(self.bytes, self.record_count, record_id, offset) {
            Err(error) => Err(error),
            Ok((byte_offset, bytes)) => Ok(
                MaterializedRowRecord { record_id, directory_offset: offset, byte_offset, bytes },
            ),
        }
    }
}

fn directory_end(record_count: u16) -> (end: usize)
    ensures
        end == DIRECTORY_OFFSET + DIRECTORY_ENTRY_LEN * record_count,
{
    DIRECTORY_OFFSET + DIRECTORY_ENTRY_LEN * (record_count as usize)
}

fn directory_entry(page: &[u8], record_id: u16) -> (entry: u16)
    requires
        record_id < record_count_of(page@),
        directory_end_of(page@) <= page@.len(),
    ensures
        entry == entry_of(page@, record_id as int),
{
    bytes::read_le16(page, DIRECTORY_OFFSET + DIRECTORY_ENTRY_LEN * (record_id as usize))
}

fn row_at<'a>(page: &'a [u8], record_count: u16, record_id: u16, directory_offset: u16) -> (r:
    Result<(usize, &'a [u8]), MaterializedPageError>)
    requires
        record_count == record_count_of(page@),
        directory_offset == entry_of(page@, record_id as int),
    ensures
        match r {
            Ok((start, row)) => start == DIRECTORY_OFFSET + directory_offset && row_of(
                page@,
                record_id,
            ) == Ok::<Seq<u8>, MaterializedPageError>(row@),
            Err(error) => row_of(page@, record_id) == Err::<Seq<u8>, MaterializedPageError>(error),
        },
{
    let start: usize = DIRECTORY_OFFSET + directory_offset as usize;
    if start < directory_end(record_count) || start > page.len() {
        return Err(MaterializedPageError::RecordOutOfBounds { record_id, directory_offset });
    }
    let available: usize = page.len() - start;
    if available < 2 {
        return Err(
            MaterializedPageError::InvalidRecordLength {
                record_id,
                directory_offset,
                declared: 0,
                available,
            },
        );
    }
    let declared: usize = bytes::read_le16(page, start) as usize;
    if declared < 2 || declared > available {
        return Err(
            MaterializedPageError::InvalidRecordLength {
                record_id,
                directory_offset,
                declared,
                available,
            },
        );
    }
    Ok((start, slice::slice_subrange(page, start, start + declared)))
}

/// A failure among some records remains the failure of more of them.
pub(crate) proof fn lemma_row_failure_remains(page: Seq<u8>, m: int, n: int)
    requires
        m <= n,
        row_failure(page, m) is Some,
    ensures
        row_failure(page, n) == row_failure(page, m),
    decreases n,
{
    if m < n {
        lemma_row_failure_remains(page, m, n - 1);
    }
}

// ---------------------------------------------------------------------------
// Records
// ---------------------------------------------------------------------------

/// A checked physical row record selected from a [`MaterializedTablePage`]
/// directory.
///
/// The leading two bytes are a bounded little-endian total length. No
/// interpretation of bytes after that length is implied. In particular,
/// application table rows may use a table-specific carrier grammar rather
/// than the header of [`RowSegment`].
#[derive(Debug, Clone, Copy, PartialEq, Eq)]
pub struct MaterializedRowRecord<'a> {
    record_id: u16,
    directory_offset: u16,
    byte_offset: usize,
    bytes: &'a [u8],
}

/// What a record says.
#[verifier::ext_equal]
pub ghost struct RowRecordView {
    pub record_id: u16,
    pub directory_offset: u16,
    pub byte_offset: int,
    pub bytes: Seq<u8>,
}

impl<'a> View for MaterializedRowRecord<'a> {
    type V = RowRecordView;

    closed spec fn view(&self) -> RowRecordView {
        RowRecordView {
            record_id: self.record_id,
            directory_offset: self.directory_offset,
            byte_offset: self.byte_offset as int,
            bytes: self.bytes@,
        }
    }
}

impl<'a> MaterializedRowRecord<'a> {
    /// Identifier used to select this record in its page-local directory.
    pub fn record_id(self) -> (id: u16)
        ensures
            id == self@.record_id,
    {
        self.record_id
    }

    /// Raw `u16` directory value, relative to page offset `0x1c`.
    pub fn directory_offset(self) -> (offset: u16)
        ensures
            offset == self@.directory_offset,
    {
        self.directory_offset
    }

    /// Checked resolved byte offset within the materialized page.
    ///
    /// This is `0x1c + directory_offset`; it is not a raw QBW file offset.
    pub fn byte_offset(self) -> (offset: usize)
        ensures
            offset == self@.byte_offset,
    {
        self.byte_offset
    }

    /// Checked physical row length, including its little-endian `u16` header.
    pub fn declared_len(self) -> (len: usize)
        ensures
            len == self@.bytes.len(),
    {
        self.bytes.len()
    }

    /// Checked raw row bytes, including its two-byte length header.
    pub fn bytes(self) -> (bytes: &'a [u8])
        ensures
            bytes@ == self@.bytes,
    {
        self.bytes
    }

    /// Explicitly parse this record as an SA17 row segment.
    ///
    /// This is not performed automatically because a materialized table row's
    /// post-length carrier grammar is not inferred. Call it only when
    /// independent evidence establishes the row-segment carrier.
    pub fn as_row_segment(self) -> (result: Result<RowSegment<'a>, RowSegmentError>)
        ensures
            row_segment::parsed(result) == row_segment::first_segment(self@.bytes),
    {
        RowSegment::parse(self.bytes)
    }
}

/// Short name for a materialized physical row record.
///
/// [`MaterializedRowRecord`] makes clear that no row-segment payload or
/// continuation semantics are inferred.
pub type MaterializedRecord<'a> = MaterializedRowRecord<'a>;

// ---------------------------------------------------------------------------
// Errors
// ---------------------------------------------------------------------------

/// Failure while parsing or selecting a materialized type-4 page record.
#[derive(Debug, Clone, Copy, PartialEq, Eq, Structural)]
pub enum MaterializedPageError {
    /// The supplied representation is not exactly 4096 bytes.
    InvalidPageLength {
        /// Bytes supplied by the caller.
        actual: usize,
    },
    /// The page's type byte at offset `0x10` is not the required value `4`.
    WrongPageType {
        /// Type byte found in the supplied page.
        actual: u8,
    },
    /// The record directory cannot fit in the supplied fixed-size page.
    DirectoryOutOfBounds {
        /// Declared number of directory entries.
        record_count: u16,
    },
    /// The requested record identifier is not in the declared directory.
    RecordIdOutOfRange {
        /// Requested page-local record identifier.
        record_id: u16,
        /// Declared number of directory entries.
        record_count: u16,
    },
    /// A requested directory entry is zero and therefore unavailable.
    MissingRecord {
        /// Requested page-local record identifier.
        record_id: u16,
    },
    /// A nonzero directory offset cannot address this page.
    RecordOutOfBounds {
        /// Page-local record identifier.
        record_id: u16,
        /// Raw directory offset relative to page offset `0x1c`.
        directory_offset: u16,
    },
    /// A nonzero directory entry does not contain a complete bounded row.
    InvalidRecordLength {
        /// Page-local record identifier.
        record_id: u16,
        /// Raw directory offset relative to page offset `0x1c`.
        directory_offset: u16,
        /// Length read from the record's first two bytes, or zero when those
        /// two bytes were unavailable.
        declared: usize,
        /// Bytes available from the directory-selected offset to page end.
        available: usize,
    },
}

impl MaterializedPageError {
    /// What [`Self::to_string`] renders.
    pub open spec fn text(self) -> Seq<char> {
        match self {
            MaterializedPageError::InvalidPageLength { actual } => {
                "materialized table page needs exactly 4096 bytes, got "@
                    + text::decimal_text(actual as nat)
            },
            MaterializedPageError::WrongPageType { actual } => {
                "materialized table page has type "@
                    + text::decimal_text(actual as nat)
                    + ", want 4"@
            },
            MaterializedPageError::DirectoryOutOfBounds { record_count } => {
                "materialized table page directory for "@
                    + text::decimal_text(record_count as nat)
                    + " records is out of bounds"@
            },
            MaterializedPageError::RecordIdOutOfRange { record_id, record_count } => {
                "record id "@
                    + text::decimal_text(record_id as nat)
                    + " is outside a "@
                    + text::decimal_text(record_count as nat)
                    + "-entry materialized page directory"@
            },
            MaterializedPageError::MissingRecord { record_id } => {
                "record id "@
                    + text::decimal_text(record_id as nat)
                    + " is unavailable in the materialized page"@
            },
            MaterializedPageError::RecordOutOfBounds { record_id, directory_offset } => {
                "record id "@
                    + text::decimal_text(record_id as nat)
                    + " has out-of-bounds directory offset "@
                    + text::decimal_text(directory_offset as nat)
            },
            MaterializedPageError::InvalidRecordLength { record_id, directory_offset, .. } => {
                "record id "@
                    + text::decimal_text(record_id as nat)
                    + " at directory offset "@
                    + text::decimal_text(directory_offset as nat)
                    + " has invalid bounded-row length"@
            },
        }
    }

    /// A description of the failure.
    pub fn to_string(&self) -> (out: String)
        ensures
            out@ == self.text(),
    {
        let mut out: String = String::new();
        match self {
            MaterializedPageError::InvalidPageLength { actual } => {
                out.append("materialized table page needs exactly 4096 bytes, got ");
                text::append_decimal(&mut out, *actual as u64);
            },
            MaterializedPageError::WrongPageType { actual } => {
                out.append("materialized table page has type ");
                text::append_decimal(&mut out, *actual as u64);
                out.append(", want 4");
            },
            MaterializedPageError::DirectoryOutOfBounds { record_count } => {
                out.append("materialized table page directory for ");
                text::append_decimal(&mut out, *record_count as u64);
                out.append(" records is out of bounds");
            },
            MaterializedPageError::RecordIdOutOfRange { record_id, record_count } => {
                out.append("record id ");
                text::append_decimal(&mut out, *record_id as u64);
                out.append(" is outside a ");
                text::append_decimal(&mut out, *record_count as u64);
                out.append("-entry materialized page directory");
            },
            MaterializedPageError::MissingRecord { record_id } => {
                out.append("record id ");
                text::append_decimal(&mut out, *record_id as u64);
                out.append(" is unavailable in the materialized page");
            },
            MaterializedPageError::RecordOutOfBounds { record_id, directory_offset } => {
                out.append("record id ");
                text::append_decimal(&mut out, *record_id as u64);
                out.append(" has out-of-bounds directory offset ");
                text::append_decimal(&mut out, *directory_offset as u64);
            },
            MaterializedPageError::InvalidRecordLength { record_id, directory_offset, .. } => {
                out.append("record id ");
                text::append_decimal(&mut out, *record_id as u64);
                out.append(" at directory offset ");
                text::append_decimal(&mut out, *directory_offset as u64);
                out.append(" has invalid bounded-row length");
            },
        }
        assert(out@ =~= self.text());
        out
    }
}

// ---------------------------------------------------------------------------
// Laws
// ---------------------------------------------------------------------------

/// A parsed page hands out every record of its directory: a zero entry is
/// missing, and any other entry selects a row that carries its own length and
/// lies between the directory and the end of the page.
pub proof fn parsed_pages_hand_out_every_record(page: Seq<u8>, record_id: u16)
    requires
        page_failure(page) is None,
        record_id < record_count_of(page),
    ensures
        match selected_record(page, record_id) {
            Err(error) => entry_of(page, record_id as int) == 0 && error
                == (MaterializedPageError::MissingRecord { record_id }),
            Ok(record) => {
                &&& record.record_id == record_id
                &&& record.directory_offset == entry_of(page, record_id as int)
                &&& record.directory_offset != 0
                &&& record.bytes.len() >= 2
                &&& bytes::le16(record.bytes, 0) == record.bytes.len()
                &&& directory_end_of(page) <= record.byte_offset
                &&& record.byte_offset + record.bytes.len() <= page.len()
                &&& record.bytes == page.subrange(
                    record.byte_offset,
                    record.byte_offset + record.bytes.len(),
                )
            },
        },
{
    if row_failure(page, record_id + 1) is Some {
        lemma_row_failure_remains(page, record_id + 1, record_count_of(page));
    }
}

} // verus!
