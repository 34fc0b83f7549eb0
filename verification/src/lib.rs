//! SAP SQL Anywhere page-store reader.
//!
//! This crate parses the on-disk page-store format of SAP SQL Anywhere
//! (initially targeting SA17 build 2182, 2015 release). It provides:
//!
//! * [`PageStore`]: zero-copy random access to 4 KiB pages.
//! * [`SlottedPage`]: descending row-offset-array catalog-page parser.
//! * [`find_page_link_metadata`] and [`walk_page_links`]: page-link blocks and
//!   bounded walks along them.
//! * [`permute_power_of_two_in_place`]: the in-place sector permutation.
//! * [`MaterializedTablePage`]: records of a materialized type-4 table page.
//! * [`RowSegment`] and [`walk_row_segment_chain`]: physical row segments and
//!   their continuation chains.
//! * [`decode_row`] and its variants: typed rows of a schema that the caller
//!   supplies.
//!
//! # Scope
//!
//! The crate covers the page-store layer plus conservative, schema-driven
//! typed-row and page-link primitives. It does not discover table ownership,
//! resolve overflow/LONG values, or interpret an application catalog; those
//! responsibilities remain with a dialect-specific caller.

pub mod bytes;
pub mod date;
pub mod decimal;
pub mod decode_error;
pub mod error;
pub mod field;
pub mod field_grammar;
pub mod link_grammar;
pub mod materialized_page;
pub mod messages;
pub mod page;
pub mod page_links;
pub mod page_permutation;
pub mod permutation_walk;
pub mod row_decoder;
pub mod row_faults;
pub mod row_grammar;
pub mod row_segment;
pub mod schema;
pub mod segment_grammar;
pub mod slot_grammar;
pub mod slotted;
pub mod store;
pub mod superblock;
pub mod table_page_grammar;
pub mod text;
pub mod value;

pub use date::{SaDate, SaDateTime};
pub use decimal::Decimal;
pub use decode_error::DecodeError;
pub use error::Error;
pub use materialized_page::{
    MaterializedPageError, MaterializedRecord, MaterializedRowRecord, MaterializedTablePage,
    MATERIALIZED_TABLE_PAGE_LEN, MATERIALIZED_TABLE_PAGE_TYPE,
};
pub use page::{Page, PAGE_SIZE};
pub use page_links::{
    find_page_link_metadata, follow_page_link, walk_page_links, PageLinkMetadata, PageLinkTarget,
    PageLinkWalk, PageLinkWalkStop,
};
pub use page_permutation::{
    permute_power_of_two_in_place, permute_sector_in_place, PagePermutationError,
    PAGE_PERMUTATION_SECTOR_LEN,
};
pub use row_decoder::{
    decode_materialized_row_record_exact, decode_row, decode_row_exact,
    decode_row_prefix_and_boolean_tail, ROW_FLAG_OVERFLOW, ROW_FLAG_REFERENCE,
    ROW_FLAG_REFERENCE_DESTINATION, ROW_SIZE_MASK,
};
pub use row_segment::{
    append_row_segment, parse_row_segment, walk_row_segment_chain, ContinuationTarget, RowSegment,
    RowSegmentChain, RowSegmentChainError, RowSegmentChainLimits, RowSegmentChainSegment,
    RowSegmentError, CONTINUED_ROW_SEGMENT_HEADER_LEN, ROW_SEGMENT_CONTINUED,
    ROW_SEGMENT_HEADER_LEN,
};
pub use schema::{
    legacy_syscolumn_schema, legacy_systable_schema, BooleanTailLayout, ColumnDef, ColumnType,
    EnumLayout, NullBitmapCoverage, NullBitmapLayout, NumericLayout, RowPrefixLayout, RowSchema,
    VariableLengthLayout, VariableOverflowLayout,
};
pub use slotted::{find_slot_directory, scan_from, SlotDirectory, SlottedPage};
pub use store::{
    accept_snapshot, plan_snapshot, validate_store_size, PageStore, Pages, SnapshotRefusal,
};
pub use superblock::{Superblock, SuperblockFormat};
pub use value::{DecodedRow, EnterpriseNumericToken, PartialDecodedRow, PartialRowValue, Value};
