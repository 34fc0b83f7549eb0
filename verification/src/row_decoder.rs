//! Typed SQL Anywhere row decoding.
//!
//! This module deliberately decodes only the self-contained part of an SA
//! row.  It never follows overflow or row-reference pointers: callers must
//! provide a verified resolver for those records before treating them as
//! application data.
//!
//! A direct row is a little-endian `u16` whose low thirteen bits are the row's
//! length, optional carrier bytes, a null bitmap, the present fields in schema
//! order and, in the tail layouts, a Boolean sidecar.
use vstd::prelude::*;
use vstd::slice;

use crate::bytes;
use crate::decode_error::DecodeError;
use crate::field;
use crate::row_segment;
use crate::row_segment::{ContinuationTarget, RowSegment};
use crate::schema;
use crate::schema::{BooleanTailLayout, ColumnType, NullBitmapCoverage, NullBitmapLayout, RowSchema};
use crate::value;
use crate::value::{
    DecodedRow, DecodedRowView, PartialDecodedRow, PartialDecodedRowView, PartialRowValue,
    PartialRowValueView, Value, ValueView,
};

verus! {

/// Mask for the low thirteen row-size bits.
pub const ROW_SIZE_MASK: u16 = 0x1fff;

/// Row contains an overflow fragment or pointer.
pub const ROW_FLAG_OVERFLOW: u16 = 0x2000;

/// Row is a pointer to another row.
pub const ROW_FLAG_REFERENCE: u16 = 0x4000;

/// Row is the destination of a row reference.
pub const ROW_FLAG_REFERENCE_DESTINATION: u16 = 0x8000;

// ---------------------------------------------------------------------------
// Bits
// ---------------------------------------------------------------------------

/// Weight of the bit with the given number, counted from the least
/// significant one.
pub open spec fn bit_weight(number: int) -> int {
    if number == 0 {
        1
    } else if number == 1 {
        2
    } else if number == 2 {
        4
    } else if number == 3 {
        8
    } else if number == 4 {
        16
    } else if number == 5 {
        32
    } else if number == 6 {
        64
    } else {
        128
    }
}

/// The bit at `position` of a bitmap that begins at `at`.
pub open spec fn bitmap_bit(row: Seq<u8>, at: int, position: int, msb_first: bool) -> bool {
    let number = if msb_first {
        7 - position % 8
    } else {
        position % 8
    };
    (row[at + position / 8] as int / bit_weight(number)) % 2 == 1
}

/// Number of bytes of a bitmap.
pub open spec fn bitmap_len(bits: int) -> int {
    (bits + 7) / 8
}

fn read_bit(row: &[u8], at: usize, position: usize, msb_first: bool) -> (bit: bool)
    requires
        at + position / 8 < row@.len(),
    ensures
        bit == bitmap_bit(row@, at as int, position as int, msb_first),
{
    assert(row@.len() == row.len());
    let number: usize = if msb_first {
        7 - position % 8
    } else {
        position % 8
    };
    let weight: u8 = match number {
        0 => 1,
        1 => 2,
        2 => 4,
        3 => 8,
        4 => 16,
        5 => 32,
        6 => 64,
        _ => 128,
    };
    (row[at + position / 8] / weight) % 2 == 1
}

fn bytes_for_bits(bits: usize) -> (len: usize)
    ensures
        len == bitmap_len(bits as int),
{
    if bits % 8 == 0 {
        bits / 8
    } else {
        bits / 8 + 1
    }
}

// ---------------------------------------------------------------------------
// Row header and null bitmap
// ---------------------------------------------------------------------------

/// The declared row size of a row header.
pub open spec fn declared_size(input: Seq<u8>) -> int {
    bytes::le16(input, 0) % 0x2000
}

/// Where the null bitmap begins.
pub open spec fn bitmap_start(schema: RowSchema) -> int {
    2 + schema.row_prefix_layout.byte_count()
}

/// Where the first field begins.
pub open spec fn fields_start(schema: RowSchema) -> int {
    bitmap_start(schema) + bitmap_len(schema.bitmap_bits())
}

/// The null-bitmap position of a column.
pub open spec fn bitmap_position(schema: RowSchema, index: int) -> int {
    match schema.null_bitmap_coverage {
        NullBitmapCoverage::NullableColumns => schema::nullable_among(schema.columns@, index),
        NullBitmapCoverage::AllColumns => index,
    }
}

/// Whether the null bitmap counts bits from the most significant one.
pub open spec fn bitmap_msb_first(layout: NullBitmapLayout) -> bool {
    layout is MsbPresent || layout is MsbNull
}

/// Whether a set bit of the null bitmap means that the field is present.
pub open spec fn bitmap_set_means_present(layout: NullBitmapLayout) -> bool {
    layout is MsbPresent || layout is LsbPresent
}

/// Whether a column has a value in the row.
pub open spec fn is_present(row: Seq<u8>, schema: RowSchema, index: int) -> bool {
    schema.columns@[index].nullable ==> {
        let layout = schema.null_bitmap_layout;
        let set = bitmap_bit(
            row,
            bitmap_start(schema),
            bitmap_position(schema, index),
            bitmap_msb_first(layout),
        );
        set == bitmap_set_means_present(layout)
    }
}

/// Which columns have a value in the row.
pub open spec fn presence(row: Seq<u8>, schema: RowSchema) -> Seq<bool> {
    Seq::new(schema.columns@.len(), |i: int| is_present(row, schema, i))
}

/// The declared row inside `input`, or why its header is refused.
pub open spec fn declared_row(input: Seq<u8>, schema: RowSchema) -> Result<Seq<u8>, DecodeError> {
    if input.len() < 2 {
        Err(DecodeError::MissingRowHeader)
    } else {
        let declared = declared_size(input);
        let flags = bytes::le16(input, 0) - declared;
        if declared < 2 || declared > input.len() {
            Err(
                DecodeError::InvalidRowSize {
                    declared: declared as usize,
                    available: input.len() as usize,
                },
            )
        } else if flags != 0 {
            Err(DecodeError::UnsupportedRowFlags(flags as u16))
        } else if declared < fields_start(schema) {
            Err(
                DecodeError::Truncated {
                    column: 0,
                    needed: (fields_start(schema) - 2) as usize,
                    remaining: (declared - 2) as usize,
                },
            )
        } else {
            Ok(input.take(declared))
        }
    }
}

/// Validate the row header and decide which columns are present.
fn row_header_and_presence<'a>(input: &'a [u8], schema: &RowSchema) -> (frame: Result<
    (&'a [u8], usize, Vec<bool>),
    DecodeError,
>)
    ensures
        match frame {
            Ok((row, start, present)) => {
                &&& declared_row(input@, *schema) == Ok::<Seq<u8>, DecodeError>(row@)
                &&& start == fields_start(*schema)
                &&& present@ == presence(row@, *schema)
            },
            Err(error) => declared_row(input@, *schema) == Err::<Seq<u8>, DecodeError>(error),
        },
{
    if input.len() < 2 {
        return Err(DecodeError::MissingRowHeader);
    }
    let raw_size: u16 = bytes::read_le16(input, 0);
    let declared: usize = (raw_size % 0x2000) as usize;
    if declared < 2 || declared > input.len() {
        return Err(DecodeError::InvalidRowSize { declared, available: input.len() });
    }
    let flags: u16 = raw_size - raw_size % 0x2000;
    if flags != 0 {
        return Err(DecodeError::UnsupportedRowFlags(flags));
    }
    let prefix_len: usize = schema.row_prefix_layout.len();
    let null_bytes: usize = bytes_for_bits(schema.null_bitmap_bit_count());
    if declared < 2 + prefix_len + null_bytes {
        return Err(
            DecodeError::Truncated {
                column: 0,
                needed: prefix_len + null_bytes,
                remaining: declared - 2,
            },
        );
    }
    let row: &'a [u8] = slice::slice_subrange(input, 0, declared);
    assert(row@ =~= input@.take(declared as int));
    let msb_first: bool = match schema.null_bitmap_layout {
        NullBitmapLayout::MsbPresent | NullBitmapLayout::MsbNull => true,
        NullBitmapLayout::LsbPresent | NullBitmapLayout::LsbNull => false,
    };
    let set_means_present: bool = match schema.null_bitmap_layout {
        NullBitmapLayout::MsbPresent | NullBitmapLayout::LsbPresent => true,
        NullBitmapLayout::MsbNull | NullBitmapLayout::LsbNull => false,
    };
    let mut nullable_index: usize = 0;
    let mut present: Vec<bool> = Vec::new();
    let mut index: usize = 0;
    while index < schema.columns.len()
        invariant
            index <= schema.columns@.len(),
            row@.len() == declared,
            2 + prefix_len + null_bytes <= declared,
            2 + prefix_len == bitmap_start(*schema),
            null_bytes == bitmap_len(schema.bitmap_bits()),
            msb_first == bitmap_msb_first(schema.null_bitmap_layout),
            set_means_present == bitmap_set_means_present(schema.null_bitmap_layout),
            nullable_index == schema::nullable_among(schema.columns@, index as int),
            nullable_index <= index,
            present@.len() == index,
            forall|i: int| 0 <= i < index ==> present@[i] == is_present(row@, *schema, i),
        decreases schema.columns@.len() - index,
    {
        let nullable: bool = schema.columns[index].nullable;
        let position: usize = match schema.null_bitmap_coverage {
            NullBitmapCoverage::NullableColumns => nullable_index,
            NullBitmapCoverage::AllColumns => index,
        };
        let is_present_here: bool = if nullable {
            proof {
                schema::lemma_nullable_among(
                    schema.columns@,
                    index + 1,
                    schema.columns@.len() as int,
                );
                assert(position < schema.bitmap_bits());
                assert(position / 8 < null_bytes);
            }
            read_bit(row, 2 + prefix_len, position, msb_first) == set_means_present
        } else {
            true
        };
        present.push(is_present_here);
        if nullable {
            nullable_index = nullable_index + 1;
        }
        index = index + 1;
    }
    assert(present@ =~= presence(row@, *schema));
    Ok((row, 2 + prefix_len + null_bytes, present))
}

// ---------------------------------------------------------------------------
// Booleans
// ---------------------------------------------------------------------------

/// Whether a column is Boolean and has a value.
pub open spec fn present_boolean(schema: RowSchema, present: Seq<bool>, index: int) -> bool {
    schema.columns@[index].column_type is Boolean && present[index]
}

/// Number of present Boolean columns among the first `n`.
pub open spec fn booleans_among(schema: RowSchema, present: Seq<bool>, n: int) -> int
    decreases n,
{
    if n <= 0 {
        0
    } else {
        booleans_among(schema, present, n - 1) + if present_boolean(schema, present, n - 1) {
            1int
        } else {
            0
        }
    }
}

/// First column of the run of present Boolean columns around `index`.
pub open spec fn run_start(schema: RowSchema, present: Seq<bool>, index: int) -> int
    decreases index,
{
    if index > 0 && present_boolean(schema, present, index - 1) {
        run_start(schema, present, index - 1)
    } else {
        index
    }
}

/// Column after the run of present Boolean columns around `index`.
pub open spec fn run_end(schema: RowSchema, present: Seq<bool>, index: int) -> int
    decreases schema.columns@.len() - index,
{
    if index < schema.columns@.len() && present_boolean(schema, present, index) {
        run_end(schema, present, index + 1)
    } else {
        index
    }
}

/// Number of bytes of the run of present Boolean columns around `index`.
pub open spec fn run_len(schema: RowSchema, present: Seq<bool>, index: int) -> int {
    bitmap_len(run_end(schema, present, index) - run_start(schema, present, index))
}

/// The Boolean that a byte represents.
pub open spec fn boolean_byte(column: int, value: u8) -> Result<bool, DecodeError> {
    if value > 1 {
        Err(DecodeError::InvalidBooleanByte { column: column as usize, value })
    } else {
        Ok(value == 1)
    }
}

/// The Boolean that a `u16` represents.
pub open spec fn boolean_u16(column: int, value: u16) -> Result<bool, DecodeError> {
    if value > 1 {
        Err(DecodeError::InvalidBooleanU16 { column: column as usize, value })
    } else {
        Ok(value == 1)
    }
}

fn decode_boolean_byte(column: usize, value: u8) -> (r: Result<bool, DecodeError>)
    ensures
        r == boolean_byte(column as int, value),
{
    match value {
        0 => Ok(false),
        1 => Ok(true),
        _ => Err(DecodeError::InvalidBooleanByte { column, value }),
    }
}

fn decode_boolean_u16(column: usize, value: u16) -> (r: Result<bool, DecodeError>)
    ensures
        r == boolean_u16(column as int, value),
{
    match value {
        0 => Ok(false),
        1 => Ok(true),
        _ => Err(DecodeError::InvalidBooleanU16 { column, value }),
    }
}

/// What a present Boolean column stores at its ordinal: nothing in the tail
/// layouts, where its value follows later.
///
/// A packed run stores its bytes at its first column, so that at a later
/// column of the run they end at `at`.
pub open spec fn boolean_field(
    row: Seq<u8>,
    at: int,
    index: int,
    schema: RowSchema,
    present: Seq<bool>,
) -> field::Field {
    let len = run_len(schema, present, index);
    let first = run_start(schema, present, index);
    match schema.boolean_tail {
        BooleanTailLayout::Bytes | BooleanTailLayout::PackedMsbFirst => Ok((ValueView::Null, at)),
        BooleanTailLayout::InlineBytes => if !field::fits(row, at, 1) {
            Err(field::truncated(row, at, index, 1))
        } else {
            match boolean_byte(index, row[at]) {
                Ok(b) => Ok((ValueView::Boolean(b), at + 1)),
                Err(error) => Err(error),
            }
        },
        BooleanTailLayout::InlineU16Le => if !field::fits(row, at, 2) {
            Err(field::truncated(row, at, index, 2))
        } else {
            match boolean_u16(index, bytes::le16(row, at) as u16) {
                Ok(b) => Ok((ValueView::Boolean(b), at + 2)),
                Err(error) => Err(error),
            }
        },
        BooleanTailLayout::InlinePackedRunsMsbFirst
        | BooleanTailLayout::InlinePackedRunsLsbFirst => {
            let msb_first = schema.boolean_tail is InlinePackedRunsMsbFirst;
            if index != first {
                Ok((ValueView::Boolean(bitmap_bit(row, at - len, index - first, msb_first)), at))
            } else if !field::fits(row, at, len) {
                Err(field::truncated(row, at, index, len))
            } else {
                Ok((ValueView::Boolean(bitmap_bit(row, at, 0, msb_first)), at + len))
            }
        },
    }
}

// ---------------------------------------------------------------------------
// Columns in order
// ---------------------------------------------------------------------------

/// What a column contributes at its ordinal.
#[verifier::opaque]
pub open spec fn column_field(
    row: Seq<u8>,
    at: int,
    index: int,
    schema: RowSchema,
    present: Seq<bool>,
) -> field::Field {
    if !present[index] {
        Ok((ValueView::Null, at))
    } else if schema.columns@[index].column_type is Boolean {
        boolean_field(row, at, index, schema, present)
    } else {
        field::non_boolean_field(row, at, index, schema.columns@[index], schema)
    }
}

/// The values of the first `n` columns at their ordinals with the position
/// after them, or the first failure. Fields that are not Boolean have to end
/// at or before `limit`.
pub open spec fn leading_columns(
    row: Seq<u8>,
    schema: RowSchema,
    present: Seq<bool>,
    limit: int,
    n: int,
) -> Result<(Seq<ValueView>, int), DecodeError>
    decreases n,
{
    if n <= 0 {
        Ok((Seq::empty(), fields_start(schema)))
    } else {
        match leading_columns(row, schema, present, limit, n - 1) {
            Err(error) => Err(error),
            Ok((values, at)) => match column_field(row, at, n - 1, schema, present) {
                Err(error) => Err(error),
                Ok((value, next)) => if next > limit && present[n - 1]
                    && schema.columns@[n - 1].column_type !is Boolean {
                    Err(DecodeError::PrefixOverlapsBooleanTail { column: (n - 1) as usize })
                } else {
                    Ok((values.push(value), next))
                },
            },
        }
    }
}

// ---------------------------------------------------------------------------
// The Boolean sidecar
// ---------------------------------------------------------------------------

/// Number of sidecar bytes after the fields.
pub open spec fn tail_len(schema: RowSchema, present: Seq<bool>) -> int {
    let count = booleans_among(schema, present, schema.columns@.len() as int);
    match schema.boolean_tail {
        BooleanTailLayout::Bytes => count,
        BooleanTailLayout::PackedMsbFirst => bitmap_len(count),
        _ => 0,
    }
}

/// The value of a present Boolean column in a sidecar that begins at `tail`.
pub open spec fn tail_boolean(
    row: Seq<u8>,
    tail: int,
    index: int,
    schema: RowSchema,
    present: Seq<bool>,
) -> Result<bool, DecodeError> {
    let ordinal = booleans_among(schema, present, index);
    if schema.boolean_tail is Bytes {
        boolean_byte(index, row[tail + ordinal])
    } else {
        Ok(bitmap_bit(row, tail, ordinal, true))
    }
}

/// The first failure among the sidecar values of the first `n` columns.
pub open spec fn tail_failure(
    row: Seq<u8>,
    tail: int,
    schema: RowSchema,
    present: Seq<bool>,
    n: int,
) -> Option<DecodeError>
    decreases n,
{
    if n <= 0 {
        None
    } else {
        match tail_failure(row, tail, schema, present, n - 1) {
            Some(error) => Some(error),
            None => if present_boolean(schema, present, n - 1) {
                match tail_boolean(row, tail, n - 1, schema, present) {
                    Ok(_) => None,
                    Err(error) => Some(error),
                }
            } else {
                None
            },
        }
    }
}

/// `values` with those of the present Boolean columns read from a sidecar that
/// begins at `tail`.
pub open spec fn with_tail(
    row: Seq<u8>,
    tail: int,
    schema: RowSchema,
    present: Seq<bool>,
    values: Seq<ValueView>,
) -> Seq<ValueView> {
    Seq::new(
        values.len(),
        |i: int|
            if present_boolean(schema, present, i) {
                ValueView::Boolean(tail_boolean(row, tail, i, schema, present)->Ok_0)
            } else {
                values[i]
            },
    )
}

// ---------------------------------------------------------------------------
// Whole rows
// ---------------------------------------------------------------------------

/// The row that `input` decodes to, or why it does not.
pub open spec fn decoded_row(input: Seq<u8>, schema: RowSchema) -> Result<
    DecodedRowView,
    DecodeError,
> {
    match declared_row(input, schema) {
        Err(error) => Err(error),
        Ok(row) => {
            let present = presence(row, schema);
            let n = schema.columns@.len() as int;
            match leading_columns(row, schema, present, row.len() as int, n) {
                Err(error) => Err(error),
                Ok((values, tail)) => {
                    let needed = tail_len(schema, present);
                    if tail + needed > row.len() {
                        Err(
                            DecodeError::TruncatedBooleanTail {
                                needed: needed as usize,
                                remaining: (row.len() - tail) as usize,
                            },
                        )
                    } else if schema.boolean_tail.in_tail() {
                        match tail_failure(row, tail, schema, present, n) {
                            Some(error) => Err(error),
                            None => Ok(
                                row_view(
                                    row,
                                    tail + needed,
                                    with_tail(row, tail, schema, present, values),
                                ),
                            ),
                        }
                    } else {
                        Ok(row_view(row, tail, values))
                    }
                },
            }
        },
    }
}

/// A decoded row made of its parts.
pub open spec fn row_view(row: Seq<u8>, consumed: int, values: Seq<ValueView>) -> DecodedRowView {
    DecodedRowView {
        declared_size: row.len() as int,
        consumed_size: consumed,
        flags: 0,
        values,
    }
}

/// The row that `input` decodes to without bytes left over, or why not.
pub open spec fn exact_row(input: Seq<u8>, schema: RowSchema) -> Result<
    DecodedRowView,
    DecodeError,
> {
    match decoded_row(input, schema) {
        Err(error) => Err(error),
        Ok(row) => if row.consumed_size != row.declared_size {
            Err(
                DecodeError::TrailingData {
                    remaining: (row.declared_size - row.consumed_size) as usize,
                },
            )
        } else {
            Ok(row)
        },
    }
}

/// The values of the columns that are not Boolean among the first `n`, with
/// their provenance.
pub open spec fn prefix_entries(schema: RowSchema, values: Seq<ValueView>, n: int) -> Seq<
    PartialRowValueView,
>
    decreases n,
{
    if n <= 0 {
        Seq::empty()
    } else {
        let before = prefix_entries(schema, values, n - 1);
        if schema.columns@[n - 1].column_type is Boolean {
            before
        } else {
            before.push(entry(schema, values, n - 1))
        }
    }
}

/// The values of the present Boolean columns among the first `n`, with their
/// provenance.
pub open spec fn boolean_entries(
    schema: RowSchema,
    present: Seq<bool>,
    values: Seq<ValueView>,
    n: int,
) -> Seq<PartialRowValueView>
    decreases n,
{
    if n <= 0 {
        Seq::empty()
    } else {
        let before = boolean_entries(schema, present, values, n - 1);
        if present_boolean(schema, present, n - 1) {
            before.push(entry(schema, values, n - 1))
        } else {
            before
        }
    }
}

/// The value of one column with its provenance.
pub open spec fn entry(schema: RowSchema, values: Seq<ValueView>, index: int) -> PartialRowValueView {
    PartialRowValueView {
        column_index: index,
        column_id: schema.columns@[index].id,
        value: values[index],
    }
}

/// What a sidecar that begins at `tail` says of every present Boolean column.
pub open spec fn tail_values(
    row: Seq<u8>,
    tail: int,
    schema: RowSchema,
    present: Seq<bool>,
) -> Seq<ValueView> {
    Seq::new(
        schema.columns@.len(),
        |i: int| ValueView::Boolean(tail_boolean(row, tail, i, schema, present)->Ok_0),
    )
}

/// The prefix through a one-based ordinal that `input` decodes to, or why it
/// does not.
///
/// The sidecar of a tail layout is taken to be the last bytes of the row.
pub open spec fn partial_row(input: Seq<u8>, schema: RowSchema, through_ordinal: u32) -> Result<
    PartialDecodedRowView,
    DecodeError,
> {
    let n = schema.columns@.len() as int;
    let through = through_ordinal as int;
    if through == 0 || through > n {
        Err(
            DecodeError::PrefixOrdinalOutOfRange {
                ordinal: through_ordinal,
                column_count: n as usize,
            },
        )
    } else {
        match declared_row(input, schema) {
            Err(error) => Err(error),
            Ok(row) => {
                let present = presence(row, schema);
                let needed = tail_len(schema, present);
                let tail = row.len() - needed;
                if fields_start(schema) > tail {
                    Err(
                        DecodeError::TruncatedBooleanTail {
                            needed: needed as usize,
                            remaining: (row.len() - fields_start(schema)) as usize,
                        },
                    )
                } else {
                    match leading_columns(row, schema, present, tail, through) {
                        Err(error) => Err(error),
                        Ok((values, at)) => if schema.boolean_tail.in_tail() {
                            match tail_failure(row, tail, schema, present, n) {
                                Some(error) => Err(error),
                                None => Ok(
                                    PartialDecodedRowView {
                                        declared_size: row.len() as int,
                                        flags: 0,
                                        through_ordinal,
                                        prefix_values: prefix_entries(schema, values, through),
                                        boolean_values: boolean_entries(
                                            schema,
                                            present,
                                            tail_values(row, tail, schema, present),
                                            n,
                                        ),
                                        opaque_middle_len: tail - at,
                                    },
                                ),
                            }
                        } else {
                            Ok(
                                PartialDecodedRowView {
                                    declared_size: row.len() as int,
                                    flags: 0,
                                    through_ordinal,
                                    prefix_values: prefix_entries(schema, values, through),
                                    boolean_values: boolean_entries(
                                        schema,
                                        present,
                                        values,
                                        through,
                                    ),
                                    opaque_middle_len: tail - at,
                                },
                            )
                        },
                    }
                }
            },
        }
    }
}

/// The direct row around a payload: its size, and the payload.
pub open spec fn direct_row(payload: Seq<u8>) -> Seq<u8> {
    let size = payload.len() + 2;
    seq![(size % 256) as u8, (size / 256) as u8] + payload
}

/// The row that a materialized carrier decodes to, or why it does not.
pub open spec fn materialized_row(input: Seq<u8>, schema: RowSchema) -> Result<
    DecodedRowView,
    DecodeError,
> {
    match row_segment::first_segment(input) {
        Err(_) => Err(DecodeError::MissingRowHeader),
        Ok(segment) => if segment.len() != input.len() {
            Err(
                DecodeError::TrailingMaterializedRowCarrier {
                    remaining: (input.len() - segment.len()) as usize,
                },
            )
        } else if row_segment::continued(segment[2]) {
            Err(DecodeError::ContinuedMaterializedRowCarrier)
        } else if segment[2] != 0 {
            Err(DecodeError::UnsupportedMaterializedRowCarrierFlags { flags: segment[2] })
        } else {
            exact_row(direct_row(row_segment::payload_of(segment)), schema)
        },
    }
}

/// A partially decoded row as a specification sees it.
pub open spec fn partial_view(result: Result<PartialDecodedRow, DecodeError>) -> Result<
    PartialDecodedRowView,
    DecodeError,
> {
    match result {
        Ok(row) => Ok(row@),
        Err(error) => Err(error),
    }
}

/// A decoded row as a specification sees it.
pub open spec fn decoded_view(result: Result<DecodedRow, DecodeError>) -> Result<
    DecodedRowView,
    DecodeError,
> {
    match result {
        Ok(row) => Ok(row@),
        Err(error) => Err(error),
    }
}

// ---------------------------------------------------------------------------
// Facts about runs, columns and the sidecar
// ---------------------------------------------------------------------------

proof fn lemma_run_bounds(schema: RowSchema, present: Seq<bool>, index: int)
    requires
        0 <= index <= schema.columns@.len(),
    ensures
        0 <= run_start(schema, present, index) <= index,
        index <= run_end(schema, present, index) <= schema.columns@.len(),
        index < schema.columns@.len() && present_boolean(schema, present, index) ==> index
            < run_end(schema, present, index),
{
    lemma_run_start_bounds(schema, present, index);
    lemma_run_end_bounds(schema, present, index);
    if index < schema.columns@.len() {
        lemma_run_end_bounds(schema, present, index + 1);
    }
}

proof fn lemma_run_start_bounds(schema: RowSchema, present: Seq<bool>, index: int)
    requires
        0 <= index,
    ensures
        0 <= run_start(schema, present, index) <= index,
    decreases index,
{
    if index > 0 {
        lemma_run_start_bounds(schema, present, index - 1);
    }
}

proof fn lemma_run_end_bounds(schema: RowSchema, present: Seq<bool>, index: int)
    requires
        index <= schema.columns@.len(),
    ensures
        index <= run_end(schema, present, index) <= schema.columns@.len(),
    decreases schema.columns@.len() - index,
{
    if index < schema.columns@.len() {
        lemma_run_end_bounds(schema, present, index + 1);
    }
}

proof fn lemma_booleans_among(schema: RowSchema, present: Seq<bool>, m: int, n: int)
    requires
        0 <= m <= n,
    ensures
        0 <= booleans_among(schema, present, m) <= booleans_among(schema, present, n),
        booleans_among(schema, present, n) - booleans_among(schema, present, m) <= n - m,
    decreases n,
{
    if m < n {
        lemma_booleans_among(schema, present, m, n - 1);
    } else if n > 0 {
        lemma_booleans_among(schema, present, n - 1, n - 1);
    }
}

/// A failure among the leading columns remains the failure of more columns.
pub(crate) proof fn lemma_failure_remains(
    row: Seq<u8>,
    schema: RowSchema,
    present: Seq<bool>,
    limit: int,
    m: int,
    n: int,
)
    requires
        m <= n,
        leading_columns(row, schema, present, limit, m) is Err,
    ensures
        leading_columns(row, schema, present, limit, n) == leading_columns(
            row,
            schema,
            present,
            limit,
            m,
        ),
    decreases n,
{
    if m < n {
        lemma_failure_remains(row, schema, present, limit, m, n - 1);
    }
}

/// A column ends inside the row.
pub(crate) proof fn lemma_column_bounds(
    row: Seq<u8>,
    at: int,
    index: int,
    schema: RowSchema,
    present: Seq<bool>,
)
    requires
        0 <= at <= row.len(),
        0 <= index < schema.columns@.len(),
    ensures
        column_field(row, at, index, schema, present) matches Ok((_, next)) ==> at <= next
            <= row.len(),
{
    reveal(column_field);
    field::lemma_field_bounds(row, at, index, schema.columns@[index], schema);
    lemma_run_bounds(schema, present, index);
}

/// The leading columns end inside the row.
pub(crate) proof fn lemma_leading_bounds(
    row: Seq<u8>,
    schema: RowSchema,
    present: Seq<bool>,
    limit: int,
    n: int,
)
    requires
        0 <= n <= schema.columns@.len(),
        fields_start(schema) <= row.len(),
    ensures
        leading_columns(row, schema, present, limit, n) matches Ok((values, at)) ==> values.len()
            == n && 0 <= fields_start(schema) <= at <= row.len(),
    decreases n,
{
    schema::lemma_nullable_among(schema.columns@, 0, schema.columns@.len() as int);
    if n > 0 {
        lemma_leading_bounds(row, schema, present, limit, n - 1);
        if let Ok((values, at)) = leading_columns(row, schema, present, limit, n - 1) {
            lemma_column_bounds(row, at, n - 1, schema, present);
        }
    }
}

/// A sidecar failure remains the failure of more columns.
pub(crate) proof fn lemma_tail_failure_remains(
    row: Seq<u8>,
    tail: int,
    schema: RowSchema,
    present: Seq<bool>,
    m: int,
    n: int,
)
    requires
        m <= n,
        tail_failure(row, tail, schema, present, m) is Some,
    ensures
        tail_failure(row, tail, schema, present, n) == tail_failure(row, tail, schema, present, m),
    decreases n,
{
    if m < n {
        lemma_tail_failure_remains(row, tail, schema, present, m, n - 1);
    }
}

// ---------------------------------------------------------------------------
// Decoding
// ---------------------------------------------------------------------------

fn is_present_boolean(schema: &RowSchema, present: &Vec<bool>, index: usize) -> (r: bool)
    requires
        index < schema.columns@.len(),
        present@.len() == schema.columns@.len(),
    ensures
        r == present_boolean(*schema, present@, index as int),
{
    schema.columns[index].column_type == ColumnType::Boolean && present[index]
}

fn inline_boolean_run_end(schema: &RowSchema, present: &Vec<bool>, start: usize) -> (end: usize)
    requires
        start <= schema.columns@.len(),
        present@.len() == schema.columns@.len(),
    ensures
        end == run_end(*schema, present@, start as int),
{
    let mut end: usize = start;
    while end < schema.columns.len() && is_present_boolean(schema, present, end)
        invariant
            start <= end <= schema.columns@.len(),
            present@.len() == schema.columns@.len(),
            run_end(*schema, present@, start as int) == run_end(*schema, present@, end as int),
        decreases schema.columns@.len() - end,
    {
        end = end + 1;
    }
    end
}

/// The bytes of the packed Boolean run that is being read: the column where it
/// starts and the position of its first byte.
#[derive(Clone, Copy)]
struct BooleanRun {
    first: usize,
    base: usize,
}

/// Decode a present Boolean column at its ordinal.
fn decode_boolean(
    row: &[u8],
    cursor: usize,
    index: usize,
    schema: &RowSchema,
    present: &Vec<bool>,
    run: BooleanRun,
) -> (r: Result<(Value, usize, BooleanRun), DecodeError>)
    requires
        cursor <= row@.len(),
        index < schema.columns@.len(),
        present@.len() == schema.columns@.len(),
        present_boolean(*schema, present@, index as int),
        schema.boolean_tail.in_runs() && run_start(*schema, present@, index as int) != index
            ==> run.first == run_start(*schema, present@, index as int) && run.base + run_len(
            *schema,
            present@,
            index as int,
        ) == cursor,
    ensures
        match r {
            Ok((value, next, after)) => {
                &&& boolean_field(row@, cursor as int, index as int, *schema, present@) == Ok::<
                    (ValueView, int),
                    DecodeError,
                >((value@, next as int))
                &&& cursor <= next <= row@.len()
                &&& schema.boolean_tail.in_runs() ==> after.first == run_start(
                    *schema,
                    present@,
                    index as int,
                ) && after.base + run_len(*schema, present@, index as int) == next
            },
            Err(error) => boolean_field(row@, cursor as int, index as int, *schema, present@)
                == Err::<(ValueView, int), DecodeError>(error),
        },
{
    proof {
        lemma_run_bounds(*schema, present@, index as int);
    }
    match schema.boolean_tail {
        BooleanTailLayout::Bytes | BooleanTailLayout::PackedMsbFirst => Ok(
            (Value::Null, cursor, run),
        ),
        BooleanTailLayout::InlineBytes => match field::take(row, cursor, 1, index) {
            Ok(taken) => match decode_boolean_byte(index, taken[0]) {
                Ok(b) => Ok((Value::Boolean(b), cursor + 1, run)),
                Err(error) => Err(error),
            },
            Err(error) => Err(error),
        },
        BooleanTailLayout::InlineU16Le => match field::take(row, cursor, 2, index) {
            Ok(taken) => match decode_boolean_u16(index, bytes::read_le16(taken, 0)) {
                Ok(b) => Ok((Value::Boolean(b), cursor + 2, run)),
                Err(error) => Err(error),
            },
            Err(error) => Err(error),
        },
        BooleanTailLayout::InlinePackedRunsMsbFirst
        | BooleanTailLayout::InlinePackedRunsLsbFirst => {
            let msb_first: bool = schema.boolean_tail
                == BooleanTailLayout::InlinePackedRunsMsbFirst;
            if index > 0 && is_present_boolean(schema, present, index - 1) {
                proof {
                    lemma_run_start_bounds(*schema, present@, index - 1);
                }
                let bit: bool = read_bit(row, run.base, index - run.first, msb_first);
                return Ok((Value::Boolean(bit), cursor, run));
            }
            let end: usize = inline_boolean_run_end(schema, present, index);
            let len: usize = bytes_for_bits(end - index);
            match field::take(row, cursor, len, index) {
                Ok(_) => {
                    let bit: bool = read_bit(row, cursor, 0, msb_first);
                    Ok((
                        Value::Boolean(bit),
                        cursor + len,
                        BooleanRun { first: index, base: cursor },
                    ))
                },
                Err(error) => Err(error),
            }
        },
    }
}

/// Values and position as a specification sees them.
spec fn leading_view(r: Result<(Vec<Value>, usize), DecodeError>) -> Result<
    (Seq<ValueView>, int),
    DecodeError,
> {
    match r {
        Ok((values, next)) => Ok((value::value_views(values@), next as int)),
        Err(error) => Err(error),
    }
}

/// Decode the first `n` columns at their ordinals.
fn decode_leading_columns(
    row: &[u8],
    start: usize,
    schema: &RowSchema,
    present: &Vec<bool>,
    limit: usize,
    n: usize,
) -> (r: Result<(Vec<Value>, usize), DecodeError>)
    requires
        start == fields_start(*schema),
        start <= row@.len(),
        present@.len() == schema.columns@.len(),
        n <= schema.columns@.len(),
    ensures
        leading_view(r) == leading_columns(row@, *schema, present@, limit as int, n as int),
        r matches Ok((values, next)) ==> values@.len() == n && start <= next <= row@.len(),
{
    let mut values: Vec<Value> = Vec::new();
    let mut cursor: usize = start;
    let mut run: BooleanRun = BooleanRun { first: 0, base: 0 };
    let mut index: usize = 0;
    assert(value::value_views(values@) =~= Seq::empty());
    while index < n
        invariant
            index <= n <= schema.columns@.len(),
            present@.len() == schema.columns@.len(),
            values@.len() == index,
            start <= cursor <= row@.len(),
            leading_columns(row@, *schema, present@, limit as int, index as int) == Ok::<
                (Seq<ValueView>, int),
                DecodeError,
            >((value::value_views(values@), cursor as int)),
            schema.boolean_tail.in_runs() && index < schema.columns@.len() && present_boolean(
                *schema,
                present@,
                index as int,
            ) && run_start(*schema, present@, index as int) != index ==> run.first == run_start(
                *schema,
                present@,
                index as int,
            ) && run.base + run_len(*schema, present@, index as int) == cursor,
        decreases n - index,
    {
        let ghost before = value::value_views(values@);
        let ghost at = cursor as int;
        let column = &schema.columns[index];
        proof {
            reveal(column_field);
            field::lemma_field_bounds(row@, at, index as int, *column, *schema);
            lemma_run_start_bounds(*schema, present@, index as int);
            if leading_columns(row@, *schema, present@, limit as int, index + 1) is Err {
                lemma_failure_remains(
                    row@,
                    *schema,
                    present@,
                    limit as int,
                    index + 1,
                    n as int,
                );
            }
        }
        let value: Value = if !present[index] {
            Value::Null
        } else if column.column_type == ColumnType::Boolean {
            match decode_boolean(row, cursor, index, schema, present, run) {
                Ok((value, next, after)) => {
                    cursor = next;
                    run = after;
                    value
                },
                Err(error) => {
                    return Err(error);
                },
            }
        } else {
            match field::decode_non_boolean(row, cursor, index, column, schema) {
                Ok((value, next)) => {
                    if next > limit {
                        return Err(DecodeError::PrefixOverlapsBooleanTail { column: index });
                    }
                    cursor = next;
                    value
                },
                Err(error) => {
                    return Err(error);
                },
            }
        };
        values.push(value);
        assert(value::value_views(values@) =~= before.push(value@));
        index = index + 1;
    }
    Ok((values, cursor))
}

/// Number of present Boolean columns.
fn count_booleans(schema: &RowSchema, present: &Vec<bool>) -> (count: usize)
    requires
        present@.len() == schema.columns@.len(),
    ensures
        count == booleans_among(*schema, present@, schema.columns@.len() as int),
{
    let mut count: usize = 0;
    let mut index: usize = 0;
    while index < schema.columns.len()
        invariant
            index <= schema.columns@.len(),
            present@.len() == schema.columns@.len(),
            count <= index,
            count == booleans_among(*schema, present@, index as int),
        decreases schema.columns@.len() - index,
    {
        if is_present_boolean(schema, present, index) {
            count = count + 1;
        }
        index = index + 1;
    }
    count
}

/// Number of sidecar bytes after the fields.
fn required_tail(schema: &RowSchema, present: &Vec<bool>) -> (len: usize)
    requires
        present@.len() == schema.columns@.len(),
    ensures
        len == tail_len(*schema, present@),
{
    match schema.boolean_tail {
        BooleanTailLayout::Bytes => count_booleans(schema, present),
        BooleanTailLayout::PackedMsbFirst => bytes_for_bits(count_booleans(schema, present)),
        _ => 0,
    }
}

fn is_inline_boolean_layout(layout: BooleanTailLayout) -> (r: bool)
    ensures
        r == !layout.in_tail(),
{
    !matches!(layout, BooleanTailLayout::Bytes | BooleanTailLayout::PackedMsbFirst)
}

/// Read the sidecar: one entry for each column, of which those of the present
/// Boolean columns hold their values.
fn decode_boolean_tail(row: &[u8], tail: usize, schema: &RowSchema, present: &Vec<bool>) -> (r:
    Result<Vec<bool>, DecodeError>)
    requires
        present@.len() == schema.columns@.len(),
        schema.boolean_tail.in_tail(),
        tail + tail_len(*schema, present@) <= row@.len(),
    ensures
        match r {
            Ok(booleans) => {
                &&& tail_failure(
                    row@,
                    tail as int,
                    *schema,
                    present@,
                    schema.columns@.len() as int,
                ) is None
                &&& booleans@.len() == schema.columns@.len()
                &&& forall|i: int|
                    0 <= i < booleans@.len() && present_boolean(*schema, present@, i)
                        ==> tail_boolean(row@, tail as int, i, *schema, present@) == Ok::<
                        bool,
                        DecodeError,
                    >(#[trigger] booleans@[i])
            },
            Err(error) => tail_failure(
                row@,
                tail as int,
                *schema,
                present@,
                schema.columns@.len() as int,
            ) == Some(error),
        },
{
    let mut booleans: Vec<bool> = Vec::new();
    let mut ordinal: usize = 0;
    let mut index: usize = 0;
    while index < schema.columns.len()
        invariant
            index <= schema.columns@.len(),
            present@.len() == schema.columns@.len(),
            schema.boolean_tail.in_tail(),
            tail + tail_len(*schema, present@) <= row@.len(),
            ordinal <= index,
            ordinal == booleans_among(*schema, present@, index as int),
            tail_failure(row@, tail as int, *schema, present@, index as int) is None,
            booleans@.len() == index,
            forall|i: int|
                0 <= i < index && present_boolean(*schema, present@, i) ==> tail_boolean(
                    row@,
                    tail as int,
                    i,
                    *schema,
                    present@,
                ) == Ok::<bool, DecodeError>(#[trigger] booleans@[i]),
        decreases schema.columns@.len() - index,
    {
        proof {
            lemma_booleans_among(
                *schema,
                present@,
                index + 1,
                schema.columns@.len() as int,
            );
            if tail_failure(row@, tail as int, *schema, present@, index + 1) is Some {
                lemma_tail_failure_remains(
                    row@,
                    tail as int,
                    *schema,
                    present@,
                    index + 1,
                    schema.columns@.len() as int,
                );
            }
            assert(row@.len() == row.len());
        }
        if is_present_boolean(schema, present, index) {
            let b: bool = if schema.boolean_tail == BooleanTailLayout::Bytes {
                match decode_boolean_byte(index, row[tail + ordinal]) {
                    Ok(b) => b,
                    Err(error) => {
                        return Err(error);
                    },
                }
            } else {
                read_bit(row, tail, ordinal, true)
            };
            booleans.push(b);
            ordinal = ordinal + 1;
        } else {
            booleans.push(false);
        }
        index = index + 1;
    }
    Ok(booleans)
}

/// Decode a self-contained physical row according to `schema`.
pub fn decode_row(input: &[u8], schema: &RowSchema) -> (result: Result<DecodedRow, DecodeError>)
    ensures
        decoded_view(result) == decoded_row(input@, *schema),
{
    let (row, start, present): (&[u8], usize, Vec<bool>) = match row_header_and_presence(
        input,
        schema,
    ) {
        Ok(frame) => frame,
        Err(error) => {
            return Err(error);
        },
    };
    let (mut values, tail): (Vec<Value>, usize) = match decode_leading_columns(
        row,
        start,
        schema,
        &present,
        row.len(),
        schema.columns.len(),
    ) {
        Ok(leading) => leading,
        Err(error) => {
            return Err(error);
        },
    };
    let needed: usize = required_tail(schema, &present);
    let remaining: usize = row.len() - tail;
    if remaining < needed {
        return Err(DecodeError::TruncatedBooleanTail { needed, remaining });
    }
    if !is_inline_boolean_layout(schema.boolean_tail) {
        let booleans: Vec<bool> = match decode_boolean_tail(row, tail, schema, &present) {
            Ok(booleans) => booleans,
            Err(error) => {
                return Err(error);
            },
        };
        let ghost leading = value::value_views(values@);
        let ghost complete = with_tail(row@, tail as int, *schema, present@, leading);
        let mut index: usize = 0;
        while index < schema.columns.len()
            invariant
                index <= schema.columns@.len(),
                present@.len() == schema.columns@.len(),
                booleans@.len() == schema.columns@.len(),
                values@.len() == schema.columns@.len(),
                leading.len() == schema.columns@.len(),
                complete == with_tail(row@, tail as int, *schema, present@, leading),
                forall|i: int|
                    0 <= i < booleans@.len() && present_boolean(*schema, present@, i)
                        ==> tail_boolean(row@, tail as int, i, *schema, present@) == Ok::<
                        bool,
                        DecodeError,
                    >(#[trigger] booleans@[i]),
                forall|i: int| 0 <= i < index ==> (#[trigger] values@[i])@ == complete[i],
                forall|i: int|
                    index <= i < values@.len() ==> (#[trigger] values@[i])@ == leading[i],
            decreases schema.columns@.len() - index,
        {
            if is_present_boolean(schema, &present, index) {
                values[index] = Value::Boolean(booleans[index]);
            }
            index = index + 1;
        }
        assert(value::value_views(values@) =~= complete);
    }
    Ok(DecodedRow { declared_size: row.len(), consumed_size: tail + needed, flags: 0, values })
}

/// Decode one self-contained physical row and require its schema to consume
/// the complete declared row boundary.
///
/// This is the appropriate entry point only after a caller has independently
/// established that its input is a direct physical-row grammar (leading `u16`
/// size followed by this decoder's null map and field framing). Materialized
/// table carriers must use [`decode_materialized_row_record_exact`] when they
/// have the separately proven `[u16][flag][payload]` envelope.
///
/// The function deliberately does not infer that an arbitrary row segment is
/// a self-contained SQL Anywhere row.  Callers still need table-specific
/// evidence for that carrier relationship and a complete schema.
pub fn decode_row_exact(input: &[u8], schema: &RowSchema) -> (result: Result<
    DecodedRow,
    DecodeError,
>)
    ensures
        decoded_view(result) == exact_row(input@, *schema),
{
    let decoded: DecodedRow = match decode_row(input, schema) {
        Ok(decoded) => decoded,
        Err(error) => {
            return Err(error);
        },
    };
    proof {
        lemma_consumed_within_declared(input@, *schema);
    }
    let remaining: usize = decoded.declared_size - decoded.consumed_size;
    if remaining != 0 {
        return Err(DecodeError::TrailingData { remaining });
    }
    Ok(decoded)
}

/// Give every value of a prefix its provenance: first those of the columns that
/// are not Boolean, then those of the present Boolean columns.
fn with_provenance(schema: &RowSchema, present: &Vec<bool>, values: Vec<Value>) -> (r: (
    Vec<PartialRowValue>,
    Vec<PartialRowValue>,
))
    requires
        present@.len() == schema.columns@.len(),
        values@.len() <= schema.columns@.len(),
    ensures
        value::partial_value_views(r.0@) == prefix_entries(
            *schema,
            value::value_views(values@),
            values@.len() as int,
        ),
        value::partial_value_views(r.1@) == boolean_entries(
            *schema,
            present@,
            value::value_views(values@),
            values@.len() as int,
        ),
{
    let ghost all = value::value_views(values@);
    let mut left: Vec<Value> = values;
    let mut others: Vec<PartialRowValue> = Vec::new();
    let mut booleans: Vec<PartialRowValue> = Vec::new();
    let mut index: usize = 0;
    assert(value::partial_value_views(others@) =~= Seq::empty());
    while index < left.len()
        invariant
            left@.len() == values@.len(),
            index <= left@.len() <= schema.columns@.len(),
            present@.len() == schema.columns@.len(),
            all == value::value_views(values@),
            forall|i: int| index <= i < left@.len() ==> (#[trigger] left@[i])@ == all[i],
            value::partial_value_views(others@) == prefix_entries(*schema, all, index as int),
            value::partial_value_views(booleans@) == boolean_entries(
                *schema,
                present@,
                all,
                index as int,
            ),
        decreases left@.len() - index,
    {
        let ghost others_before = value::partial_value_views(others@);
        let ghost booleans_before = value::partial_value_views(booleans@);
        let mut value: Value = Value::Null;
        std::mem::swap(&mut value, &mut left[index]);
        let entry: PartialRowValue = PartialRowValue {
            column_index: index,
            column_id: schema.columns[index].id,
            value,
        };
        if schema.columns[index].column_type != ColumnType::Boolean {
            others.push(entry);
            assert(value::partial_value_views(others@) =~= others_before.push(entry@));
        } else if present[index] {
            booleans.push(entry);
            assert(value::partial_value_views(booleans@) =~= booleans_before.push(entry@));
        }
        index = index + 1;
    }
    (others, booleans)
}

/// Give every sidecar value its provenance.
fn tail_with_provenance(schema: &RowSchema, present: &Vec<bool>, booleans: &Vec<bool>) -> (r: Vec<
    PartialRowValue,
>)
    requires
        present@.len() == schema.columns@.len(),
        booleans@.len() == schema.columns@.len(),
    ensures
        value::partial_value_views(r@) == boolean_entries(
            *schema,
            present@,
            Seq::new(booleans@.len(), |i: int| ValueView::Boolean(booleans@[i])),
            schema.columns@.len() as int,
        ),
{
    let ghost all = Seq::new(booleans@.len(), |i: int| ValueView::Boolean(booleans@[i]));
    let mut entries: Vec<PartialRowValue> = Vec::new();
    let mut index: usize = 0;
    assert(value::partial_value_views(entries@) =~= Seq::empty());
    while index < schema.columns.len()
        invariant
            index <= schema.columns@.len(),
            present@.len() == schema.columns@.len(),
            booleans@.len() == schema.columns@.len(),
            all == Seq::new(booleans@.len(), |i: int| ValueView::Boolean(booleans@[i])),
            value::partial_value_views(entries@) == boolean_entries(
                *schema,
                present@,
                all,
                index as int,
            ),
        decreases schema.columns@.len() - index,
    {
        if is_present_boolean(schema, present, index) {
            let ghost before = value::partial_value_views(entries@);
            let entry: PartialRowValue = PartialRowValue {
                column_index: index,
                column_id: schema.columns[index].id,
                value: Value::Boolean(booleans[index]),
            };
            entries.push(entry);
            assert(value::partial_value_views(entries@) =~= before.push(entry@));
        }
        index = index + 1;
    }
    entries
}

/// Entries depend on the values of present Boolean columns only.
pub(crate) proof fn lemma_boolean_entries(
    schema: RowSchema,
    present: Seq<bool>,
    a: Seq<ValueView>,
    b: Seq<ValueView>,
    n: int,
)
    requires
        forall|i: int| 0 <= i < n && present_boolean(schema, present, i) ==> a[i] == b[i],
    ensures
        boolean_entries(schema, present, a, n) == boolean_entries(schema, present, b, n),
    decreases n,
{
    if n > 0 {
        lemma_boolean_entries(schema, present, a, b, n - 1);
    }
}

/// In a tail layout the fields through any column end before the limit.
pub(crate) proof fn lemma_leading_limit(
    row: Seq<u8>,
    schema: RowSchema,
    present: Seq<bool>,
    limit: int,
    n: int,
)
    requires
        0 <= n <= schema.columns@.len(),
        fields_start(schema) <= limit,
        schema.boolean_tail.in_tail(),
    ensures
        leading_columns(row, schema, present, limit, n) matches Ok((_, at)) ==> at <= limit,
    decreases n,
{
    reveal(column_field);
    if n > 0 {
        lemma_leading_limit(row, schema, present, limit, n - 1);
    }
}

/// Decode fields through one schema ordinal while retaining later bytes as
/// opaque.
///
/// This deliberately does not establish a complete row grammar. It is useful
/// only when the caller has separately proven the leading field sequence and
/// needs to avoid treating later variable fields as known. The full schema is
/// still required to locate the null bitmap and, for tail layouts, Boolean
/// sidecar safely. Inline Boolean bytes are consumed and returned only through
/// `through_ordinal`; later inline fields remain opaque with later columns.
pub fn decode_row_prefix_and_boolean_tail(
    input: &[u8],
    schema: &RowSchema,
    through_ordinal: u32,
) -> (result: Result<PartialDecodedRow, DecodeError>)
    ensures
        partial_view(result) == partial_row(input@, *schema, through_ordinal),
{
    let through: usize = through_ordinal as usize;
    if through == 0 || through > schema.columns.len() {
        return Err(
            DecodeError::PrefixOrdinalOutOfRange {
                ordinal: through_ordinal,
                column_count: schema.columns.len(),
            },
        );
    }
    let (row, start, present): (&[u8], usize, Vec<bool>) = match row_header_and_presence(
        input,
        schema,
    ) {
        Ok(frame) => frame,
        Err(error) => {
            return Err(error);
        },
    };
    let needed: usize = required_tail(schema, &present);
    let remaining: usize = row.len() - start;
    if needed > remaining {
        return Err(DecodeError::TruncatedBooleanTail { needed, remaining });
    }
    let tail: usize = row.len() - needed;
    let (values, next): (Vec<Value>, usize) = match decode_leading_columns(
        row,
        start,
        schema,
        &present,
        tail,
        through,
    ) {
        Ok(leading) => leading,
        Err(error) => {
            return Err(error);
        },
    };
    let (prefix_values, prefix_booleans): (
        Vec<PartialRowValue>,
        Vec<PartialRowValue>,
    ) = with_provenance(schema, &present, values);
    let boolean_values: Vec<PartialRowValue> = if is_inline_boolean_layout(schema.boolean_tail) {
        prefix_booleans
    } else {
        proof {
            lemma_leading_limit(row@, *schema, present@, tail as int, through as int);
        }
        let booleans: Vec<bool> = match decode_boolean_tail(row, tail, schema, &present) {
            Ok(booleans) => booleans,
            Err(error) => {
                return Err(error);
            },
        };
        proof {
            lemma_boolean_entries(
                *schema,
                present@,
                Seq::new(booleans@.len(), |i: int| ValueView::Boolean(booleans@[i])),
                tail_values(row@, tail as int, *schema, present@),
                schema.columns@.len() as int,
            );
        }
        tail_with_provenance(schema, &present, &booleans)
    };
    Ok(
        PartialDecodedRow {
            declared_size: row.len(),
            flags: 0,
            through_ordinal,
            prefix_values,
            boolean_values,
            opaque_middle_len: tail - next,
        },
    )
}

/// Decode a normal, non-continued materialized row carrier exactly.
///
/// A materialized application record may use the bounded three-byte SA17
/// carrier `[u16 total_length][flag]`, followed by the physical row payload.
/// This function validates that carrier with [`crate::RowSegment`], requires
/// its normal zero flag and no continuation, then reconstructs the legacy row
/// envelope `[u16 payload_length_plus_two][payload]` for [`decode_row_exact`].
/// It never resolves a continuation target or interprets nonzero flags.
pub fn decode_materialized_row_record_exact(input: &[u8], schema: &RowSchema) -> (result: Result<
    DecodedRow,
    DecodeError,
>)
    ensures
        decoded_view(result) == materialized_row(input@, *schema),
{
    let segment: RowSegment = match RowSegment::parse(input) {
        Ok(segment) => segment,
        Err(_) => {
            return Err(DecodeError::MissingRowHeader);
        },
    };
    let declared: usize = segment.declared_len();
    if declared != input.len() {
        return Err(
            DecodeError::TrailingMaterializedRowCarrier { remaining: input.len() - declared },
        );
    }
    if segment.is_continued() {
        return Err(DecodeError::ContinuedMaterializedRowCarrier);
    }
    let flags: u8 = segment.flags();
    if flags != 0 {
        return Err(DecodeError::UnsupportedMaterializedRowCarrierFlags { flags });
    }
    let payload: &[u8] = segment.payload();
    let size: usize = payload.len() + 2;
    let mut row: Vec<u8> = Vec::new();
    row.push((size % 256) as u8);
    row.push((size / 256) as u8);
    row.extend_from_slice(payload);
    assert(row@ =~= direct_row(payload@));
    decode_row_exact(row.as_slice(), schema)
}

proof fn lemma_consumed_within_declared(input: Seq<u8>, schema: RowSchema)
    ensures
        decoded_row(input, schema) matches Ok(row) ==> row.consumed_size <= row.declared_size,
{
    if let Ok(row) = declared_row(input, schema) {
        let present = presence(row, schema);
        lemma_leading_bounds(
            row,
            schema,
            present,
            row.len() as int,
            schema.columns@.len() as int,
        );
    }
}

// ---------------------------------------------------------------------------
// Laws
// ---------------------------------------------------------------------------

/// The low thirteen bits of a row header are its size, and the others are the
/// three row flags.
pub proof fn row_headers_hold_a_size_and_flags(raw: u16)
    ensures
        raw & ROW_SIZE_MASK == raw % 0x2000,
        raw & !ROW_SIZE_MASK == raw - raw % 0x2000,
        !ROW_SIZE_MASK == ROW_FLAG_OVERFLOW | ROW_FLAG_REFERENCE | ROW_FLAG_REFERENCE_DESTINATION,
{
    assert(raw & 0x1fff == raw % 0x2000) by (bit_vector);
    assert(raw & !0x1fffu16 == raw - raw % 0x2000) by (bit_vector);
    assert(!0x1fffu16 == 0x2000u16 | 0x4000u16 | 0x8000u16) by (bit_vector);
}

/// A bitmap bit is the bit that the usual mask selects.
pub proof fn bitmap_bits_are_masked_bits(
    row: Seq<u8>,
    at: int,
    position: int,
    msb_first: bool,
)
    requires
        0 <= position,
    ensures
        ({
            let byte = row[at + position / 8];
            let shift = (position % 8) as u8;
            let mask = if msb_first {
                0x80u8 >> shift
            } else {
                1u8 << shift
            };
            bitmap_bit(row, at, position, msb_first) <==> byte & mask != 0
        }),
{
    let byte = row[at + position / 8];
    let shift = (position % 8) as u8;
    assert(shift < 8);
    assert(byte & (0x80u8 >> shift) != 0 <==> (byte / (if shift == 0 {
        128u8
    } else if shift == 1 {
        64
    } else if shift == 2 {
        32
    } else if shift == 3 {
        16
    } else if shift == 4 {
        8
    } else if shift == 5 {
        4
    } else if shift == 6 {
        2
    } else {
        1
    })) % 2 == 1) by (bit_vector)
        requires
            shift < 8,
    ;
    assert(byte & (1u8 << shift) != 0 <==> (byte / (if shift == 0 {
        1u8
    } else if shift == 1 {
        2
    } else if shift == 2 {
        4
    } else if shift == 3 {
        8
    } else if shift == 4 {
        16
    } else if shift == 5 {
        32
    } else if shift == 6 {
        64
    } else {
        128
    })) % 2 == 1) by (bit_vector)
        requires
            shift < 8,
    ;
}

/// Bytes after the declared row never change what is decoded.
pub proof fn bytes_after_the_row_are_ignored(
    input: Seq<u8>,
    following: Seq<u8>,
    schema: RowSchema,
    through_ordinal: u32,
)
    requires
        2 <= input.len(),
        2 <= declared_size(input) <= input.len(),
    ensures
        decoded_row(input + following, schema) == decoded_row(input, schema),
        exact_row(input + following, schema) == exact_row(input, schema),
        partial_row(input + following, schema, through_ordinal) == partial_row(
            input,
            schema,
            through_ordinal,
        ),
{
    let declared = declared_size(input);
    assert((input + following).take(declared) =~= input.take(declared));
}

/// A decoded row has one value for every column, and lies inside its declared
/// size and its input.
pub proof fn decoded_rows_are_complete_and_bounded(input: Seq<u8>, schema: RowSchema)
    requires
        decoded_row(input, schema) is Ok,
    ensures
        ({
            let row = decoded_row(input, schema)->Ok_0;
            &&& row.values.len() == schema.columns@.len()
            &&& fields_start(schema) <= row.consumed_size <= row.declared_size <= input.len()
            &&& row.declared_size == declared_size(input)
            &&& row.flags == 0
        }),
{
    let row = declared_row(input, schema)->Ok_0;
    let present = presence(row, schema);
    let n = schema.columns@.len() as int;
    lemma_leading_bounds(row, schema, present, row.len() as int, n);
    lemma_booleans_among(schema, present, 0, n);
}

/// A row decodes exactly where it decodes and nothing of it is left over.
pub proof fn exact_rows_leave_nothing_over(input: Seq<u8>, schema: RowSchema)
    ensures
        exact_row(input, schema) is Ok <==> decoded_row(input, schema) is Ok && decoded_row(
            input,
            schema,
        )->Ok_0.consumed_size == decoded_row(input, schema)->Ok_0.declared_size,
        exact_row(input, schema) is Ok ==> exact_row(input, schema) == decoded_row(input, schema),
{
}

/// A value is `NULL` in a decoded row exactly where the null bitmap says that
/// the column has none.
pub proof fn null_values_are_the_absent_ones(input: Seq<u8>, schema: RowSchema, index: int)
    requires
        decoded_row(input, schema) is Ok,
        0 <= index < schema.columns@.len(),
    ensures
        decoded_row(input, schema)->Ok_0.values[index] is Null <==> !is_present(
            input.take(declared_size(input)),
            schema,
            index,
        ),
{
    let row = declared_row(input, schema)->Ok_0;
    let present = presence(row, schema);
    let n = schema.columns@.len() as int;
    lemma_leading_bounds(row, schema, present, row.len() as int, n);
    lemma_null_is_absent(row, schema, present, row.len() as int, n, index);
}

proof fn lemma_null_is_absent(
    row: Seq<u8>,
    schema: RowSchema,
    present: Seq<bool>,
    limit: int,
    n: int,
    index: int,
)
    requires
        leading_columns(row, schema, present, limit, n) is Ok,
        0 <= index < n <= schema.columns@.len(),
        fields_start(schema) <= row.len(),
    ensures
        leading_columns(row, schema, present, limit, n)->Ok_0.0[index] is Null <==> (
        !present[index] || (schema.boolean_tail.in_tail()
            && schema.columns@[index].column_type is Boolean)),
    decreases n,
{
    reveal(column_field);
    lemma_leading_bounds(row, schema, present, limit, n - 1);
    if index < n - 1 {
        lemma_null_is_absent(row, schema, present, limit, n - 1, index);
    }
}

/// The prefix of a row that decodes exactly is the prefix of its values.
///
/// The values through the ordinal are those of the whole row, and the Boolean
/// values are all of them in a tail layout and those through the ordinal in an
/// inline one. The prefix of all columns leaves nothing opaque.
pub proof fn prefixes_agree_with_exact_rows(
    input: Seq<u8>,
    schema: RowSchema,
    through_ordinal: u32,
)
    requires
        exact_row(input, schema) is Ok,
        1 <= through_ordinal <= schema.columns@.len(),
    ensures
        partial_row(input, schema, through_ordinal) is Ok,
        ({
            let row = exact_row(input, schema)->Ok_0;
            let prefix = partial_row(input, schema, through_ordinal)->Ok_0;
            let present = presence(input.take(declared_size(input)), schema);
            let through = through_ordinal as int;
            &&& prefix.declared_size == row.declared_size
            &&& prefix.flags == row.flags
            &&& through == schema.columns@.len() ==> prefix.opaque_middle_len == 0
            &&& prefix.prefix_values == prefix_entries(schema, row.values, through)
            &&& prefix.boolean_values == boolean_entries(
                schema,
                present,
                row.values,
                if schema.boolean_tail.in_tail() {
                    schema.columns@.len() as int
                } else {
                    through
                },
            )
        }),
{
    let row = declared_row(input, schema)->Ok_0;
    let present = presence(row, schema);
    let n = schema.columns@.len() as int;
    let through = through_ordinal as int;
    let (values, at) = leading_columns(row, schema, present, row.len() as int, n)->Ok_0;
    let whole = exact_row(input, schema)->Ok_0;
    let tail = row.len() - tail_len(schema, present);
    lemma_leading_bounds(row, schema, present, row.len() as int, n);
    lemma_leading_prefix(row, schema, present, row.len() as int, tail, n, through);
    let prefix = leading_columns(row, schema, present, tail, through)->Ok_0.0;
    lemma_prefix_entries(schema, prefix, whole.values, through);
    if schema.boolean_tail.in_tail() {
        lemma_boolean_entries(
            schema,
            present,
            tail_values(row, tail, schema, present),
            whole.values,
            n,
        );
    } else {
        lemma_boolean_entries(schema, present, prefix, whole.values, through);
    }
}

/// A row that decodes through an ordinal decodes through any earlier one.
///
/// The earlier values are the front of the later ones. So are the Boolean
/// values of an inline layout; those of a tail layout are the same.
pub proof fn earlier_prefixes_are_fronts_of_later_ones(
    input: Seq<u8>,
    schema: RowSchema,
    earlier_ordinal: u32,
    later_ordinal: u32,
)
    requires
        partial_row(input, schema, later_ordinal) is Ok,
        1 <= earlier_ordinal <= later_ordinal,
    ensures
        partial_row(input, schema, earlier_ordinal) is Ok,
        ({
            let earlier = partial_row(input, schema, earlier_ordinal)->Ok_0;
            let later = partial_row(input, schema, later_ordinal)->Ok_0;
            &&& earlier.declared_size == later.declared_size
            &&& earlier.flags == later.flags
            &&& earlier.prefix_values.is_prefix_of(later.prefix_values)
            &&& if schema.boolean_tail.in_tail() {
                earlier.boolean_values == later.boolean_values
            } else {
                earlier.boolean_values.is_prefix_of(later.boolean_values)
            }
            &&& earlier.opaque_middle_len >= later.opaque_middle_len
        }),
{
    let row = declared_row(input, schema)->Ok_0;
    let present = presence(row, schema);
    let m = earlier_ordinal as int;
    let n = later_ordinal as int;
    let tail = row.len() - tail_len(schema, present);
    lemma_booleans_among(schema, present, 0, schema.columns@.len() as int);
    lemma_leading_bounds(row, schema, present, tail, n);
    if schema.boolean_tail.in_tail() {
        lemma_leading_limit(row, schema, present, tail, n);
    }
    lemma_leading_prefix(row, schema, present, tail, tail, n, m);
    let fewer = leading_columns(row, schema, present, tail, m)->Ok_0.0;
    let all = leading_columns(row, schema, present, tail, n)->Ok_0.0;
    lemma_prefix_entries(schema, fewer, all, m);
    lemma_prefix_entries_grow(schema, all, m, n);
    lemma_boolean_entries(schema, present, fewer, all, m);
    lemma_boolean_entries_grow(schema, present, all, m, n);
}

proof fn lemma_prefix_entries_grow(schema: RowSchema, values: Seq<ValueView>, m: int, n: int)
    requires
        0 <= m <= n,
    ensures
        prefix_entries(schema, values, m).is_prefix_of(prefix_entries(schema, values, n)),
    decreases n,
{
    if m < n {
        lemma_prefix_entries_grow(schema, values, m, n - 1);
    }
}

proof fn lemma_boolean_entries_grow(
    schema: RowSchema,
    present: Seq<bool>,
    values: Seq<ValueView>,
    m: int,
    n: int,
)
    requires
        0 <= m <= n,
    ensures
        boolean_entries(schema, present, values, m).is_prefix_of(
            boolean_entries(schema, present, values, n),
        ),
    decreases n,
{
    if m < n {
        lemma_boolean_entries_grow(schema, present, values, m, n - 1);
    }
}

/// Columns that end before both limits give the same values under each, and so
/// do fewer of them.
proof fn lemma_leading_prefix(
    row: Seq<u8>,
    schema: RowSchema,
    present: Seq<bool>,
    limit: int,
    other: int,
    n: int,
    m: int,
)
    requires
        0 <= m <= n <= schema.columns@.len(),
        fields_start(schema) <= row.len(),
        leading_columns(row, schema, present, limit, n) is Ok,
        leading_columns(row, schema, present, limit, n)->Ok_0.1 <= other,
    ensures
        leading_columns(row, schema, present, other, m) matches Ok((values, at)) && values
            == leading_columns(row, schema, present, limit, n)->Ok_0.0.take(m) && at
            <= leading_columns(row, schema, present, limit, n)->Ok_0.1 && (m == n ==> at
            == leading_columns(row, schema, present, limit, n)->Ok_0.1),
    decreases n,
{
    let (all, end) = leading_columns(row, schema, present, limit, n)->Ok_0;
    lemma_leading_bounds(row, schema, present, limit, n);
    if n > 0 {
        lemma_leading_bounds(row, schema, present, limit, n - 1);
        let (fewer, at) = leading_columns(row, schema, present, limit, n - 1)->Ok_0;
        lemma_column_bounds(row, at, n - 1, schema, present);
        if m < n {
            lemma_leading_prefix(row, schema, present, limit, other, n - 1, m);
            assert(all.take(m) =~= fewer.take(m));
        } else {
            lemma_leading_prefix(row, schema, present, limit, other, n - 1, n - 1);
            assert(fewer.take(n - 1) =~= fewer);
            assert(all.take(n) =~= all);
        }
    } else {
        assert(all.take(0) =~= Seq::empty());
    }
}

/// Entries of a prefix depend on the values of its columns that are not
/// Boolean.
pub(crate) proof fn lemma_prefix_entries(schema: RowSchema, a: Seq<ValueView>, b: Seq<ValueView>, n: int)
    requires
        forall|i: int|
            0 <= i < n && schema.columns@[i].column_type !is Boolean ==> a[i] == b[i],
    ensures
        prefix_entries(schema, a, n) == prefix_entries(schema, b, n),
    decreases n,
{
    if n > 0 {
        lemma_prefix_entries(schema, a, b, n - 1);
    }
}

/// A normal carrier around a payload decodes as the direct row around it.
pub proof fn materialized_carriers_hold_direct_rows(
    payload: Seq<u8>,
    target: ContinuationTarget,
    schema: RowSchema,
)
    requires
        row_segment::ROW_SEGMENT_HEADER_LEN + payload.len() <= u16::MAX,
    ensures
        materialized_row(row_segment::segment_bytes(0, target, payload), schema) == exact_row(
            direct_row(payload),
            schema,
        ),
{
    row_segment::written_segments_are_read_back(0, target, payload);
}

} // verus!
