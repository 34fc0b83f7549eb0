//! Why rows are refused.
//!
//! The faults of a row are told in terms of [`crate::row_grammar`]: which part
//! of the row does not spell anything, after all parts before it do. Every
//! fault is reported as itself.
use vstd::prelude::*;

use crate::decode_error::DecodeError;
use crate::field_grammar;
use crate::row_decoder;
use crate::row_grammar;
use crate::row_segment;
use crate::schema::{BooleanTailLayout, RowSchema};
use crate::value::{DecodedRowView, PartialDecodedRowView, ValueView};

verus! {

// ---------------------------------------------------------------------------
// Headers
// ---------------------------------------------------------------------------

/// Why `input` does not begin with a row header and a null bitmap, if it does
/// not.
pub open spec fn header_fault(input: Seq<u8>, schema: RowSchema) -> Option<DecodeError> {
    let raw = input[0] + 0x100 * input[1];
    let size = raw % 0x2000;
    if input.len() < 2 {
        Some(DecodeError::MissingRowHeader)
    } else if size < 2 || input.len() < size {
        Some(
            DecodeError::InvalidRowSize {
                declared: size as usize,
                available: input.len() as usize,
            },
        )
    } else if raw >= 0x2000 {
        Some(DecodeError::UnsupportedRowFlags((raw / 0x2000 * 0x2000) as u16))
    } else if size < row_grammar::first_field(schema) {
        Some(
            DecodeError::Truncated {
                column: 0,
                needed: (row_grammar::first_field(schema) - 2) as usize,
                remaining: (size - 2) as usize,
            },
        )
    } else {
        None
    }
}

/// A faulty header is reported as such, and nothing else is looked at.
pub proof fn header_faults_are_reported(
    input: Seq<u8>,
    schema: RowSchema,
    through_ordinal: u32,
    error: DecodeError,
)
    requires
        header_fault(input, schema) == Some(error),
    ensures
        row_decoder::decoded_row(input, schema) == Err::<DecodedRowView, DecodeError>(error),
        row_decoder::exact_row(input, schema) == Err::<DecodedRowView, DecodeError>(error),
        1 <= through_ordinal <= schema.columns@.len() ==> row_decoder::partial_row(
            input,
            schema,
            through_ordinal,
        ) == Err::<PartialDecodedRowView, DecodeError>(error),
{
    row_grammar::lemma_first_field(schema);
}

/// Without a header fault the declared row has a header.
pub proof fn other_headers_are_accepted(input: Seq<u8>, schema: RowSchema)
    requires
        header_fault(input, schema) is None,
    ensures
        row_grammar::has_header(input.take((input[0] + 0x100 * input[1]) as int), schema),
{
}

// ---------------------------------------------------------------------------
// Columns
// ---------------------------------------------------------------------------

/// Whether a flag cannot be read at its ordinal, and this is why.
pub open spec fn is_flag_fault(
    row: Seq<u8>,
    schema: RowSchema,
    at: int,
    index: int,
    error: DecodeError,
) -> bool {
    let left = row.len() - at;
    match schema.boolean_tail {
        BooleanTailLayout::Bytes | BooleanTailLayout::PackedMsbFirst => false,
        BooleanTailLayout::InlineBytes => {
            ||| left < 1 && error == field_grammar::too_short(index, 1, left)
            ||| left >= 1 && row[at] > 1 && error == DecodeError::InvalidBooleanByte {
                column: index as usize,
                value: row[at],
            }
        },
        BooleanTailLayout::InlineU16Le => {
            ||| left < 2 && error == field_grammar::too_short(index, 2, left)
            ||| left >= 2 && row[at] + 0x100 * row[at + 1] > 1 && error
                == DecodeError::InvalidBooleanU16 {
                column: index as usize,
                value: (row[at] + 0x100 * row[at + 1]) as u16,
            }
        },
        BooleanTailLayout::InlinePackedRunsMsbFirst
        | BooleanTailLayout::InlinePackedRunsLsbFirst => {
            exists|end: int|
                {
                    &&& #[trigger] row_grammar::is_flag_run(row, schema, index, end)
                    &&& left < (end - index + 7) / 8
                    &&& error == field_grammar::too_short(index, (end - index + 7) / 8, left)
                }
        },
    }
}

/// Whether a column cannot be read at its ordinal, and this is why.
pub open spec fn is_column_fault(
    row: Seq<u8>,
    schema: RowSchema,
    at: int,
    index: int,
    error: DecodeError,
) -> bool {
    row_grammar::shows(row, schema, index) && if schema.columns@[index].column_type is Boolean {
        is_flag_fault(row, schema, at, index, error)
    } else {
        field_grammar::is_field_fault(row.skip(at), index, schema.columns@[index], schema, error)
    }
}

proof fn lemma_column_fault(
    row: Seq<u8>,
    schema: RowSchema,
    at: int,
    index: int,
    error: DecodeError,
)
    requires
        0 <= index < schema.columns@.len(),
        0 <= at <= row.len(),
        is_column_fault(row, schema, at, index, error),
    ensures
        row_decoder::column_field(
            row,
            at,
            index,
            schema,
            row_decoder::presence(row, schema),
        ) == Err::<(ValueView, int), DecodeError>(error),
{
    reveal(row_decoder::column_field);
    row_grammar::lemma_shows(row, schema, index);
    if schema.columns@[index].column_type is Boolean {
        if schema.boolean_tail is InlinePackedRunsMsbFirst || schema.boolean_tail
            is InlinePackedRunsLsbFirst {
            let end = choose|end: int|
                {
                    &&& #[trigger] row_grammar::is_flag_run(row, schema, index, end)
                    &&& row.len() - at < (end - index + 7) / 8
                    &&& error == field_grammar::too_short(
                        index,
                        (end - index + 7) / 8,
                        row.len() - at,
                    )
                };
            row_grammar::lemma_run(row, schema, index, index, end);
        }
    } else {
        field_grammar::fields_are_refused_for_their_fault(
            row,
            at,
            index,
            schema.columns@[index],
            schema,
            error,
        );
    }
}

/// The first column that cannot be read is reported for its fault.
pub proof fn column_faults_are_reported(
    row: Seq<u8>,
    following: Seq<u8>,
    schema: RowSchema,
    values: Seq<ValueView>,
    cuts: Seq<int>,
    index: int,
    error: DecodeError,
)
    requires
        row_grammar::has_header(row, schema),
        0 <= index < schema.columns@.len(),
        row_grammar::are_spelled_columns(row, schema, values, cuts, index),
        cuts[index] <= row.len(),
        is_column_fault(row, schema, cuts[index], index, error),
    ensures
        row_decoder::decoded_row(row + following, schema) == Err::<DecodedRowView, DecodeError>(
            error,
        ),
        row_decoder::exact_row(row + following, schema) == Err::<DecodedRowView, DecodeError>(
            error,
        ),
{
    let present = row_decoder::presence(row, schema);
    let limit = row.len() as int;
    row_grammar::lemma_header(row, following, schema);
    row_grammar::lemma_spelled_are_read(row, schema, values, cuts, limit, index);
    lemma_column_fault(row, schema, cuts[index], index, error);
    row_decoder::lemma_failure_remains(
        row,
        schema,
        present,
        limit,
        index + 1,
        schema.columns@.len() as int,
    );
}

// ---------------------------------------------------------------------------
// Sidecars
// ---------------------------------------------------------------------------

/// Whether the sidecar of a byte for each flag holds a byte that is neither
/// zero nor one, the first of them for the flag at `index`.
pub open spec fn is_sidecar_fault(
    row: Seq<u8>,
    schema: RowSchema,
    tail: int,
    index: int,
) -> bool {
    &&& schema.boolean_tail is Bytes
    &&& 0 <= index < schema.columns@.len()
    &&& row_grammar::is_flag(row, schema, index)
    &&& row[tail + row_grammar::flags_before(row, schema, index)] > 1
    &&& forall|i: int|
        0 <= i < index && #[trigger] row_grammar::is_flag(row, schema, i) ==> row[tail
            + row_grammar::flags_before(row, schema, i)] <= 1
}

/// The failure of such a flag.
pub open spec fn sidecar_fault(
    row: Seq<u8>,
    schema: RowSchema,
    tail: int,
    index: int,
) -> DecodeError {
    DecodeError::InvalidBooleanByte {
        column: index as usize,
        value: row[tail + row_grammar::flags_before(row, schema, index)],
    }
}

proof fn lemma_no_fault_before(row: Seq<u8>, schema: RowSchema, tail: int, index: int, n: int)
    requires
        is_sidecar_fault(row, schema, tail, index),
        0 <= n <= index,
    ensures
        row_decoder::tail_failure(
            row,
            tail,
            schema,
            row_decoder::presence(row, schema),
            n,
        ) is None,
    decreases n,
{
    if n > 0 {
        lemma_no_fault_before(row, schema, tail, index, n - 1);
        row_grammar::lemma_shows(row, schema, n - 1);
        row_grammar::lemma_flags(row, schema, n - 1);
    }
}

proof fn lemma_sidecar_fault(row: Seq<u8>, schema: RowSchema, tail: int, index: int)
    requires
        is_sidecar_fault(row, schema, tail, index),
    ensures
        row_decoder::tail_failure(
            row,
            tail,
            schema,
            row_decoder::presence(row, schema),
            schema.columns@.len() as int,
        ) == Some(sidecar_fault(row, schema, tail, index)),
{
    let present = row_decoder::presence(row, schema);
    lemma_no_fault_before(row, schema, tail, index, index);
    row_grammar::lemma_shows(row, schema, index);
    row_grammar::lemma_flags(row, schema, index);
    row_decoder::lemma_tail_failure_remains(
        row,
        tail,
        schema,
        present,
        index + 1,
        schema.columns@.len() as int,
    );
}

/// Where all columns are spelled, a sidecar that does not fit is reported, and
/// so is the first flag in it that is neither zero nor one.
pub proof fn sidecar_faults_are_reported(
    row: Seq<u8>,
    following: Seq<u8>,
    schema: RowSchema,
    values: Seq<ValueView>,
    cuts: Seq<int>,
    index: int,
)
    requires
        row_grammar::has_header(row, schema),
        row_grammar::are_spelled_columns(
            row,
            schema,
            values,
            cuts,
            schema.columns@.len() as int,
        ),
        cuts[schema.columns@.len() as int] <= row.len(),
    ensures
        ({
            let tail = cuts[schema.columns@.len() as int];
            let needed = row_grammar::sidecar_len(row, schema);
            &&& tail + needed > row.len() ==> row_decoder::decoded_row(row + following, schema)
                == Err::<DecodedRowView, DecodeError>(
                DecodeError::TruncatedBooleanTail {
                    needed: needed as usize,
                    remaining: (row.len() - tail) as usize,
                },
            )
            &&& tail + needed <= row.len() && is_sidecar_fault(row, schema, tail, index)
                ==> row_decoder::decoded_row(row + following, schema) == Err::<
                DecodedRowView,
                DecodeError,
            >(sidecar_fault(row, schema, tail, index))
        }),
{
    let n = schema.columns@.len() as int;
    row_grammar::lemma_header(row, following, schema);
    row_grammar::lemma_sidecar_len(row, schema);
    row_grammar::lemma_spelled_are_read(row, schema, values, cuts, row.len() as int, n);
    if is_sidecar_fault(row, schema, cuts[n], index) {
        lemma_sidecar_fault(row, schema, cuts[n], index);
    }
}

/// What an exact decode adds: bytes left over are counted, and any other
/// failure stays as it is.
pub proof fn bytes_left_over_are_reported(input: Seq<u8>, schema: RowSchema)
    ensures
        match row_decoder::decoded_row(input, schema) {
            Err(error) => row_decoder::exact_row(input, schema) == Err::<
                DecodedRowView,
                DecodeError,
            >(error),
            Ok(row) => row.consumed_size < row.declared_size ==> row_decoder::exact_row(
                input,
                schema,
            ) == Err::<DecodedRowView, DecodeError>(
                DecodeError::TrailingData {
                    remaining: (row.declared_size - row.consumed_size) as usize,
                },
            ),
        },
{
}

// ---------------------------------------------------------------------------
// Prefixes
// ---------------------------------------------------------------------------

/// An ordinal outside the schema is reported before the input is looked at.
pub proof fn ordinal_faults_are_reported(
    input: Seq<u8>,
    schema: RowSchema,
    through_ordinal: u32,
)
    requires
        through_ordinal == 0 || through_ordinal > schema.columns@.len(),
    ensures
        row_decoder::partial_row(input, schema, through_ordinal) == Err::<
            PartialDecodedRowView,
            DecodeError,
        >(
            DecodeError::PrefixOrdinalOutOfRange {
                ordinal: through_ordinal,
                column_count: schema.columns@.len() as usize,
            },
        ),
{
}

/// The faults of a prefix, in the order in which they are looked for: a sidecar
/// that leaves no room, the first column that cannot be read or reaches into
/// the sidecar, and the first bad flag of the sidecar.
pub proof fn prefix_faults_are_reported(
    row: Seq<u8>,
    following: Seq<u8>,
    schema: RowSchema,
    values: Seq<ValueView>,
    cuts: Seq<int>,
    through_ordinal: u32,
    index: int,
    error: DecodeError,
)
    requires
        row_grammar::has_header(row, schema),
        1 <= through_ordinal <= schema.columns@.len(),
    ensures
        ({
            let through = through_ordinal as int;
            let needed = row_grammar::sidecar_len(row, schema);
            let tail = row.len() - needed;
            let decoded = row_decoder::partial_row(row + following, schema, through_ordinal);
            let refused = |error: DecodeError|
                decoded == Err::<PartialDecodedRowView, DecodeError>(error);
            let first = row_grammar::first_field(schema);
            &&& first > tail ==> refused(
                DecodeError::TruncatedBooleanTail {
                    needed: needed as usize,
                    remaining: (row.len() - first) as usize,
                },
            )
            &&& {
                &&& first <= tail
                &&& 0 <= index < through
                &&& row_grammar::are_spelled_columns(row, schema, values, cuts, index)
                &&& cuts[index] <= tail
                &&& is_column_fault(row, schema, cuts[index], index, error)
            } ==> refused(error)
            &&& {
                &&& first <= tail
                &&& 0 <= index < through
                &&& row_grammar::are_spelled_columns(row, schema, values, cuts, index + 1)
                &&& cuts[index] <= tail < cuts[index + 1]
                &&& !(schema.columns@[index].column_type is Boolean)
            } ==> refused(
                DecodeError::PrefixOverlapsBooleanTail { column: index as usize },
            )
            &&& {
                &&& first <= tail
                &&& row_grammar::are_spelled_columns(row, schema, values, cuts, through)
                &&& cuts[through] <= tail
                &&& is_sidecar_fault(row, schema, tail, index)
            } ==> refused(sidecar_fault(row, schema, tail, index))
        }),
{
    let through = through_ordinal as int;
    let present = row_decoder::presence(row, schema);
    let tail = row.len() - row_grammar::sidecar_len(row, schema);
    row_grammar::lemma_header(row, following, schema);
    row_grammar::lemma_sidecar_len(row, schema);
    row_grammar::lemma_first_field(schema);
    if row_grammar::first_field(schema) <= tail {
        if 0 <= index < through && row_grammar::are_spelled_columns(
            row,
            schema,
            values,
            cuts,
            index,
        ) && cuts[index] <= tail {
            row_grammar::lemma_spelled_are_read(row, schema, values, cuts, tail, index);
            if is_column_fault(row, schema, cuts[index], index, error) {
                lemma_column_fault(row, schema, cuts[index], index, error);
                row_decoder::lemma_failure_remains(
                    row,
                    schema,
                    present,
                    tail,
                    index + 1,
                    through,
                );
            }
        }
        if 0 <= index < through && row_grammar::are_spelled_columns(
            row,
            schema,
            values,
            cuts,
            index + 1,
        ) && cuts[index] <= tail < cuts[index + 1] && !(
        schema.columns@[index].column_type is Boolean) {
            assert(row_grammar::are_spelled_columns(row, schema, values, cuts, index));
            row_grammar::lemma_spelled_are_read(row, schema, values, cuts, tail, index);
            assert(row_grammar::is_spelled_column(row, schema, cuts, index, values[index]));
            row_grammar::lemma_shows(row, schema, index);
            reveal(row_decoder::column_field);
            field_grammar::fields_are_decoded_as_spelled(
                row,
                cuts[index],
                index,
                schema.columns@[index],
                schema,
                values[index],
                cuts[index + 1],
            );
            row_decoder::lemma_failure_remains(row, schema, present, tail, index + 1, through);
        }
        if row_grammar::are_spelled_columns(row, schema, values, cuts, through) && cuts[through]
            <= tail && is_sidecar_fault(row, schema, tail, index) {
            row_grammar::lemma_spelled_are_read(row, schema, values, cuts, tail, through);
            lemma_sidecar_fault(row, schema, tail, index);
        }
    }
}

// ---------------------------------------------------------------------------
// Carriers
// ---------------------------------------------------------------------------

/// What a materialized carrier is decoded to, told by its bytes: three header
/// bytes, of which the first two are the whole length and the third is zero,
/// and the payload, which becomes a direct row.
pub proof fn carriers_are_decoded_by_their_bytes(input: Seq<u8>, schema: RowSchema)
    requires
        input.len() <= usize::MAX,
    ensures
        ({
            let size = input[0] + 0x100 * input[1];
            let refused = |error: DecodeError|
                row_decoder::materialized_row(input, schema) == Err::<DecodedRowView, DecodeError>(
                    error,
                );
            let header_len: int = if input[2] & 0x04 != 0 {
                9
            } else {
                3
            };
            if input.len() < 3 || size < header_len || input.len() < size {
                refused(DecodeError::MissingRowHeader)
            } else if size < input.len() {
                refused(
                    DecodeError::TrailingMaterializedRowCarrier {
                        remaining: (input.len() - size) as usize,
                    },
                )
            } else if input[2] & 0x04 != 0 {
                refused(DecodeError::ContinuedMaterializedRowCarrier)
            } else if input[2] != 0 {
                refused(DecodeError::UnsupportedMaterializedRowCarrierFlags { flags: input[2] })
            } else {
                row_decoder::materialized_row(input, schema) == row_decoder::exact_row(
                    seq![((size - 1) % 0x100) as u8, ((size - 1) / 0x100) as u8] + input.skip(3),
                    schema,
                )
            }
        }),
{
    if input.len() >= 3 {
        row_segment::continuation_is_one_flag_bit(input[2]);
        let flags = input[2];
        assert(flags & 0x04 != 0 ==> flags != 0) by (bit_vector);
        let size = (input[0] + 0x100 * input[1]) as int;
        if size == input.len() {
            assert(input.take(size) =~= input);
        }
    }
}

} // verus!
