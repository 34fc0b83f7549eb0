//! How rows are spelled in bytes.
//!
//! [`crate::row_decoder`] reads a row from its start. Here the row grammar is
//! told as a relation between the bytes of a row, the places where its fields
//! begin and its values, and the decoders are proved to follow it in both
//! directions.
use vstd::prelude::*;

use crate::decode_error::DecodeError;
use crate::field_grammar;
use crate::row_decoder;
use crate::schema;
use crate::schema::{
    BooleanTailLayout, ColumnDef, NullBitmapCoverage, NullBitmapLayout, RowPrefixLayout, RowSchema,
};
use crate::value::{DecodedRowView, PartialDecodedRowView, PartialRowValueView, ValueView};

verus! {

// ---------------------------------------------------------------------------
// Header and null bitmap
// ---------------------------------------------------------------------------

/// Number of carrier bytes between the size and the null bitmap.
pub open spec fn carrier_len(layout: RowPrefixLayout) -> int {
    match layout {
        RowPrefixLayout::NoCarrier => 0,
        RowPrefixLayout::OneByteCarrier => 1,
        RowPrefixLayout::TwoByteCarrier => 2,
        RowPrefixLayout::ThreeByteCarrier => 3,
    }
}

/// Number of null-bitmap positions that the first `n` columns take up.
pub open spec fn positions_before(schema: RowSchema, n: int) -> int {
    match schema.null_bitmap_coverage {
        NullBitmapCoverage::NullableColumns => {
            schema.columns@.take(n).filter(|column: ColumnDef| column.nullable).len() as int
        },
        NullBitmapCoverage::AllColumns => n,
    }
}

/// Where the first field begins: after the size, the carrier and the bytes of
/// the null bitmap.
pub open spec fn first_field(schema: RowSchema) -> int {
    2 + carrier_len(schema.row_prefix_layout) + (positions_before(
        schema,
        schema.columns@.len() as int,
    ) + 7) / 8
}

/// The bit at `position` of the bitmap at `at`.
pub open spec fn bit_at(row: Seq<u8>, at: int, position: int, msb_first: bool) -> bool {
    let shift = (position % 8) as u8;
    row[at + position / 8] & (if msb_first {
        0x80u8 >> shift
    } else {
        1u8 << shift
    }) != 0
}

/// Whether a row shows a value for a column: it is not nullable, or its bit of
/// the null bitmap says so.
pub open spec fn shows(row: Seq<u8>, schema: RowSchema, index: int) -> bool {
    let bitmap = 2 + carrier_len(schema.row_prefix_layout);
    let position = positions_before(schema, index);
    if !schema.columns@[index].nullable {
        true
    } else {
        match schema.null_bitmap_layout {
            NullBitmapLayout::MsbPresent => bit_at(row, bitmap, position, true),
            NullBitmapLayout::LsbPresent => bit_at(row, bitmap, position, false),
            NullBitmapLayout::MsbNull => !bit_at(row, bitmap, position, true),
            NullBitmapLayout::LsbNull => !bit_at(row, bitmap, position, false),
        }
    }
}

/// Whether a row begins with its own size and has room for its null bitmap.
pub open spec fn has_header(row: Seq<u8>, schema: RowSchema) -> bool {
    &&& 2 <= row.len() < 0x2000
    &&& row[0] + 0x100 * row[1] == row.len()
    &&& first_field(schema) <= row.len()
}

// ---------------------------------------------------------------------------
// Booleans
// ---------------------------------------------------------------------------

/// Whether a column is Boolean and the row shows a value for it.
pub open spec fn is_flag(row: Seq<u8>, schema: RowSchema, index: int) -> bool {
    schema.columns@[index].column_type is Boolean && shows(row, schema, index)
}

/// Number of flags among the first `n` columns.
pub open spec fn flags_before(row: Seq<u8>, schema: RowSchema, n: int) -> int {
    Seq::new(n as nat, |i: int| i).filter(|i: int| is_flag(row, schema, i)).len() as int
}

/// Whether the columns from `first` to before `end` are a maximal run of flags.
pub open spec fn is_flag_run(row: Seq<u8>, schema: RowSchema, first: int, end: int) -> bool {
    &&& 0 <= first < end <= schema.columns@.len()
    &&& forall|i: int| first <= i < end ==> #[trigger] is_flag(row, schema, i)
    &&& first > 0 ==> !is_flag(row, schema, first - 1)
    &&& end < schema.columns@.len() ==> !is_flag(row, schema, end)
}

/// Whether a flag inside a maximal run has its bit in the bytes of the run,
/// which stand where the run begins.
pub open spec fn is_spelled_in_run(
    row: Seq<u8>,
    schema: RowSchema,
    cuts: Seq<int>,
    index: int,
    value: ValueView,
    msb_first: bool,
    first: int,
    end: int,
) -> bool {
    &&& is_flag_run(row, schema, first, end)
    &&& first <= index < end
    &&& if index == first {
        cuts[index + 1] == cuts[index] + (end - first + 7) / 8 && cuts[index + 1] <= row.len()
    } else {
        cuts[index + 1] == cuts[index]
    }
    &&& value == ValueView::Boolean(bit_at(row, cuts[first], index - first, msb_first))
}

/// Whether a flag is spelled at its ordinal. In the tail layouts nothing
/// stands there.
pub open spec fn is_spelled_flag(
    row: Seq<u8>,
    schema: RowSchema,
    cuts: Seq<int>,
    index: int,
    value: ValueView,
) -> bool {
    let at = cuts[index];
    let next = cuts[index + 1];
    match schema.boolean_tail {
        BooleanTailLayout::Bytes | BooleanTailLayout::PackedMsbFirst => next == at,
        BooleanTailLayout::InlineBytes => {
            &&& next == at + 1 <= row.len()
            &&& (row[at] == 0 && value == ValueView::Boolean(false)) || (row[at] == 1 && value
                == ValueView::Boolean(true))
        },
        BooleanTailLayout::InlineU16Le => {
            &&& next == at + 2 <= row.len()
            &&& row[at + 1] == 0
            &&& (row[at] == 0 && value == ValueView::Boolean(false)) || (row[at] == 1 && value
                == ValueView::Boolean(true))
        },
        BooleanTailLayout::InlinePackedRunsMsbFirst => {
            exists|first: int, end: int|
                #[trigger] is_spelled_in_run(row, schema, cuts, index, value, true, first, end)
        },
        BooleanTailLayout::InlinePackedRunsLsbFirst => {
            exists|first: int, end: int|
                #[trigger] is_spelled_in_run(row, schema, cuts, index, value, false, first, end)
        },
    }
}

/// Number of sidecar bytes.
pub open spec fn sidecar_len(row: Seq<u8>, schema: RowSchema) -> int {
    let flags = flags_before(row, schema, schema.columns@.len() as int);
    match schema.boolean_tail {
        BooleanTailLayout::Bytes => flags,
        BooleanTailLayout::PackedMsbFirst => (flags + 7) / 8,
        _ => 0,
    }
}

/// Whether the values of all flags stand, in order, in a sidecar at `tail`.
pub open spec fn is_sidecar(
    row: Seq<u8>,
    schema: RowSchema,
    tail: int,
    values: Seq<ValueView>,
) -> bool {
    forall|i: int|
        0 <= i < schema.columns@.len() && #[trigger] is_flag(row, schema, i) ==> {
            let place = flags_before(row, schema, i);
            match schema.boolean_tail {
                BooleanTailLayout::Bytes => {
                    ||| row[tail + place] == 0 && values[i] == ValueView::Boolean(false)
                    ||| row[tail + place] == 1 && values[i] == ValueView::Boolean(true)
                },
                BooleanTailLayout::PackedMsbFirst => {
                    values[i] == ValueView::Boolean(bit_at(row, tail, place, true))
                },
                _ => true,
            }
        }
}

// ---------------------------------------------------------------------------
// Columns and rows
// ---------------------------------------------------------------------------

/// Whether a column is spelled between its cuts.
pub open spec fn is_spelled_column(
    row: Seq<u8>,
    schema: RowSchema,
    cuts: Seq<int>,
    index: int,
    value: ValueView,
) -> bool {
    if !shows(row, schema, index) {
        value == ValueView::Null && cuts[index + 1] == cuts[index]
    } else if schema.columns@[index].column_type is Boolean {
        is_spelled_flag(row, schema, cuts, index, value)
    } else {
        cuts[index] <= cuts[index + 1] <= row.len() && field_grammar::spells(
            row.subrange(cuts[index], cuts[index + 1]),
            schema.columns@[index],
            schema,
            value,
        )
    }
}

/// Whether the first `n` columns are spelled one after the other, the column
/// at `i` from `cuts[i]` to before `cuts[i + 1]`.
pub open spec fn are_spelled_columns(
    row: Seq<u8>,
    schema: RowSchema,
    values: Seq<ValueView>,
    cuts: Seq<int>,
    n: int,
) -> bool {
    &&& cuts[0] == first_field(schema)
    &&& forall|i: int|
        0 <= i < n ==> is_spelled_column(row, schema, cuts, i, #[trigger] values[i])
}

/// Whether `row` is a row with these values and, where they begin, these cuts.
pub open spec fn is_row(
    row: Seq<u8>,
    schema: RowSchema,
    values: Seq<ValueView>,
    cuts: Seq<int>,
) -> bool {
    let n = schema.columns@.len() as int;
    &&& has_header(row, schema)
    &&& values.len() == n
    &&& cuts.len() == n + 1
    &&& are_spelled_columns(row, schema, values, cuts, n)
    &&& cuts[n] + sidecar_len(row, schema) <= row.len()
    &&& is_sidecar(row, schema, cuts[n], values)
}

// ---------------------------------------------------------------------------
// What the decoder calls things
// ---------------------------------------------------------------------------

proof fn lemma_positions(schema: RowSchema, n: int)
    requires
        0 <= n <= schema.columns@.len(),
    ensures
        positions_before(schema, n) == row_decoder::bitmap_position(schema, n),
        0 <= positions_before(schema, n) <= n,
    decreases n,
{
    lemma_nullable(schema.columns@, n);
}

proof fn lemma_nullable(columns: Seq<ColumnDef>, n: int)
    requires
        0 <= n <= columns.len(),
    ensures
        columns.take(n).filter(|column: ColumnDef| column.nullable).len()
            == schema::nullable_among(columns, n),
        0 <= schema::nullable_among(columns, n) <= n,
    decreases n,
{
    reveal(Seq::filter);
    if n > 0 {
        lemma_nullable(columns, n - 1);
        assert(columns.take(n).drop_last() =~= columns.take(n - 1));
    }
}

pub(crate) proof fn lemma_first_field(schema: RowSchema)
    ensures
        first_field(schema) == row_decoder::fields_start(schema),
        2 <= first_field(schema),
{
    lemma_positions(schema, schema.columns@.len() as int);
}

proof fn lemma_bit(row: Seq<u8>, at: int, position: int, msb_first: bool)
    requires
        0 <= position,
    ensures
        bit_at(row, at, position, msb_first) == row_decoder::bitmap_bit(
            row,
            at,
            position,
            msb_first,
        ),
{
    row_decoder::bitmap_bits_are_masked_bits(row, at, position, msb_first);
}

pub(crate) proof fn lemma_shows(row: Seq<u8>, schema: RowSchema, index: int)
    requires
        0 <= index < schema.columns@.len(),
    ensures
        shows(row, schema, index) == row_decoder::presence(row, schema)[index],
        is_flag(row, schema, index) == row_decoder::present_boolean(
            schema,
            row_decoder::presence(row, schema),
            index,
        ),
{
    lemma_positions(schema, index);
    let position = positions_before(schema, index);
    let bitmap = 2 + carrier_len(schema.row_prefix_layout);
    lemma_bit(row, bitmap, position, true);
    lemma_bit(row, bitmap, position, false);
}

pub(crate) proof fn lemma_flags(row: Seq<u8>, schema: RowSchema, n: int)
    requires
        0 <= n <= schema.columns@.len(),
    ensures
        flags_before(row, schema, n) == row_decoder::booleans_among(
            schema,
            row_decoder::presence(row, schema),
            n,
        ),
        0 <= flags_before(row, schema, n) <= n,
    decreases n,
{
    reveal(Seq::filter);
    if n > 0 {
        lemma_flags(row, schema, n - 1);
        lemma_shows(row, schema, n - 1);
        assert(Seq::new(n as nat, |i: int| i).drop_last() =~= Seq::new((n - 1) as nat, |i: int| i));
    }
}

pub(crate) proof fn lemma_sidecar_len(row: Seq<u8>, schema: RowSchema)
    ensures
        sidecar_len(row, schema) == row_decoder::tail_len(
            schema,
            row_decoder::presence(row, schema),
        ),
        sidecar_len(row, schema) >= 0,
{
    lemma_flags(row, schema, schema.columns@.len() as int);
}

proof fn lemma_run_start(row: Seq<u8>, schema: RowSchema, index: int)
    requires
        0 <= index < schema.columns@.len(),
        is_flag(row, schema, index),
    ensures
        ({
            let first = row_decoder::run_start(schema, row_decoder::presence(row, schema), index);
            &&& 0 <= first <= index
            &&& forall|i: int| first <= i <= index ==> #[trigger] is_flag(row, schema, i)
            &&& first > 0 ==> !is_flag(row, schema, first - 1)
        }),
    decreases index,
{
    if index > 0 {
        lemma_shows(row, schema, index - 1);
        if is_flag(row, schema, index - 1) {
            lemma_run_start(row, schema, index - 1);
        }
    }
}

proof fn lemma_run_end(row: Seq<u8>, schema: RowSchema, index: int)
    requires
        0 <= index <= schema.columns@.len(),
    ensures
        ({
            let end = row_decoder::run_end(schema, row_decoder::presence(row, schema), index);
            &&& index <= end <= schema.columns@.len()
            &&& forall|i: int| index <= i < end ==> #[trigger] is_flag(row, schema, i)
            &&& end < schema.columns@.len() ==> !is_flag(row, schema, end)
        }),
    decreases schema.columns@.len() - index,
{
    if index < schema.columns@.len() {
        lemma_shows(row, schema, index);
        lemma_run_end(row, schema, index + 1);
    }
}

/// The run around a flag is the one that the decoder finds.
pub(crate) proof fn lemma_run(row: Seq<u8>, schema: RowSchema, index: int, first: int, end: int)
    requires
        0 <= index < schema.columns@.len(),
        is_flag(row, schema, index),
    ensures
        is_flag_run(row, schema, first, end) && first <= index < end <==> {
            let present = row_decoder::presence(row, schema);
            first == row_decoder::run_start(schema, present, index) && end == row_decoder::run_end(
                schema,
                present,
                index,
            )
        },
{
    let present = row_decoder::presence(row, schema);
    let s = row_decoder::run_start(schema, present, index);
    let e = row_decoder::run_end(schema, present, index);
    lemma_run_start(row, schema, index);
    lemma_run_end(row, schema, index);
    assert(e > index) by {
        if e == index {
            assert(!is_flag(row, schema, e));
        }
    }
    assert(is_flag_run(row, schema, s, e));
    if is_flag_run(row, schema, first, end) && first <= index < end {
        if first < s {
            assert(is_flag(row, schema, s - 1));
        }
        if s < first {
            assert(is_flag(row, schema, first - 1));
        }
        if end < e {
            assert(is_flag(row, schema, end));
        }
        if e < end {
            assert(is_flag(row, schema, e));
        }
    }
}

/// Whether flags stand in bytes at each run of them.
spec fn in_runs(layout: BooleanTailLayout) -> bool {
    layout is InlinePackedRunsMsbFirst || layout is InlinePackedRunsLsbFirst
}

/// Whether flags stand in a sidecar.
pub open spec fn in_sidecar(layout: BooleanTailLayout) -> bool {
    layout is Bytes || layout is PackedMsbFirst
}

/// After the first flag of a run the position stays behind the run's bytes.
proof fn lemma_run_cuts(
    row: Seq<u8>,
    schema: RowSchema,
    values: Seq<ValueView>,
    cuts: Seq<int>,
    first: int,
    end: int,
    index: int,
)
    requires
        in_runs(schema.boolean_tail),
        is_flag_run(row, schema, first, end),
        first < index < end,
        are_spelled_columns(row, schema, values, cuts, index),
    ensures
        cuts[index] == cuts[first] + (end - first + 7) / 8,
    decreases index,
{
    let before = index - 1;
    let value = values[before];
    assert(is_spelled_column(row, schema, cuts, before, value));
    assert(is_flag(row, schema, before));
    let msb_first = schema.boolean_tail is InlinePackedRunsMsbFirst;
    let (f, e) = choose|f: int, e: int| #[trigger]
        is_spelled_in_run(row, schema, cuts, before, value, msb_first, f, e);
    assert(is_spelled_in_run(row, schema, cuts, before, value, msb_first, f, e));
    lemma_run(row, schema, before, f, e);
    lemma_run(row, schema, before, first, end);
    if before > first {
        lemma_run_cuts(row, schema, values, cuts, first, end, before);
    }
}

/// The decoder reads a flag at its ordinal as it is spelled there.
proof fn lemma_flag(
    row: Seq<u8>,
    schema: RowSchema,
    values: Seq<ValueView>,
    cuts: Seq<int>,
    index: int,
    value: ValueView,
)
    requires
        0 <= index < schema.columns@.len(),
        0 <= cuts[index] <= row.len(),
        is_flag(row, schema, index),
        are_spelled_columns(row, schema, values, cuts, index),
    ensures
        row_decoder::boolean_field(
            row,
            cuts[index],
            index,
            schema,
            row_decoder::presence(row, schema),
        ) == Ok::<(ValueView, int), DecodeError>(
            (
                if in_sidecar(schema.boolean_tail) {
                    ValueView::Null
                } else {
                    value
                },
                cuts[index + 1],
            ),
        ) <==> is_spelled_flag(row, schema, cuts, index, value),
{
    let present = row_decoder::presence(row, schema);
    let at = cuts[index];
    if in_runs(schema.boolean_tail) {
        let first = row_decoder::run_start(schema, present, index);
        let end = row_decoder::run_end(schema, present, index);
        let msb_first = schema.boolean_tail is InlinePackedRunsMsbFirst;
        lemma_run(row, schema, index, first, end);
        lemma_bit(row, cuts[first], index - first, msb_first);
        if index != first {
            lemma_run_cuts(row, schema, values, cuts, first, end, index);
        }
        if row_decoder::boolean_field(row, at, index, schema, present) == Ok::<
            (ValueView, int),
            DecodeError,
        >((value, cuts[index + 1])) {
            assert(is_spelled_in_run(row, schema, cuts, index, value, msb_first, first, end));
        }
        if is_spelled_flag(row, schema, cuts, index, value) {
            let (f, e) = choose|f: int, e: int| #[trigger]
                is_spelled_in_run(row, schema, cuts, index, value, msb_first, f, e);
            lemma_run(row, schema, index, f, e);
        }
    }
}

/// The decoder reads a column as it is spelled between its cuts.
proof fn lemma_column(
    row: Seq<u8>,
    schema: RowSchema,
    values: Seq<ValueView>,
    cuts: Seq<int>,
    index: int,
    value: ValueView,
)
    requires
        0 <= index < schema.columns@.len(),
        0 <= cuts[index] <= row.len(),
        are_spelled_columns(row, schema, values, cuts, index),
    ensures
        row_decoder::column_field(
            row,
            cuts[index],
            index,
            schema,
            row_decoder::presence(row, schema),
        ) == Ok::<(ValueView, int), DecodeError>(
            (
                if in_sidecar(schema.boolean_tail) && is_flag(row, schema, index) {
                    ValueView::Null
                } else {
                    value
                },
                cuts[index + 1],
            ),
        ) <==> is_spelled_column(row, schema, cuts, index, value),
{
    reveal(row_decoder::column_field);
    lemma_shows(row, schema, index);
    if shows(row, schema, index) {
        if schema.columns@[index].column_type is Boolean {
            lemma_flag(row, schema, values, cuts, index, value);
        } else {
            field_grammar::fields_are_decoded_as_spelled(
                row,
                cuts[index],
                index,
                schema.columns@[index],
                schema,
                value,
                cuts[index + 1],
            );
        }
    }
}

/// What the decoder knows of a column at its ordinal.
pub open spec fn at_ordinal(
    row: Seq<u8>,
    schema: RowSchema,
    values: Seq<ValueView>,
    n: int,
) -> Seq<ValueView> {
    Seq::new(
        n as nat,
        |i: int|
            if in_sidecar(schema.boolean_tail) && is_flag(row, schema, i) {
                ValueView::Null
            } else {
                values[i]
            },
    )
}

/// Spelled columns are read one after the other.
pub(crate) proof fn lemma_spelled_are_read(
    row: Seq<u8>,
    schema: RowSchema,
    values: Seq<ValueView>,
    cuts: Seq<int>,
    limit: int,
    n: int,
)
    requires
        0 <= n <= schema.columns@.len(),
        first_field(schema) <= row.len(),
        are_spelled_columns(row, schema, values, cuts, n),
        cuts[n] <= limit,
    ensures
        row_decoder::leading_columns(
            row,
            schema,
            row_decoder::presence(row, schema),
            limit,
            n,
        ) == Ok::<(Seq<ValueView>, int), DecodeError>((at_ordinal(row, schema, values, n), cuts[n])),
        0 <= cuts[n] <= row.len(),
    decreases n,
{
    let present = row_decoder::presence(row, schema);
    lemma_first_field(schema);
    if n == 0 {
        assert(at_ordinal(row, schema, values, 0) =~= Seq::empty());
    } else {
        assert(is_spelled_column(row, schema, cuts, n - 1, values[n - 1]));
        assert(cuts[n - 1] <= cuts[n]) by {
            if is_flag(row, schema, n - 1) && in_runs(schema.boolean_tail) {
                let msb_first = schema.boolean_tail is InlinePackedRunsMsbFirst;
                let (f, e) = choose|f: int, e: int| #[trigger]
                    is_spelled_in_run(row, schema, cuts, n - 1, values[n - 1], msb_first, f, e);
                assert(is_spelled_in_run(
                    row,
                    schema,
                    cuts,
                    n - 1,
                    values[n - 1],
                    msb_first,
                    f,
                    e,
                ));
            }
        }
        lemma_spelled_are_read(row, schema, values, cuts, limit, n - 1);
        lemma_column(row, schema, values, cuts, n - 1, values[n - 1]);
        row_decoder::lemma_column_bounds(row, cuts[n - 1], n - 1, schema, present);
        assert(at_ordinal(row, schema, values, n) =~= at_ordinal(row, schema, values, n - 1).push(
            at_ordinal(row, schema, values, n)[n - 1],
        ));
    }
}

/// Where the decoder stands after each of the first `n` columns.
spec fn positions(row: Seq<u8>, schema: RowSchema, limit: int, n: int) -> Seq<int> {
    Seq::new(
        (n + 1) as nat,
        |i: int|
            row_decoder::leading_columns(
                row,
                schema,
                row_decoder::presence(row, schema),
                limit,
                i,
            )->Ok_0.1,
    )
}

/// Columns that are read one after the other are spelled so.
proof fn lemma_read_are_spelled(
    row: Seq<u8>,
    schema: RowSchema,
    values: Seq<ValueView>,
    limit: int,
    total: int,
    n: int,
)
    requires
        0 <= n <= total <= schema.columns@.len(),
        first_field(schema) <= row.len(),
        row_decoder::leading_columns(
            row,
            schema,
            row_decoder::presence(row, schema),
            limit,
            n,
        ) is Ok,
        forall|i: int|
            0 <= i < n && !(in_sidecar(schema.boolean_tail) && is_flag(row, schema, i))
                ==> #[trigger] values[i] == row_decoder::leading_columns(
                row,
                schema,
                row_decoder::presence(row, schema),
                limit,
                n,
            )->Ok_0.0[i],
    ensures
        are_spelled_columns(row, schema, values, positions(row, schema, limit, total), n),
    decreases n,
{
    let present = row_decoder::presence(row, schema);
    let cuts = positions(row, schema, limit, total);
    lemma_first_field(schema);
    if n > 0 {
        let (all, end) = row_decoder::leading_columns(row, schema, present, limit, n)->Ok_0;
        let (fewer, at) = row_decoder::leading_columns(row, schema, present, limit, n - 1)->Ok_0;
        row_decoder::lemma_leading_bounds(row, schema, present, limit, n - 1);
        assert forall|i: int|
            0 <= i < n - 1 && !(in_sidecar(schema.boolean_tail) && is_flag(
                row,
                schema,
                i,
            )) implies #[trigger] values[i] == fewer[i] by {
            assert(all[i] == fewer[i]);
        }
        lemma_read_are_spelled(row, schema, values, limit, total, n - 1);
        assert(cuts[n - 1] == at && cuts[n] == end);
        lemma_column(row, schema, values, cuts, n - 1, values[n - 1]);
        if in_sidecar(schema.boolean_tail) && is_flag(row, schema, n - 1) {
            reveal(row_decoder::column_field);
            lemma_shows(row, schema, n - 1);
        } else {
            assert(values[n - 1] == all[n - 1]);
        }
        assert(is_spelled_column(row, schema, cuts, n - 1, values[n - 1]));
    }
}

pub(crate) proof fn lemma_header(row: Seq<u8>, following: Seq<u8>, schema: RowSchema)
    requires
        has_header(row, schema),
    ensures
        row_decoder::declared_row(row + following, schema) == Ok::<Seq<u8>, DecodeError>(row),
{
    lemma_first_field(schema);
    let input = row + following;
    assert(input[0] == row[0] && input[1] == row[1]);
    assert(input.take(row.len() as int) =~= row);
}

proof fn lemma_declared(input: Seq<u8>, schema: RowSchema)
    requires
        row_decoder::declared_row(input, schema) is Ok,
    ensures
        ({
            let row = row_decoder::declared_row(input, schema)->Ok_0;
            &&& has_header(row, schema)
            &&& row.is_prefix_of(input)
        }),
{
    lemma_first_field(schema);
}

/// A sidecar holds what the decoder reads from it.
proof fn lemma_sidecar(
    row: Seq<u8>,
    schema: RowSchema,
    tail: int,
    values: Seq<ValueView>,
    index: int,
)
    requires
        in_sidecar(schema.boolean_tail),
        0 <= index < schema.columns@.len(),
        is_flag(row, schema, index),
        is_sidecar(row, schema, tail, values),
    ensures
        row_decoder::tail_boolean(
            row,
            tail,
            index,
            schema,
            row_decoder::presence(row, schema),
        ) matches Ok(b) && values[index] == ValueView::Boolean(b),
{
    lemma_flags(row, schema, index);
    lemma_bit(row, tail, flags_before(row, schema, index), true);
}

proof fn lemma_sidecar_has_no_failure(
    row: Seq<u8>,
    schema: RowSchema,
    tail: int,
    values: Seq<ValueView>,
    n: int,
)
    requires
        in_sidecar(schema.boolean_tail),
        0 <= n <= schema.columns@.len(),
        is_sidecar(row, schema, tail, values),
    ensures
        row_decoder::tail_failure(
            row,
            tail,
            schema,
            row_decoder::presence(row, schema),
            n,
        ) is None,
    decreases n,
{
    if n > 0 {
        lemma_sidecar_has_no_failure(row, schema, tail, values, n - 1);
        lemma_shows(row, schema, n - 1);
        if is_flag(row, schema, n - 1) {
            lemma_sidecar(row, schema, tail, values, n - 1);
        }
    }
}

proof fn lemma_no_failure_before(
    row: Seq<u8>,
    schema: RowSchema,
    present: Seq<bool>,
    tail: int,
    m: int,
    n: int,
)
    requires
        0 <= m <= n,
        row_decoder::tail_failure(row, tail, schema, present, n) is None,
    ensures
        row_decoder::tail_failure(row, tail, schema, present, m) is None,
    decreases n,
{
    if m < n {
        lemma_no_failure_before(row, schema, present, tail, m, n - 1);
    }
}

/// What the decoder reads from a sidecar without failure is a sidecar.
proof fn lemma_read_sidecar(row: Seq<u8>, schema: RowSchema, tail: int, values: Seq<ValueView>)
    requires
        in_sidecar(schema.boolean_tail),
        row_decoder::tail_failure(
            row,
            tail,
            schema,
            row_decoder::presence(row, schema),
            schema.columns@.len() as int,
        ) is None,
        forall|i: int|
            0 <= i < schema.columns@.len() && #[trigger] is_flag(row, schema, i) ==> values[i]
                == ValueView::Boolean(
                row_decoder::tail_boolean(
                    row,
                    tail,
                    i,
                    schema,
                    row_decoder::presence(row, schema),
                )->Ok_0,
            ),
    ensures
        is_sidecar(row, schema, tail, values),
{
    let present = row_decoder::presence(row, schema);
    let n = schema.columns@.len() as int;
    assert forall|i: int|
        0 <= i < n && #[trigger] is_flag(row, schema, i) implies {
        let place = flags_before(row, schema, i);
        match schema.boolean_tail {
            BooleanTailLayout::Bytes => {
                ||| row[tail + place] == 0 && values[i] == ValueView::Boolean(false)
                ||| row[tail + place] == 1 && values[i] == ValueView::Boolean(true)
            },
            BooleanTailLayout::PackedMsbFirst => {
                values[i] == ValueView::Boolean(bit_at(row, tail, place, true))
            },
            _ => true,
        }
    } by {
        lemma_shows(row, schema, i);
        lemma_flags(row, schema, i);
        lemma_bit(row, tail, flags_before(row, schema, i), true);
        lemma_no_failure_before(row, schema, present, tail, i + 1, n);
    }
}

// ---------------------------------------------------------------------------
// Laws
// ---------------------------------------------------------------------------

/// Bytes that spell a row are decoded to its values, whatever follows them.
pub proof fn spelled_rows_are_decoded(
    row: Seq<u8>,
    following: Seq<u8>,
    schema: RowSchema,
    values: Seq<ValueView>,
    cuts: Seq<int>,
)
    requires
        is_row(row, schema, values, cuts),
    ensures
        row_decoder::decoded_row(row + following, schema) == Ok::<DecodedRowView, DecodeError>(
            DecodedRowView {
                declared_size: row.len() as int,
                consumed_size: cuts[schema.columns@.len() as int] + sidecar_len(row, schema),
                flags: 0,
                values,
            },
        ),
{
    let n = schema.columns@.len() as int;
    let present = row_decoder::presence(row, schema);
    let leading = at_ordinal(row, schema, values, n);
    let tail = cuts[n];
    lemma_header(row, following, schema);
    lemma_sidecar_len(row, schema);
    lemma_spelled_are_read(row, schema, values, cuts, row.len() as int, n);
    if in_sidecar(schema.boolean_tail) {
        lemma_sidecar_has_no_failure(row, schema, tail, values, n);
        let complete = row_decoder::with_tail(row, tail, schema, present, leading);
        assert forall|i: int| 0 <= i < n implies #[trigger] complete[i] == values[i] by {
            lemma_shows(row, schema, i);
            if is_flag(row, schema, i) {
                lemma_sidecar(row, schema, tail, values, i);
            }
        }
        assert(complete =~= values);
    } else {
        assert(leading =~= values);
    }
}

/// What is decoded to a row spells its values: nothing else is accepted.
pub proof fn decoded_rows_are_spelled(input: Seq<u8>, schema: RowSchema) -> (cuts: Seq<int>)
    requires
        row_decoder::decoded_row(input, schema) is Ok,
    ensures
        ({
            let decoded = row_decoder::decoded_row(input, schema)->Ok_0;
            let row = input.take(decoded.declared_size);
            &&& 2 <= decoded.declared_size <= input.len()
            &&& decoded.flags == 0
            &&& is_row(row, schema, decoded.values, cuts)
            &&& decoded.consumed_size == cuts[schema.columns@.len() as int] + sidecar_len(
                row,
                schema,
            )
        }),
{
    let decoded = row_decoder::decoded_row(input, schema)->Ok_0;
    let row = row_decoder::declared_row(input, schema)->Ok_0;
    let present = row_decoder::presence(row, schema);
    let n = schema.columns@.len() as int;
    lemma_declared(input, schema);
    assert(input.take(decoded.declared_size) =~= row);
    lemma_sidecar_len(row, schema);
    let (leading, tail) = row_decoder::leading_columns(
        row,
        schema,
        present,
        row.len() as int,
        n,
    )->Ok_0;
    row_decoder::lemma_leading_bounds(row, schema, present, row.len() as int, n);
    let values = decoded.values;
    assert forall|i: int|
        0 <= i < n && !(in_sidecar(schema.boolean_tail) && is_flag(
            row,
            schema,
            i,
        )) implies #[trigger] values[i] == leading[i] by {
        lemma_shows(row, schema, i);
    }
    lemma_read_are_spelled(row, schema, values, row.len() as int, n, n);
    let cuts = positions(row, schema, row.len() as int, n);
    if in_sidecar(schema.boolean_tail) {
        assert forall|i: int| 0 <= i < n && #[trigger] is_flag(row, schema, i) implies values[i]
            == ValueView::Boolean(
            row_decoder::tail_boolean(row, tail, i, schema, present)->Ok_0,
        ) by {
            lemma_shows(row, schema, i);
        }
        lemma_read_sidecar(row, schema, tail, values);
    }
    cuts
}

// ---------------------------------------------------------------------------
// Prefixes
// ---------------------------------------------------------------------------

/// The entries of those among the first `n` columns that are kept, in order.
pub open spec fn listed(
    schema: RowSchema,
    values: Seq<ValueView>,
    keep: spec_fn(int) -> bool,
    n: int,
) -> Seq<PartialRowValueView> {
    Seq::new(n as nat, |i: int| i).filter(keep).map_values(
        |i: int|
            PartialRowValueView {
                column_index: i,
                column_id: schema.columns@[i].id,
                value: values[i],
            },
    )
}

/// Which columns are listed among the prefix values.
pub open spec fn not_boolean(schema: RowSchema) -> spec_fn(int) -> bool {
    |i: int| !(schema.columns@[i].column_type is Boolean)
}

/// Which columns are listed among the Boolean values.
pub open spec fn flags_of(row: Seq<u8>, schema: RowSchema) -> spec_fn(int) -> bool {
    |i: int| is_flag(row, schema, i)
}

/// Whether `row` begins with the first `through` columns, spelled with these
/// values from these cuts on, and ends with the sidecar of all flags, if the
/// layout has one. Of later columns only the values in the sidecar matter.
pub open spec fn is_row_prefix(
    row: Seq<u8>,
    schema: RowSchema,
    values: Seq<ValueView>,
    cuts: Seq<int>,
    through: int,
) -> bool {
    &&& has_header(row, schema)
    &&& 1 <= through <= schema.columns@.len()
    &&& values.len() == schema.columns@.len()
    &&& cuts.len() == through + 1
    &&& are_spelled_columns(row, schema, values, cuts, through)
    &&& cuts[through] + sidecar_len(row, schema) <= row.len()
    &&& is_sidecar(row, schema, row.len() - sidecar_len(row, schema), values)
}

/// What a prefix decode returns for such a row.
pub open spec fn prefix_result(
    row: Seq<u8>,
    schema: RowSchema,
    values: Seq<ValueView>,
    cuts: Seq<int>,
    through_ordinal: u32,
) -> PartialDecodedRowView {
    let through = through_ordinal as int;
    PartialDecodedRowView {
        declared_size: row.len() as int,
        flags: 0,
        through_ordinal,
        prefix_values: listed(schema, values, not_boolean(schema), through),
        boolean_values: listed(
            schema,
            values,
            flags_of(row, schema),
            match schema.boolean_tail {
                BooleanTailLayout::Bytes
                | BooleanTailLayout::PackedMsbFirst => schema.columns@.len() as int,
                _ => through,
            },
        ),
        opaque_middle_len: row.len() - sidecar_len(row, schema) - cuts[through],
    }
}

proof fn lemma_listed_push(
    schema: RowSchema,
    values: Seq<ValueView>,
    keep: spec_fn(int) -> bool,
    n: int,
)
    requires
        n > 0,
    ensures
        listed(schema, values, keep, n) == if keep(n - 1) {
            listed(schema, values, keep, n - 1).push(
                PartialRowValueView {
                    column_index: n - 1,
                    column_id: schema.columns@[n - 1].id,
                    value: values[n - 1],
                },
            )
        } else {
            listed(schema, values, keep, n - 1)
        },
{
    reveal(Seq::filter);
    let all = Seq::new(n as nat, |i: int| i);
    let fewer = Seq::new((n - 1) as nat, |i: int| i);
    assert(all.drop_last() =~= fewer);
    let entry = |i: int|
        PartialRowValueView {
            column_index: i,
            column_id: schema.columns@[i].id,
            value: values[i],
        };
    if keep(n - 1) {
        assert(all.filter(keep) =~= fewer.filter(keep).push(n - 1));
        assert(all.filter(keep).map_values(entry) =~= fewer.filter(keep).map_values(entry).push(
            entry(n - 1),
        ));
    }
}

proof fn lemma_listed_empty(schema: RowSchema, values: Seq<ValueView>, keep: spec_fn(int) -> bool)
    ensures
        listed(schema, values, keep, 0) == Seq::<PartialRowValueView>::empty(),
{
    reveal(Seq::filter);
    assert(listed(schema, values, keep, 0) =~= Seq::<PartialRowValueView>::empty());
}

proof fn lemma_prefix_listed(schema: RowSchema, values: Seq<ValueView>, n: int)
    requires
        0 <= n,
    ensures
        row_decoder::prefix_entries(schema, values, n) == listed(
            schema,
            values,
            not_boolean(schema),
            n,
        ),
    decreases n,
{
    if n > 0 {
        lemma_prefix_listed(schema, values, n - 1);
        lemma_listed_push(schema, values, not_boolean(schema), n);
    } else {
        lemma_listed_empty(schema, values, not_boolean(schema));
    }
}

proof fn lemma_flags_listed(row: Seq<u8>, schema: RowSchema, values: Seq<ValueView>, n: int)
    requires
        0 <= n <= schema.columns@.len(),
    ensures
        row_decoder::boolean_entries(
            schema,
            row_decoder::presence(row, schema),
            values,
            n,
        ) == listed(schema, values, flags_of(row, schema), n),
    decreases n,
{
    if n > 0 {
        lemma_flags_listed(row, schema, values, n - 1);
        lemma_listed_push(schema, values, flags_of(row, schema), n);
        lemma_shows(row, schema, n - 1);
    } else {
        lemma_listed_empty(schema, values, flags_of(row, schema));
    }
}

/// What the decoder lists is what the values of a prefix list.
proof fn lemma_prefix_result(
    row: Seq<u8>,
    schema: RowSchema,
    values: Seq<ValueView>,
    leading: Seq<ValueView>,
    through: int,
)
    requires
        1 <= through <= schema.columns@.len(),
        forall|i: int|
            0 <= i < through && !(in_sidecar(schema.boolean_tail) && is_flag(row, schema, i))
                ==> #[trigger] values[i] == leading[i],
    ensures
        row_decoder::prefix_entries(schema, leading, through) == listed(
            schema,
            values,
            not_boolean(schema),
            through,
        ),
        !in_sidecar(schema.boolean_tail) ==> row_decoder::boolean_entries(
            schema,
            row_decoder::presence(row, schema),
            leading,
            through,
        ) == listed(schema, values, flags_of(row, schema), through),
{
    row_decoder::lemma_prefix_entries(schema, leading, values, through);
    lemma_prefix_listed(schema, values, through);
    if !in_sidecar(schema.boolean_tail) {
        row_decoder::lemma_boolean_entries(
            schema,
            row_decoder::presence(row, schema),
            leading,
            values,
            through,
        );
        lemma_flags_listed(row, schema, values, through);
    }
}

/// Bytes that begin with the columns of a prefix and end with the sidecar are
/// decoded to its values, whatever stands between and after them.
pub proof fn spelled_prefixes_are_decoded(
    row: Seq<u8>,
    following: Seq<u8>,
    schema: RowSchema,
    values: Seq<ValueView>,
    cuts: Seq<int>,
    through_ordinal: u32,
)
    requires
        is_row_prefix(row, schema, values, cuts, through_ordinal as int),
    ensures
        row_decoder::partial_row(row + following, schema, through_ordinal) == Ok::<
            PartialDecodedRowView,
            DecodeError,
        >(prefix_result(row, schema, values, cuts, through_ordinal)),
{
    let n = schema.columns@.len() as int;
    let through = through_ordinal as int;
    let present = row_decoder::presence(row, schema);
    let tail = row.len() - sidecar_len(row, schema);
    let leading = at_ordinal(row, schema, values, through);
    lemma_header(row, following, schema);
    lemma_sidecar_len(row, schema);
    lemma_first_field(schema);
    lemma_spelled_are_read(row, schema, values, cuts, tail, through);
    row_decoder::lemma_leading_bounds(row, schema, present, tail, through);
    lemma_prefix_result(row, schema, values, leading, through);
    if in_sidecar(schema.boolean_tail) {
        lemma_sidecar_has_no_failure(row, schema, tail, values, n);
        let read = row_decoder::tail_values(row, tail, schema, present);
        assert forall|i: int| 0 <= i < n && row_decoder::present_boolean(schema, present, i) implies
            read[i] == values[i] by {
            lemma_shows(row, schema, i);
            lemma_sidecar(row, schema, tail, values, i);
        }
        row_decoder::lemma_boolean_entries(schema, present, read, values, n);
        lemma_flags_listed(row, schema, values, n);
    }
}

/// What a prefix decode accepts is such a row, and its result is what the
/// values of that row list.
pub proof fn decoded_prefixes_are_spelled(
    input: Seq<u8>,
    schema: RowSchema,
    through_ordinal: u32,
) -> (r: (Seq<ValueView>, Seq<int>))
    requires
        row_decoder::partial_row(input, schema, through_ordinal) is Ok,
    ensures
        ({
            let (values, cuts) = r;
            let decoded = row_decoder::partial_row(input, schema, through_ordinal)->Ok_0;
            let row = input.take(decoded.declared_size);
            &&& 2 <= decoded.declared_size <= input.len()
            &&& is_row_prefix(row, schema, values, cuts, through_ordinal as int)
            &&& decoded == prefix_result(row, schema, values, cuts, through_ordinal)
        }),
{
    let n = schema.columns@.len() as int;
    let through = through_ordinal as int;
    let decoded = row_decoder::partial_row(input, schema, through_ordinal)->Ok_0;
    let row = row_decoder::declared_row(input, schema)->Ok_0;
    let present = row_decoder::presence(row, schema);
    lemma_declared(input, schema);
    assert(input.take(decoded.declared_size) =~= row);
    lemma_sidecar_len(row, schema);
    lemma_first_field(schema);
    let tail = row.len() - sidecar_len(row, schema);
    let (leading, at) = row_decoder::leading_columns(row, schema, present, tail, through)->Ok_0;
    row_decoder::lemma_leading_bounds(row, schema, present, tail, through);
    if in_sidecar(schema.boolean_tail) {
        row_decoder::lemma_leading_limit(row, schema, present, tail, through);
    }
    let read = row_decoder::tail_values(row, tail, schema, present);
    let values = Seq::new(
        n as nat,
        |i: int|
            if in_sidecar(schema.boolean_tail) && is_flag(row, schema, i) {
                read[i]
            } else {
                leading[i]
            },
    );
    lemma_read_are_spelled(row, schema, values, tail, through, through);
    lemma_prefix_result(row, schema, values, leading, through);
    if in_sidecar(schema.boolean_tail) {
        lemma_read_sidecar(row, schema, tail, values);
        assert forall|i: int| 0 <= i < n && row_decoder::present_boolean(schema, present, i) implies
            read[i] == values[i] by {
            lemma_shows(row, schema, i);
        }
        row_decoder::lemma_boolean_entries(schema, present, read, values, n);
        lemma_flags_listed(row, schema, values, n);
    }
    (values, positions(row, schema, tail, through))
}

/// Whether `entries` holds one entry for each of the first `n` columns that is
/// kept, in ascending order, and none besides.
pub open spec fn lists_each_once(
    entries: Seq<PartialRowValueView>,
    schema: RowSchema,
    keep: spec_fn(int) -> bool,
    n: int,
) -> bool {
    &&& forall|k: int|
        0 <= k < entries.len() ==> {
            let i = (#[trigger] entries[k]).column_index;
            0 <= i < n && keep(i) && entries[k].column_id == schema.columns@[i].id
        }
    &&& forall|k: int, l: int|
        0 <= k < l < entries.len() ==> (#[trigger] entries[k]).column_index < (
        #[trigger] entries[l]).column_index
    &&& forall|i: int|
        0 <= i < n && #[trigger] keep(i) ==> exists|k: int|
            0 <= k < entries.len() && (#[trigger] entries[k]).column_index == i
}

proof fn lemma_listed_each_once(
    schema: RowSchema,
    values: Seq<ValueView>,
    keep: spec_fn(int) -> bool,
    n: int,
)
    requires
        0 <= n,
    ensures
        lists_each_once(listed(schema, values, keep, n), schema, keep, n),
        forall|k: int|
            0 <= k < listed(schema, values, keep, n).len() ==> (#[trigger] listed(
                schema,
                values,
                keep,
                n,
            )[k]).value == values[listed(schema, values, keep, n)[k].column_index],
    decreases n,
{
    let entries = listed(schema, values, keep, n);
    if n == 0 {
        lemma_listed_empty(schema, values, keep);
    } else {
        let fewer = listed(schema, values, keep, n - 1);
        lemma_listed_each_once(schema, values, keep, n - 1);
        lemma_listed_push(schema, values, keep, n);
        assert forall|i: int| 0 <= i < n && #[trigger] keep(i) implies exists|k: int|
            0 <= k < entries.len() && (#[trigger] entries[k]).column_index == i by {
            if i < n - 1 {
                let k = choose|k: int|
                    0 <= k < fewer.len() && (#[trigger] fewer[k]).column_index == i;
                assert(entries[k] == fewer[k]);
            } else {
                assert(entries[entries.len() - 1].column_index == i);
            }
        }
    }
}

/// A prefix decode lists each column through the ordinal that is not Boolean
/// exactly once, `NULL` or not, and each Boolean column that has a value.
pub proof fn prefixes_list_each_column_once(
    input: Seq<u8>,
    schema: RowSchema,
    through_ordinal: u32,
)
    requires
        row_decoder::partial_row(input, schema, through_ordinal) is Ok,
    ensures
        ({
            let decoded = row_decoder::partial_row(input, schema, through_ordinal)->Ok_0;
            let row = input.take(decoded.declared_size);
            &&& lists_each_once(
                decoded.prefix_values,
                schema,
                not_boolean(schema),
                through_ordinal as int,
            )
            &&& forall|k: int|
                0 <= k < decoded.prefix_values.len() ==> ((
                #[trigger] decoded.prefix_values[k]).value is Null <==> !shows(
                    row,
                    schema,
                    decoded.prefix_values[k].column_index,
                ))
            &&& lists_each_once(
                decoded.boolean_values,
                schema,
                flags_of(row, schema),
                match schema.boolean_tail {
                    BooleanTailLayout::Bytes
                    | BooleanTailLayout::PackedMsbFirst => schema.columns@.len() as int,
                    _ => through_ordinal as int,
                },
            )
        }),
{
    let (values, cuts) = decoded_prefixes_are_spelled(input, schema, through_ordinal);
    let decoded = row_decoder::partial_row(input, schema, through_ordinal)->Ok_0;
    let row = input.take(decoded.declared_size);
    let through = through_ordinal as int;
    let n = schema.columns@.len() as int;
    lemma_listed_each_once(schema, values, not_boolean(schema), through);
    lemma_listed_each_once(
        schema,
        values,
        flags_of(row, schema),
        if in_sidecar(schema.boolean_tail) {
            n
        } else {
            through
        },
    );
    assert forall|k: int| 0 <= k < decoded.prefix_values.len() implies ((
    #[trigger] decoded.prefix_values[k]).value is Null <==> !shows(
        row,
        schema,
        decoded.prefix_values[k].column_index,
    )) by {
        let i = decoded.prefix_values[k].column_index;
        assert(not_boolean(schema)(i));
        assert(is_spelled_column(row, schema, cuts, i, values[i]));
    }
}

/// The prefixes of a row that decodes exactly list the values of the row.
pub proof fn prefixes_list_the_values_of_the_row(
    input: Seq<u8>,
    schema: RowSchema,
    through_ordinal: u32,
)
    requires
        row_decoder::exact_row(input, schema) is Ok,
        1 <= through_ordinal <= schema.columns@.len(),
    ensures
        row_decoder::partial_row(input, schema, through_ordinal) is Ok,
        ({
            let whole = row_decoder::exact_row(input, schema)->Ok_0;
            let decoded = row_decoder::partial_row(input, schema, through_ordinal)->Ok_0;
            &&& forall|k: int|
                0 <= k < decoded.prefix_values.len() ==> (
                #[trigger] decoded.prefix_values[k]).value
                    == whole.values[decoded.prefix_values[k].column_index]
            &&& forall|k: int|
                0 <= k < decoded.boolean_values.len() ==> (
                #[trigger] decoded.boolean_values[k]).value
                    == whole.values[decoded.boolean_values[k].column_index]
        }),
{
    let whole = row_decoder::exact_row(input, schema)->Ok_0;
    let through = through_ordinal as int;
    let n = schema.columns@.len() as int;
    let cuts = decoded_rows_are_spelled(input, schema);
    let row = input.take(whole.declared_size);
    let following = input.skip(whole.declared_size);
    assert(row + following =~= input);
    let front = cuts.take(through + 1);
    assert(are_spelled_columns(row, schema, whole.values, front, through)) by {
        assert forall|i: int| 0 <= i < through implies is_spelled_column(
            row,
            schema,
            front,
            i,
            #[trigger] whole.values[i],
        ) by {
            lemma_front_cuts(row, schema, whole.values, cuts, front, i);
        }
    }
    lemma_cuts_ascend(row, schema, whole.values, cuts, through, n);
    spelled_prefixes_are_decoded(row, following, schema, whole.values, front, through_ordinal);
    lemma_listed_each_once(schema, whole.values, not_boolean(schema), through);
    lemma_listed_each_once(
        schema,
        whole.values,
        flags_of(row, schema),
        if in_sidecar(schema.boolean_tail) {
            n
        } else {
            through
        },
    );
}

/// A column is spelled between the same cuts, however many follow.
proof fn lemma_front_cuts(
    row: Seq<u8>,
    schema: RowSchema,
    values: Seq<ValueView>,
    cuts: Seq<int>,
    front: Seq<int>,
    index: int,
)
    requires
        0 <= index < front.len() - 1,
        front.len() <= cuts.len(),
        front == cuts.take(front.len() as int),
        is_spelled_column(row, schema, cuts, index, values[index]),
    ensures
        is_spelled_column(row, schema, front, index, values[index]),
{
    let value = values[index];
    assert(front[index] == cuts[index] && front[index + 1] == cuts[index + 1]);
    if is_flag(row, schema, index) && in_runs(schema.boolean_tail) {
        let msb_first = schema.boolean_tail is InlinePackedRunsMsbFirst;
        let (f, e) = choose|f: int, e: int| #[trigger]
            is_spelled_in_run(row, schema, cuts, index, value, msb_first, f, e);
        assert(front[f] == cuts[f]);
        assert(is_spelled_in_run(row, schema, front, index, value, msb_first, f, e));
    }
}

proof fn lemma_cuts_ascend(
    row: Seq<u8>,
    schema: RowSchema,
    values: Seq<ValueView>,
    cuts: Seq<int>,
    m: int,
    n: int,
)
    requires
        0 <= m <= n <= schema.columns@.len(),
        are_spelled_columns(row, schema, values, cuts, n),
    ensures
        cuts[m] <= cuts[n],
    decreases n,
{
    if m < n {
        lemma_cuts_ascend(row, schema, values, cuts, m, n - 1);
        assert(is_spelled_column(row, schema, cuts, n - 1, values[n - 1]));
        if is_flag(row, schema, n - 1) && in_runs(schema.boolean_tail) {
            let msb_first = schema.boolean_tail is InlinePackedRunsMsbFirst;
            let (f, e) = choose|f: int, e: int| #[trigger]
                is_spelled_in_run(row, schema, cuts, n - 1, values[n - 1], msb_first, f, e);
            assert(is_spelled_in_run(row, schema, cuts, n - 1, values[n - 1], msb_first, f, e));
        }
    }
}

} // verus!
