//! Single fields inside a declared row boundary.
//!
//! A field decoder looks at one column and at the position where its bytes
//! begin, and gives its value with the position after it.
use vstd::prelude::*;
use vstd::slice;

use crate::bytes;
use crate::date::{SaDate, SaDateTime};
use crate::decimal;
use crate::decode_error::DecodeError;
use crate::schema::{
    ColumnDef, ColumnType, EnumLayout, NumericLayout, RowSchema, VariableLengthLayout,
    VariableOverflowLayout,
};
use crate::value::{EnterpriseNumericToken, Value, ValueView};

verus! {

/// A field's value with the position after it, or why it cannot be decoded.
pub type Field = Result<(ValueView, int), DecodeError>;

/// The failure of a field that needs more bytes than the row has left.
pub open spec fn truncated(row: Seq<u8>, at: int, column: int, needed: int) -> DecodeError {
    DecodeError::Truncated {
        column: column as usize,
        needed: needed as usize,
        remaining: (row.len() - at) as usize,
    }
}

/// Whether `count` bytes are left at `at`.
pub open spec fn fits(row: Seq<u8>, at: int, count: int) -> bool {
    at + count <= row.len()
}

/// The `count` bytes at `at`.
pub open spec fn slice_at(row: Seq<u8>, at: int, count: int) -> Seq<u8> {
    row.subrange(at, at + count)
}

/// Whether integers can be stored in `width` bytes.
pub open spec fn integer_width(width: u16) -> bool {
    width == 1 || width == 2 || width == 4 || width == 8
}

/// Take the next `count` bytes of the row.
pub fn take<'a>(row: &'a [u8], cursor: usize, count: usize, column: usize) -> (taken: Result<
    &'a [u8],
    DecodeError,
>)
    requires
        cursor <= row@.len(),
    ensures
        row@.len() <= usize::MAX,
        match taken {
            Ok(bytes) => fits(row@, cursor as int, count as int) && bytes@ == slice_at(
                row@,
                cursor as int,
                count as int,
            ),
            Err(error) => !fits(row@, cursor as int, count as int) && error == truncated(
                row@,
                cursor as int,
                column as int,
                count as int,
            ),
        },
{
    let remaining: usize = row.len() - cursor;
    if remaining < count {
        return Err(DecodeError::Truncated { column, needed: count, remaining });
    }
    Ok(slice::slice_subrange(row, cursor, cursor + count))
}

/// A value and position as a specification sees them.
pub open spec fn field_view(field: Result<(Value, usize), DecodeError>) -> Field {
    match field {
        Ok((value, next)) => Ok((value@, next as int)),
        Err(error) => Err(error),
    }
}

// ---------------------------------------------------------------------------
// Integers
// ---------------------------------------------------------------------------

/// A signed integer field of the declared width.
pub open spec fn signed_field(row: Seq<u8>, at: int, column: int, width: u16) -> Field {
    if !integer_width(width) {
        Err(DecodeError::InvalidIntegerWidth { column: column as usize, width })
    } else if !fits(row, at, width as int) {
        Err(truncated(row, at, column, width as int))
    } else {
        let unsigned = bytes::le_value(slice_at(row, at, width as int));
        Ok((ValueView::Integer(bytes::signed_value(unsigned, width as nat) as i64), at + width))
    }
}

/// An unsigned integer of the declared width, with the position after it.
pub open spec fn unsigned_scalar(row: Seq<u8>, at: int, column: int, width: u16) -> Result<
    (u64, int),
    DecodeError,
> {
    if !integer_width(width) {
        Err(DecodeError::InvalidIntegerWidth { column: column as usize, width })
    } else if !fits(row, at, width as int) {
        Err(truncated(row, at, column, width as int))
    } else {
        Ok((bytes::le_value(slice_at(row, at, width as int)) as u64, at + width))
    }
}

fn read_signed(row: &[u8], cursor: usize, column: usize, width: u16) -> (field: Result<
    (Value, usize),
    DecodeError,
>)
    requires
        cursor <= row@.len(),
    ensures
        field_view(field) == signed_field(row@, cursor as int, column as int, width),
{
    if !(width == 1 || width == 2 || width == 4 || width == 8) {
        return Err(DecodeError::InvalidIntegerWidth { column, width });
    }
    match take(row, cursor, width as usize, column) {
        Ok(taken) => Ok((Value::Integer(bytes::read_le_signed(taken)), cursor + width as usize)),
        Err(error) => Err(error),
    }
}

fn read_unsigned(row: &[u8], cursor: usize, column: usize, width: u16) -> (field: Result<
    (u64, usize),
    DecodeError,
>)
    requires
        cursor <= row@.len(),
    ensures
        (match field {
            Ok((value, next)) => Ok((value, next as int)),
            Err(error) => Err(error),
        }) == unsigned_scalar(row@, cursor as int, column as int, width),
{
    if !(width == 1 || width == 2 || width == 4 || width == 8) {
        return Err(DecodeError::InvalidIntegerWidth { column, width });
    }
    match take(row, cursor, width as usize, column) {
        Ok(taken) => Ok((bytes::read_le(taken), cursor + width as usize)),
        Err(error) => Err(error),
    }
}

/// An unsigned integer field.
pub open spec fn unsigned_field(row: Seq<u8>, at: int, column: int, width: u16) -> Field {
    match unsigned_scalar(row, at, column, width) {
        Ok((value, next)) => Ok((ValueView::Unsigned(value), next)),
        Err(error) => Err(error),
    }
}

/// An `ENUM` field.
pub open spec fn enum_field(
    row: Seq<u8>,
    at: int,
    column: int,
    width: u16,
    layout: EnumLayout,
) -> Field {
    if layout is Unsupported {
        Err(DecodeError::UnsupportedEnum { column: column as usize, width })
    } else if !integer_width(width) {
        Err(DecodeError::InvalidEnumWidth { column: column as usize, width })
    } else {
        match unsigned_scalar(row, at, column, width) {
            Ok((value, next)) => Ok((ValueView::Enum(value), next)),
            Err(error) => Err(error),
        }
    }
}

fn decode_enum(row: &[u8], cursor: usize, column: usize, width: u16, layout: EnumLayout) -> (field:
    Result<(Value, usize), DecodeError>)
    requires
        cursor <= row@.len(),
    ensures
        field_view(field) == enum_field(row@, cursor as int, column as int, width, layout),
{
    if layout == EnumLayout::Unsupported {
        return Err(DecodeError::UnsupportedEnum { column, width });
    }
    if !(width == 1 || width == 2 || width == 4 || width == 8) {
        return Err(DecodeError::InvalidEnumWidth { column, width });
    }
    match read_unsigned(row, cursor, column, width) {
        Ok((value, next)) => Ok((Value::Enum(value), next)),
        Err(error) => Err(error),
    }
}

// ---------------------------------------------------------------------------
// Dates
// ---------------------------------------------------------------------------

/// The four bytes at `at` as a signed integer.
pub open spec fn signed_word_at(row: Seq<u8>, at: int) -> i32 {
    bytes::signed_value(bytes::le_value(slice_at(row, at, 4)), 4) as i32
}

/// A `DATE` field.
pub open spec fn date_field(row: Seq<u8>, at: int, column: int) -> Field {
    if !fits(row, at, 4) {
        Err(truncated(row, at, column, 4))
    } else {
        Ok((ValueView::Date(SaDate { raw_minutes: signed_word_at(row, at) }), at + 4))
    }
}

/// A `DATETIME` field.
pub open spec fn datetime_field(row: Seq<u8>, at: int, column: int) -> Field {
    if !fits(row, at, 4) {
        Err(truncated(row, at, column, 4))
    } else if !fits(row, at + 4, 4) {
        Err(truncated(row, at + 4, column, 4))
    } else {
        let minutes = signed_word_at(row, at);
        Ok(
            (
                ValueView::DateTime(
                    SaDateTime {
                        date: SaDate { raw_minutes: minutes },
                        minutes_since_sa_epoch: minutes,
                        subminute_raw: signed_word_at(row, at + 4),
                    },
                ),
                at + 8,
            ),
        )
    }
}

fn read_word(row: &[u8], cursor: usize, column: usize) -> (word: Result<i32, DecodeError>)
    requires
        cursor <= row@.len(),
    ensures
        row@.len() <= usize::MAX,
        match word {
            Ok(value) => fits(row@, cursor as int, 4) && value == signed_word_at(
                row@,
                cursor as int,
            ),
            Err(error) => !fits(row@, cursor as int, 4) && error == truncated(
                row@,
                cursor as int,
                column as int,
                4,
            ),
        },
{
    match take(row, cursor, 4, column) {
        Ok(taken) => {
            proof {
                bytes::lemma_value_counts();
                bytes::lemma_le_value_bound(taken@);
            }
            Ok(bytes::read_le_signed(taken) as i32)
        },
        Err(error) => Err(error),
    }
}

fn decode_date(row: &[u8], cursor: usize, column: usize) -> (field: Result<
    (Value, usize),
    DecodeError,
>)
    requires
        cursor <= row@.len(),
    ensures
        field_view(field) == date_field(row@, cursor as int, column as int),
{
    match read_word(row, cursor, column) {
        Ok(raw_minutes) => Ok((Value::Date(SaDate { raw_minutes }), cursor + 4)),
        Err(error) => Err(error),
    }
}

fn decode_datetime(row: &[u8], cursor: usize, column: usize) -> (field: Result<
    (Value, usize),
    DecodeError,
>)
    requires
        cursor <= row@.len(),
    ensures
        field_view(field) == datetime_field(row@, cursor as int, column as int),
{
    let minutes: i32 = match read_word(row, cursor, column) {
        Ok(minutes) => minutes,
        Err(error) => {
            return Err(error);
        },
    };
    let subminute_raw: i32 = match read_word(row, cursor + 4, column) {
        Ok(word) => word,
        Err(error) => {
            return Err(error);
        },
    };
    Ok((
        Value::DateTime(
            SaDateTime {
                date: SaDate { raw_minutes: minutes },
                minutes_since_sa_epoch: minutes,
                subminute_raw,
            },
        ),
        cursor + 8,
    ))
}

// ---------------------------------------------------------------------------
// Numerics
// ---------------------------------------------------------------------------

/// The first byte that is no base-100 digit.
pub open spec fn first_bad_digit(digits: Seq<u8>) -> Option<u8>
    decreases digits.len(),
{
    if digits.len() == 0 {
        None
    } else if digits[0] > 99 {
        Some(digits[0])
    } else {
        first_bad_digit(digits.drop_first())
    }
}

/// A `NUMERIC` field: a digit count, a marker and that many base-100 digits.
pub open spec fn numeric_field(row: Seq<u8>, at: int, column: int, layout: NumericLayout) -> Field {
    if !fits(row, at, 1) {
        Err(truncated(row, at, column, 1))
    } else if !fits(row, at + 1, 1) {
        Err(truncated(row, at + 1, column, 1))
    } else {
        let count = row[at];
        let marker = row[at + 1];
        if !fits(row, at + 2, count as int) {
            Err(truncated(row, at + 2, column, count as int))
        } else {
            let digits = slice_at(row, at + 2, count as int);
            match first_bad_digit(digits) {
                Some(digit) => Err(
                    DecodeError::InvalidNumericDigit { column: column as usize, digit },
                ),
                None => Ok(
                    (
                        match layout {
                            NumericLayout::LegacyForward => ValueView::Decimal(
                                if count == 0 {
                                    decimal::short_decimal(marker)
                                } else {
                                    decimal::base100_decimal(marker, digits)
                                },
                            ),
                            NumericLayout::EnterpriseMaterializedRaw => {
                                ValueView::EnterpriseNumeric { marker, digits }
                            },
                        },
                        at + 2 + count,
                    ),
                ),
            }
        }
    }
}

/// Look for the first byte that is no base-100 digit.
fn find_bad_digit(digits: &[u8]) -> (bad: Option<u8>)
    ensures
        bad == first_bad_digit(digits@),
        bad is None ==> forall|i: int| 0 <= i < digits@.len() ==> digits@[i] <= 99,
{
    let mut i: usize = 0;
    assert(digits@.skip(0) =~= digits@);
    while i < digits.len()
        invariant
            i <= digits@.len(),
            forall|j: int| 0 <= j < i ==> digits@[j] <= 99,
            first_bad_digit(digits@) == first_bad_digit(digits@.skip(i as int)),
        decreases digits@.len() - i,
    {
        let digit: u8 = digits[i];
        assert(digits@.skip(i as int).drop_first() =~= digits@.skip(i + 1));
        if digit > 99 {
            return Some(digit);
        }
        i = i + 1;
    }
    assert(digits@.skip(digits@.len() as int) =~= Seq::<u8>::empty());
    None
}

fn decode_numeric_value(row: &[u8], cursor: usize, column: usize, layout: NumericLayout) -> (field:
    Result<(Value, usize), DecodeError>)
    requires
        cursor <= row@.len(),
    ensures
        field_view(field) == numeric_field(row@, cursor as int, column as int, layout),
{
    let count: u8 = match take(row, cursor, 1, column) {
        Ok(taken) => taken[0],
        Err(error) => {
            return Err(error);
        },
    };
    let marker: u8 = match take(row, cursor + 1, 1, column) {
        Ok(taken) => taken[0],
        Err(error) => {
            return Err(error);
        },
    };
    let digits: &[u8] = match take(row, cursor + 2, count as usize, column) {
        Ok(taken) => taken,
        Err(error) => {
            return Err(error);
        },
    };
    if let Some(digit) = find_bad_digit(digits) {
        return Err(DecodeError::InvalidNumericDigit { column, digit });
    }
    let value: Value = match layout {
        NumericLayout::LegacyForward => Value::Decimal(
            if count == 0 {
                decimal::decode_short_decimal(marker)
            } else {
                decimal::decode_base100_decimal(marker, digits)
            },
        ),
        NumericLayout::EnterpriseMaterializedRaw => Value::EnterpriseNumeric(
            EnterpriseNumericToken { marker, digits: bytes::copy_bytes(digits) },
        ),
    };
    Ok((value, cursor + 2 + count as usize))
}

// ---------------------------------------------------------------------------
// Variable-length values
// ---------------------------------------------------------------------------

/// Number of bytes of the length prefix of a variable column.
pub open spec fn length_width(column: ColumnDef, layout: VariableLengthLayout) -> int {
    match layout {
        VariableLengthLayout::U8 => 1,
        VariableLengthLayout::U16Le => 2,
        VariableLengthLayout::DeclaredWidth { wide_at_or_above } => if column.width
            >= wide_at_or_above {
            2
        } else {
            1
        },
    }
}

/// A variable-length field: a length prefix, whose largest value marks an
/// overflow, and that many bytes.
pub open spec fn variable_field(
    row: Seq<u8>,
    at: int,
    index: int,
    column: ColumnDef,
    schema: RowSchema,
) -> Field {
    let prefix = length_width(column, schema.variable_length_layout);
    if !fits(row, at, prefix) {
        Err(truncated(row, at, index, prefix))
    } else {
        let length = if prefix == 1 {
            row[at] as int
        } else {
            bytes::le16(row, at)
        };
        let overflow = length == if prefix == 1 {
            0xffint
        } else {
            0xffff
        };
        let start = at + prefix;
        if overflow {
            match schema.variable_overflow_layout {
                VariableOverflowLayout::Unsupported => Err(
                    DecodeError::OverflowValue { column: index as usize },
                ),
                VariableOverflowLayout::Pointer { width } => if width == 0 {
                    Err(DecodeError::InvalidOverflowPointerWidth { column: index as usize })
                } else if !fits(row, start, width as int) {
                    Err(truncated(row, start, index, width as int))
                } else {
                    Ok(
                        (
                            ValueView::OverflowPointer(slice_at(row, start, width as int)),
                            start + width,
                        ),
                    )
                },
            }
        } else if !fits(row, start, length) {
            Err(truncated(row, start, index, length))
        } else {
            Ok((ValueView::Bytes(slice_at(row, start, length)), start + length))
        }
    }
}

fn decode_variable(
    row: &[u8],
    cursor: usize,
    index: usize,
    column: &ColumnDef,
    schema: &RowSchema,
) -> (field: Result<(Value, usize), DecodeError>)
    requires
        cursor <= row@.len(),
    ensures
        field_view(field) == variable_field(row@, cursor as int, index as int, *column, *schema),
{
    let prefix: usize = match schema.variable_length_layout {
        VariableLengthLayout::U8 => 1,
        VariableLengthLayout::U16Le => 2,
        VariableLengthLayout::DeclaredWidth { wide_at_or_above } => if column.width
            >= wide_at_or_above {
            2
        } else {
            1
        },
    };
    let length_bytes: &[u8] = match take(row, cursor, prefix, index) {
        Ok(taken) => taken,
        Err(error) => {
            return Err(error);
        },
    };
    let (length, overflow): (usize, bool) = if prefix == 1 {
        (length_bytes[0] as usize, length_bytes[0] == 0xff)
    } else {
        let length: u16 = bytes::read_le16(length_bytes, 0);
        (length as usize, length == 0xffff)
    };
    let start: usize = cursor + prefix;
    if overflow {
        return match schema.variable_overflow_layout {
            VariableOverflowLayout::Unsupported => Err(
                DecodeError::OverflowValue { column: index },
            ),
            VariableOverflowLayout::Pointer { width } => if width == 0 {
                Err(DecodeError::InvalidOverflowPointerWidth { column: index })
            } else {
                match take(row, start, width as usize, index) {
                    Ok(taken) => Ok(
                        (
                            Value::OverflowPointer(bytes::copy_bytes(taken)),
                            start + width as usize,
                        ),
                    ),
                    Err(error) => Err(error),
                }
            },
        };
    }
    match take(row, start, length, index) {
        Ok(taken) => Ok((Value::Bytes(bytes::copy_bytes(taken)), start + length)),
        Err(error) => Err(error),
    }
}

// ---------------------------------------------------------------------------
// Any column but a Boolean
// ---------------------------------------------------------------------------

/// The field of a present column that is not Boolean; a Boolean column has
/// none.
pub open spec fn non_boolean_field(
    row: Seq<u8>,
    at: int,
    index: int,
    column: ColumnDef,
    schema: RowSchema,
) -> Field {
    match column.column_type {
        ColumnType::SmallInt | ColumnType::Integer | ColumnType::Integer2 => signed_field(
            row,
            at,
            index,
            column.width,
        ),
        ColumnType::UInt64 | ColumnType::UInt32 => unsigned_field(row, at, index, column.width),
        ColumnType::Int64 => if column.width != 8 {
            Err(
                DecodeError::InvalidIntegerWidth { column: index as usize, width: column.width },
            )
        } else {
            signed_field(row, at, index, 8)
        },
        ColumnType::Numeric => numeric_field(row, at, index, schema.numeric_layout),
        ColumnType::Enum => enum_field(row, at, index, column.width, schema.enum_layout),
        ColumnType::Date => date_field(row, at, index),
        ColumnType::DateTime => datetime_field(row, at, index),
        ColumnType::Char | ColumnType::Char2 | ColumnType::Text | ColumnType::Text2 => {
            variable_field(row, at, index, column, schema)
        },
        ColumnType::Boolean => Ok((ValueView::Null, at)),
    }
}

/// Decode the field of a present column that is not Boolean.
pub fn decode_non_boolean(
    row: &[u8],
    cursor: usize,
    index: usize,
    column: &ColumnDef,
    schema: &RowSchema,
) -> (field: Result<(Value, usize), DecodeError>)
    requires
        cursor <= row@.len(),
        column.column_type !is Boolean,
    ensures
        field_view(field) == non_boolean_field(
            row@,
            cursor as int,
            index as int,
            *column,
            *schema,
        ),
{
    if column.column_type.is_variable() {
        return decode_variable(row, cursor, index, column, schema);
    }
    match column.column_type {
        ColumnType::SmallInt | ColumnType::Integer | ColumnType::Integer2 => read_signed(
            row,
            cursor,
            index,
            column.width,
        ),
        ColumnType::UInt64 | ColumnType::UInt32 => match read_unsigned(
            row,
            cursor,
            index,
            column.width,
        ) {
            Ok((value, next)) => Ok((Value::Unsigned(value), next)),
            Err(error) => Err(error),
        },
        ColumnType::Int64 => {
            if column.width != 8 {
                return Err(
                    DecodeError::InvalidIntegerWidth { column: index, width: column.width },
                );
            }
            read_signed(row, cursor, index, 8)
        },
        ColumnType::Numeric => decode_numeric_value(row, cursor, index, schema.numeric_layout),
        ColumnType::Enum => decode_enum(row, cursor, index, column.width, schema.enum_layout),
        ColumnType::Date => decode_date(row, cursor, index),
        _ => decode_datetime(row, cursor, index),
    }
}

/// A field begins and ends inside the row.
pub proof fn lemma_field_bounds(
    row: Seq<u8>,
    at: int,
    index: int,
    column: ColumnDef,
    schema: RowSchema,
)
    requires
        0 <= at <= row.len(),
    ensures
        non_boolean_field(row, at, index, column, schema) matches Ok((_, next)) ==> at <= next
            <= row.len(),
{
}

} // verus!
