//! How the value of a single field is spelled in bytes.
//!
//! The decoders of [`crate::field`] read a field from the bytes where it
//! begins. Here the same grammar is told the other way round, as a relation
//! between the exact bytes of a field and its value, and the decoders are
//! proved to follow it in both directions.
use vstd::arithmetic::power;
use vstd::prelude::*;

use crate::bytes;
use crate::date::{SaDate, SaDateTime};
use crate::decimal;
use crate::decimal::DecimalView;
use crate::decode_error::DecodeError;
use crate::field;
use crate::schema::{
    ColumnDef, ColumnType, EnumLayout, NumericLayout, RowSchema, VariableLengthLayout,
    VariableOverflowLayout,
};
use crate::text;
use crate::value::ValueView;

verus! {

// ---------------------------------------------------------------------------
// Integers
// ---------------------------------------------------------------------------

/// Whether `piece` holds the little-endian bytes of the natural number `n`.
pub open spec fn spells_unsigned(piece: Seq<u8>, n: int) -> bool {
    if piece.len() == 1 {
        n == piece[0]
    } else if piece.len() == 2 {
        n == piece[0] + 0x100 * piece[1]
    } else if piece.len() == 4 {
        n == piece[0] + 0x100 * piece[1] + 0x1_0000 * piece[2] + 0x100_0000 * piece[3]
    } else if piece.len() == 8 {
        n == piece[0] + 0x100 * piece[1] + 0x1_0000 * piece[2] + 0x100_0000 * piece[3]
            + 0x1_0000_0000 * piece[4] + 0x100_0000_0000 * piece[5] + 0x1_0000_0000_0000 * piece[6]
            + 0x100_0000_0000_0000 * piece[7]
    } else {
        false
    }
}

/// Number of integers that the bytes of a piece can tell apart.
pub open spec fn modulus(len: nat) -> int {
    if len == 1 {
        0x100
    } else if len == 2 {
        0x1_0000
    } else if len == 4 {
        0x1_0000_0000
    } else {
        0x1_0000_0000_0000_0000
    }
}

/// Whether `piece` holds the little-endian two's-complement bytes of `n`.
pub open spec fn spells_signed(piece: Seq<u8>, n: int) -> bool {
    &&& -modulus(piece.len()) <= 2 * n < modulus(piece.len())
    &&& spells_unsigned(
        piece,
        if n < 0 {
            n + modulus(piece.len())
        } else {
            n
        },
    )
}

// ---------------------------------------------------------------------------
// Decimals
// ---------------------------------------------------------------------------

/// Whether `digits` is the decimal numeral of `n`: digits only, at least one,
/// and no leading zero but in zero itself.
pub open spec fn is_numeral(digits: Seq<char>, n: int) -> bool {
    &&& digits.len() >= 1
    &&& forall|i: int| 0 <= i < digits.len() ==> '0' <= #[trigger] digits[i] <= '9'
    &&& digits.len() > 1 ==> digits[0] != '0'
    &&& numeral_value(digits) == n
}

/// Value of decimal digits, the most significant first.
pub open spec fn numeral_value(digits: Seq<char>) -> int
    decreases digits.len(),
{
    if digits.len() == 0 {
        0
    } else {
        10 * numeral_value(digits.drop_last()) + (digits.last() as int - 48)
    }
}

/// Value of base-100 digits, the most significant first.
pub open spec fn pairs_value(digits: Seq<u8>) -> int
    decreases digits.len(),
{
    if digits.len() == 0 {
        0
    } else {
        100 * pairs_value(digits.drop_last()) + digits.last()
    }
}

/// Whether a marker with base-100 digits spells a decimal in the legacy layout.
pub open spec fn spells_decimal(marker: u8, digits: Seq<u8>, decimal: DecimalView) -> bool {
    if digits.len() == 0 {
        &&& decimal.negative == (marker > 0x80)
        &&& decimal.scale == 0
        &&& is_numeral(
            decimal.coefficient,
            if marker > 0x80 {
                marker - 0x80
            } else {
                0x80 - marker
            },
        )
    } else if marker >= 0xc0 {
        &&& !decimal.negative
        &&& decimal.scale == 0
        &&& is_numeral(
            decimal.coefficient,
            pairs_value(digits) * power::pow(100, (marker - 0xc0) as nat),
        )
    } else {
        &&& !decimal.negative
        &&& decimal.scale == 2 * (0xc0 - marker)
        &&& is_numeral(decimal.coefficient, pairs_value(digits))
    }
}

// ---------------------------------------------------------------------------
// Fields
// ---------------------------------------------------------------------------

/// Whether the length of a variable value takes two bytes.
pub open spec fn is_wide(column: ColumnDef, layout: VariableLengthLayout) -> bool {
    match layout {
        VariableLengthLayout::U8 => false,
        VariableLengthLayout::U16Le => true,
        VariableLengthLayout::DeclaredWidth { wide_at_or_above } => column.width
            >= wide_at_or_above,
    }
}

/// Whether `body` follows a length of `length` in a variable field with the
/// given value. The largest length marks an overflow pointer.
pub open spec fn spells_body(
    body: Seq<u8>,
    length: int,
    largest: int,
    layout: VariableOverflowLayout,
    value: ValueView,
) -> bool {
    if length == largest {
        layout matches VariableOverflowLayout::Pointer { width } && width > 0 && body.len() == width
            && value == ValueView::OverflowPointer(body)
    } else {
        body.len() == length && value == ValueView::Bytes(body)
    }
}

/// Whether `piece` is exactly how the value of a column is spelled. No Boolean
/// is spelled this way.
pub open spec fn spells(
    piece: Seq<u8>,
    column: ColumnDef,
    schema: RowSchema,
    value: ValueView,
) -> bool {
    match column.column_type {
        ColumnType::SmallInt | ColumnType::Integer | ColumnType::Integer2 => {
            value matches ValueView::Integer(n) && piece.len() == column.width && spells_signed(
                piece,
                n as int,
            )
        },
        ColumnType::Int64 => {
            value matches ValueView::Integer(n) && piece.len() == column.width == 8
                && spells_signed(piece, n as int)
        },
        ColumnType::UInt64 | ColumnType::UInt32 => {
            value matches ValueView::Unsigned(n) && piece.len() == column.width && spells_unsigned(
                piece,
                n as int,
            )
        },
        ColumnType::Enum => {
            value matches ValueView::Enum(n) && schema.enum_layout
                == EnumLayout::FixedWidthUnsigned && piece.len() == column.width
                && spells_unsigned(piece, n as int)
        },
        ColumnType::Date => {
            value matches ValueView::Date(date) && piece.len() == 4 && spells_signed(
                piece,
                date.raw_minutes as int,
            )
        },
        ColumnType::DateTime => {
            value matches ValueView::DateTime(datetime) && piece.len() == 8 && spells_signed(
                piece.take(4),
                datetime.minutes_since_sa_epoch as int,
            ) && spells_signed(piece.skip(4), datetime.subminute_raw as int)
                && datetime.date.raw_minutes == datetime.minutes_since_sa_epoch
        },
        ColumnType::Numeric => {
            &&& piece.len() >= 2
            &&& piece.len() == 2 + piece[0]
            &&& forall|i: int| 2 <= i < piece.len() ==> #[trigger] piece[i] <= 99
            &&& match schema.numeric_layout {
                NumericLayout::LegacyForward => {
                    value matches ValueView::Decimal(decimal) && spells_decimal(
                        piece[1],
                        piece.skip(2),
                        decimal,
                    )
                },
                NumericLayout::EnterpriseMaterializedRaw => {
                    value == ValueView::EnterpriseNumeric { marker: piece[1], digits: piece.skip(2) }
                },
            }
        },
        ColumnType::Char | ColumnType::Char2 | ColumnType::Text | ColumnType::Text2 => {
            if is_wide(column, schema.variable_length_layout) {
                piece.len() >= 2 && spells_body(
                    piece.skip(2),
                    piece[0] + 0x100 * piece[1],
                    0xffff,
                    schema.variable_overflow_layout,
                    value,
                )
            } else {
                piece.len() >= 1 && spells_body(
                    piece.skip(1),
                    piece[0] as int,
                    0xff,
                    schema.variable_overflow_layout,
                    value,
                )
            }
        },
        ColumnType::Boolean => false,
    }
}

// ---------------------------------------------------------------------------
// The decoders follow the grammar
// ---------------------------------------------------------------------------

proof fn lemma_le_value(piece: Seq<u8>)
    requires
        piece.len() == 1 || piece.len() == 2 || piece.len() == 4 || piece.len() == 8,
    ensures
        spells_unsigned(piece, bytes::le_value(piece) as int),
        bytes::value_count(piece.len()) == modulus(piece.len()),
        bytes::le_value(piece) < modulus(piece.len()),
{
    bytes::lemma_value_counts();
    bytes::lemma_le_value_bound(piece);
    if piece.len() == 8 {
        lemma_le_value_skips(piece, 4);
        lemma_le_value_of_four(piece.skip(4));
        assert(piece.skip(0) =~= piece);
    } else if piece.len() == 4 {
        lemma_le_value_of_four(piece);
    } else {
        lemma_le_value_skips(piece, piece.len());
        assert(piece.skip(0) =~= piece);
    }
}

proof fn lemma_le_value_of_four(piece: Seq<u8>)
    requires
        piece.len() == 4,
    ensures
        bytes::le_value(piece) == piece[0] + 0x100 * piece[1] + 0x1_0000 * piece[2] + 0x100_0000
            * piece[3],
{
    lemma_le_value_skips(piece, 4);
    assert(piece.skip(0) =~= piece);
}

/// The first one, two or four bytes of a value, and the rest of it.
proof fn lemma_le_value_skips(piece: Seq<u8>, count: nat)
    requires
        count <= piece.len(),
        count == 1 || count == 2 || count == 4,
    ensures
        count == 1 ==> bytes::le_value(piece.skip(0)) == piece[0] + 0x100 * bytes::le_value(
            piece.skip(1),
        ),
        count == 2 ==> bytes::le_value(piece.skip(0)) == piece[0] + 0x100 * piece[1] + 0x1_0000
            * bytes::le_value(piece.skip(2)),
        count == 4 ==> bytes::le_value(piece.skip(0)) == piece[0] + 0x100 * piece[1] + 0x1_0000
            * piece[2] + 0x100_0000 * piece[3] + 0x1_0000_0000 * bytes::le_value(piece.skip(4)),
        bytes::le_value(piece.skip(piece.len() as int)) == 0,
{
    lemma_le_value_skip(piece, 0);
    if count >= 2 {
        lemma_le_value_skip(piece, 1);
    }
    if count == 4 {
        lemma_le_value_skip(piece, 2);
        lemma_le_value_skip(piece, 3);
    }
}

proof fn lemma_le_value_skip(piece: Seq<u8>, i: int)
    requires
        0 <= i < piece.len(),
    ensures
        bytes::le_value(piece.skip(i)) == piece[i] + 256 * bytes::le_value(piece.skip(i + 1)),
{
    assert(piece.skip(i).drop_first() =~= piece.skip(i + 1));
}

proof fn lemma_signed(piece: Seq<u8>, n: int)
    requires
        piece.len() == 1 || piece.len() == 2 || piece.len() == 4 || piece.len() == 8,
    ensures
        spells_signed(piece, n) <==> n == bytes::signed_value(
            bytes::le_value(piece),
            piece.len(),
        ),
        -modulus(piece.len()) <= 2 * bytes::signed_value(bytes::le_value(piece), piece.len())
            < modulus(piece.len()),
{
    lemma_le_value(piece);
}

proof fn lemma_numeral_value_bounds(digits: Seq<char>)
    requires
        forall|i: int| 0 <= i < digits.len() ==> '0' <= #[trigger] digits[i] <= '9',
    ensures
        numeral_value(digits) >= 0,
        digits.len() > 0 && digits[0] != '0' ==> numeral_value(digits) >= 1,
    decreases digits.len(),
{
    if digits.len() > 0 {
        lemma_numeral_value_bounds(digits.drop_last());
        assert('0' <= digits[digits.len() - 1] <= '9');
        if digits.len() == 1 {
            assert(numeral_value(digits.drop_last()) == 0);
        } else {
            assert(digits.drop_last()[0] == digits[0]);
        }
    }
}

proof fn lemma_decimal_text_is_numeral(n: nat)
    ensures
        is_numeral(text::decimal_text(n), n as int),
    decreases n,
{
    let digits = text::decimal_text(n);
    if n >= 10 {
        lemma_decimal_text_is_numeral(n / 10);
        let front = text::decimal_text(n / 10);
        assert(digits.drop_last() =~= front);
        lemma_numeral_value_bounds(front);
        assert(front[0] != '0') by {
            if front.len() == 1 {
                assert(front.drop_last() =~= Seq::<char>::empty());
                assert(numeral_value(front.drop_last()) == 0);
                assert(front[0] as int - 48 == n / 10);
            }
        }
        assert(digits[0] == front[0]);
    } else {
        assert(digits.drop_last() =~= Seq::<char>::empty());
        assert(numeral_value(digits.drop_last()) == 0);
    }
}

proof fn lemma_numeral_is_decimal_text(digits: Seq<char>, n: int)
    requires
        is_numeral(digits, n),
    ensures
        n >= 0,
        digits == text::decimal_text(n as nat),
    decreases digits.len(),
{
    lemma_numeral_value_bounds(digits);
    let front = digits.drop_last();
    let last = digits.last();
    assert('0' <= digits[digits.len() - 1] <= '9');
    let d = last as int - 48;
    assert(text::digit_char(d, false) == last);
    if digits.len() == 1 {
        assert(front =~= Seq::<char>::empty());
        assert(numeral_value(front) == 0);
        assert(digits =~= text::decimal_text(n as nat));
    } else {
        lemma_numeral_value_bounds(front);
        let m = numeral_value(front);
        assert(front[0] == digits[0]);
        lemma_numeral_is_decimal_text(front, m);
        assert(n / 10 == m && n % 10 == d);
        assert(digits =~= text::decimal_text(n as nat));
    }
}

proof fn lemma_pairs_value(digits: Seq<u8>)
    ensures
        pairs_value(digits) == decimal::base100_value(digits),
    decreases digits.len(),
{
    if digits.len() > 0 {
        lemma_pairs_value(digits.drop_last());
    }
}

proof fn lemma_hundreds(exponent: nat)
    ensures
        power::pow(100, exponent) == decimal::hundred_to(exponent),
    decreases exponent,
{
    reveal(power::pow);
    if exponent > 0 {
        lemma_hundreds((exponent - 1) as nat);
    }
}

proof fn lemma_decimal(marker: u8, digits: Seq<u8>, value: DecimalView)
    ensures
        spells_decimal(marker, digits, value) <==> value == if digits.len() == 0 {
            decimal::short_decimal(marker)
        } else {
            decimal::base100_decimal(marker, digits)
        },
{
    let exact = if digits.len() == 0 {
        decimal::short_decimal(marker)
    } else {
        decimal::base100_decimal(marker, digits)
    };
    lemma_pairs_value(digits);
    let number: int = if digits.len() == 0 {
        if marker > 0x80 {
            marker - 0x80
        } else {
            0x80 - marker
        }
    } else if marker >= 0xc0 {
        lemma_hundreds((marker - 0xc0) as nat);
        pairs_value(digits) * power::pow(100, (marker - 0xc0) as nat)
    } else {
        pairs_value(digits)
    };
    assert(number >= 0 && exact.coefficient == text::decimal_text(number as nat));
    lemma_decimal_text_is_numeral(number as nat);
    if spells_decimal(marker, digits, value) {
        lemma_numeral_is_decimal_text(value.coefficient, number);
        assert(value =~= exact);
    }
}

proof fn lemma_good_digits(digits: Seq<u8>)
    ensures
        field::first_bad_digit(digits) is None <==> forall|i: int|
            0 <= i < digits.len() ==> #[trigger] digits[i] <= 99,
    decreases digits.len(),
{
    if digits.len() > 0 {
        let rest = digits.drop_first();
        lemma_good_digits(rest);
        assert forall|i: int| 0 <= i < rest.len() implies #[trigger] rest[i] == digits[i + 1] by {}
        if field::first_bad_digit(digits) is None {
            assert forall|i: int| 0 <= i < digits.len() implies #[trigger] digits[i] <= 99 by {
                if i > 0 {
                    assert(rest[i - 1] <= 99);
                }
            }
        } else if digits[0] <= 99 {
            let i = choose|i: int| 0 <= i < rest.len() && rest[i] > 99;
            assert(digits[i + 1] > 99);
        }
    }
}

proof fn lemma_signed_field(row: Seq<u8>, at: int, index: int, width: u16, n: i64, next: int)
    requires
        0 <= at <= row.len(),
    ensures
        field::signed_field(row, at, index, width) == Ok::<(ValueView, int), DecodeError>(
            (ValueView::Integer(n), next),
        ) <==> next == at + width <= row.len() && spells_signed(
            row.subrange(at, at + width),
            n as int,
        ),
{
    if at + width <= row.len() {
        let piece = row.subrange(at, at + width);
        if field::integer_width(width) {
            lemma_signed(piece, n as int);
        }
    }
}

proof fn lemma_unsigned_field(row: Seq<u8>, at: int, index: int, width: u16, n: u64, next: int)
    requires
        0 <= at <= row.len(),
    ensures
        field::unsigned_scalar(row, at, index, width) == Ok::<(u64, int), DecodeError>((n, next))
            <==> next == at + width <= row.len() && spells_unsigned(
            row.subrange(at, at + width),
            n as int,
        ),
{
    if at + width <= row.len() {
        let piece = row.subrange(at, at + width);
        if field::integer_width(width) {
            lemma_le_value(piece);
        }
    }
}

proof fn lemma_word(row: Seq<u8>, at: int, n: i32)
    requires
        0 <= at,
        at + 4 <= row.len(),
    ensures
        field::signed_word_at(row, at) == n <==> spells_signed(row.subrange(at, at + 4), n as int),
{
    lemma_signed(row.subrange(at, at + 4), n as int);
}

proof fn lemma_date_field(row: Seq<u8>, at: int, index: int, value: ValueView, next: int)
    requires
        0 <= at <= row.len(),
    ensures
        field::date_field(row, at, index) == Ok::<(ValueView, int), DecodeError>((value, next))
            <==> next == at + 4 <= row.len() && (value matches ValueView::Date(date)
            && spells_signed(row.subrange(at, at + 4), date.raw_minutes as int)),
{
    if at + 4 <= row.len() {
        if let ValueView::Date(date) = value {
            lemma_word(row, at, date.raw_minutes);
        }
        lemma_word(row, at, field::signed_word_at(row, at));
    }
}

proof fn lemma_datetime_field(row: Seq<u8>, at: int, index: int, value: ValueView, next: int)
    requires
        0 <= at <= row.len(),
    ensures
        field::datetime_field(row, at, index) == Ok::<(ValueView, int), DecodeError>((value, next))
            <==> next == at + 8 <= row.len() && (value matches ValueView::DateTime(datetime)
            && spells_signed(
            row.subrange(at, at + 8).take(4),
            datetime.minutes_since_sa_epoch as int,
        ) && spells_signed(row.subrange(at, at + 8).skip(4), datetime.subminute_raw as int)
            && datetime.date.raw_minutes == datetime.minutes_since_sa_epoch),
{
    if at + 8 <= row.len() {
        let piece = row.subrange(at, at + 8);
        assert(piece.take(4) =~= row.subrange(at, at + 4));
        assert(piece.skip(4) =~= row.subrange(at + 4, at + 8));
        if let ValueView::DateTime(datetime) = value {
            lemma_word(row, at, datetime.minutes_since_sa_epoch);
            lemma_word(row, at + 4, datetime.subminute_raw);
        }
    }
}

proof fn lemma_numeric_field(
    row: Seq<u8>,
    at: int,
    index: int,
    layout: NumericLayout,
    value: ValueView,
    next: int,
)
    requires
        0 <= at <= row.len(),
    ensures
        field::numeric_field(row, at, index, layout) == Ok::<(ValueView, int), DecodeError>(
            (value, next),
        ) <==> at + 2 <= next <= row.len() && next == at + 2 + row[at] && ({
            let piece = row.subrange(at, next);
            &&& forall|i: int| 2 <= i < piece.len() ==> #[trigger] piece[i] <= 99
            &&& match layout {
                NumericLayout::LegacyForward => {
                    value matches ValueView::Decimal(decimal) && spells_decimal(
                        piece[1],
                        piece.skip(2),
                        decimal,
                    )
                },
                NumericLayout::EnterpriseMaterializedRaw => {
                    value == ValueView::EnterpriseNumeric { marker: piece[1], digits: piece.skip(2) }
                },
            }
        }),
{
    if at + 2 <= row.len() && at + 2 + row[at] <= row.len() {
        let end = at + 2 + row[at];
        let piece = row.subrange(at, end);
        let digits = field::slice_at(row, at + 2, row[at] as int);
        assert(piece.skip(2) =~= digits);
        lemma_good_digits(digits);
        assert((forall|i: int| 2 <= i < piece.len() ==> #[trigger] piece[i] <= 99) <==> (forall|
            i: int,
        |
            0 <= i < digits.len() ==> #[trigger] digits[i] <= 99)) by {
            assert forall|i: int| 0 <= i < digits.len() implies #[trigger] digits[i] == piece[i
                + 2] by {}
            assert forall|i: int| 2 <= i < piece.len() implies #[trigger] piece[i] == digits[i
                - 2] by {}
        }
        if let ValueView::Decimal(decimal) = value {
            lemma_decimal(piece[1], digits, decimal);
        }
    }
}

proof fn lemma_variable_field(
    row: Seq<u8>,
    at: int,
    index: int,
    column: ColumnDef,
    schema: RowSchema,
    value: ValueView,
    next: int,
)
    requires
        0 <= at <= row.len(),
        column.column_type is Char || column.column_type is Char2 || column.column_type is Text
            || column.column_type is Text2,
    ensures
        field::variable_field(row, at, index, column, schema) == Ok::<
            (ValueView, int),
            DecodeError,
        >((value, next)) <==> at <= next <= row.len() && spells(
            row.subrange(at, next),
            column,
            schema,
            value,
        ),
{
    let wide = is_wide(column, schema.variable_length_layout);
    let prefix: int = if wide {
        2
    } else {
        1
    };
    assert(field::length_width(column, schema.variable_length_layout) == prefix);
    let start = at + prefix;
    if start <= row.len() {
        let length: int = if wide {
            row[at] + 0x100 * row[at + 1]
        } else {
            row[at] as int
        };
        if let Ok((v, end)) = field::variable_field(row, at, index, column, schema) {
            let piece = row.subrange(at, end);
            assert(piece.skip(prefix) =~= row.subrange(start, end));
            assert(spells(piece, column, schema, v));
        }
        if at <= next <= row.len() && spells(row.subrange(at, next), column, schema, value) {
            let piece = row.subrange(at, next);
            assert(piece.skip(prefix) =~= row.subrange(start, next));
        }
    }
}

/// A field is decoded to a value if and only if its bytes spell that value.
///
/// Both ways: bytes that spell a value are decoded to it and to no other, and
/// the decoder consumes just the bytes that spell what it returns.
pub proof fn fields_are_decoded_as_spelled(
    row: Seq<u8>,
    at: int,
    index: int,
    column: ColumnDef,
    schema: RowSchema,
    value: ValueView,
    next: int,
)
    requires
        0 <= at <= row.len(),
        column.column_type !is Boolean,
    ensures
        field::non_boolean_field(row, at, index, column, schema) == Ok::<
            (ValueView, int),
            DecodeError,
        >((value, next)) <==> at <= next <= row.len() && spells(
            row.subrange(at, next),
            column,
            schema,
            value,
        ),
{
    match column.column_type {
        ColumnType::SmallInt | ColumnType::Integer | ColumnType::Integer2 | ColumnType::Int64 => {
            if let ValueView::Integer(n) = value {
                lemma_signed_field(row, at, index, column.width, n, next);
            }
        },
        ColumnType::UInt64 | ColumnType::UInt32 => {
            if let ValueView::Unsigned(n) = value {
                lemma_unsigned_field(row, at, index, column.width, n, next);
            }
        },
        ColumnType::Enum => {
            if let ValueView::Enum(n) = value {
                lemma_unsigned_field(row, at, index, column.width, n, next);
            }
        },
        ColumnType::Date => {
            lemma_date_field(row, at, index, value, next);
        },
        ColumnType::DateTime => {
            lemma_datetime_field(row, at, index, value, next);
        },
        ColumnType::Numeric => {
            lemma_numeric_field(row, at, index, schema.numeric_layout, value, next);
        },
        _ => {
            lemma_variable_field(row, at, index, column, schema, value, next);
        },
    }
}

// ---------------------------------------------------------------------------
// Laws of single fields
// ---------------------------------------------------------------------------

/// The four little-endian bytes of a number below 2^32.
pub open spec fn four_bytes(n: int) -> Seq<u8> {
    seq![
        (n % 0x100) as u8,
        (n / 0x100 % 0x100) as u8,
        (n / 0x1_0000 % 0x100) as u8,
        (n / 0x100_0000) as u8,
    ]
}

/// The little-endian two's-complement bytes of a 32-bit integer.
pub open spec fn word_bytes(n: i32) -> Seq<u8> {
    four_bytes(
        if n < 0 {
            n + 0x1_0000_0000
        } else {
            n as int
        },
    )
}

/// The eight little-endian bytes of a number below 2^64.
pub open spec fn unsigned_bytes(n: int) -> Seq<u8> {
    four_bytes(n % 0x1_0000_0000) + four_bytes(n / 0x1_0000_0000)
}

/// The little-endian two's-complement bytes of a 64-bit integer.
pub open spec fn long_bytes(n: i64) -> Seq<u8> {
    unsigned_bytes(
        if n < 0 {
            n + 0x1_0000_0000_0000_0000
        } else {
            n as int
        },
    )
}

proof fn lemma_four_bytes(n: int)
    requires
        0 <= n < 0x1_0000_0000,
    ensures
        spells_unsigned(four_bytes(n), n),
{
    assert(n == n % 0x100 + 0x100 * (n / 0x100 % 0x100) + 0x1_0000 * (n / 0x1_0000 % 0x100)
        + 0x100_0000 * (n / 0x100_0000));
}

proof fn lemma_word_bytes(n: i32)
    ensures
        spells_signed(word_bytes(n), n as int),
{
    lemma_four_bytes(
        if n < 0 {
            n + 0x1_0000_0000
        } else {
            n as int
        },
    );
}

proof fn lemma_unsigned_bytes(n: int)
    requires
        0 <= n < 0x1_0000_0000_0000_0000,
    ensures
        spells_unsigned(unsigned_bytes(n), n),
{
    let low = n % 0x1_0000_0000;
    let high = n / 0x1_0000_0000;
    lemma_four_bytes(low);
    lemma_four_bytes(high);
    let all = unsigned_bytes(n);
    let a = four_bytes(low);
    let b = four_bytes(high);
    assert(all[0] == a[0] && all[1] == a[1] && all[2] == a[2] && all[3] == a[3]);
    assert(all[4] == b[0] && all[5] == b[1] && all[6] == b[2] && all[7] == b[3]);
}

/// A written date is read back, whichever of the 2^32 it is.
pub proof fn written_dates_are_read_back(
    before: Seq<u8>,
    after: Seq<u8>,
    n: i32,
    index: int,
    column: ColumnDef,
    schema: RowSchema,
)
    requires
        column.column_type is Date,
    ensures
        field::non_boolean_field(
            before + word_bytes(n) + after,
            before.len() as int,
            index,
            column,
            schema,
        ) == Ok::<(ValueView, int), DecodeError>(
            (ValueView::Date(SaDate { raw_minutes: n }), before.len() + 4int),
        ),
{
    let row = before + word_bytes(n) + after;
    let at = before.len() as int;
    lemma_word_bytes(n);
    assert(row.subrange(at, at + 4) =~= word_bytes(n));
    fields_are_decoded_as_spelled(
        row,
        at,
        index,
        column,
        schema,
        ValueView::Date(SaDate { raw_minutes: n }),
        at + 4,
    );
}

/// A written datetime is read back, whichever minute and subminute it has.
pub proof fn written_datetimes_are_read_back(
    before: Seq<u8>,
    after: Seq<u8>,
    minutes: i32,
    subminute: i32,
    index: int,
    column: ColumnDef,
    schema: RowSchema,
)
    requires
        column.column_type is DateTime,
    ensures
        field::non_boolean_field(
            before + word_bytes(minutes) + word_bytes(subminute) + after,
            before.len() as int,
            index,
            column,
            schema,
        ) == Ok::<(ValueView, int), DecodeError>(
            (
                ValueView::DateTime(
                    SaDateTime {
                        date: SaDate { raw_minutes: minutes },
                        minutes_since_sa_epoch: minutes,
                        subminute_raw: subminute,
                    },
                ),
                before.len() + 8int,
            ),
        ),
{
    let row = before + word_bytes(minutes) + word_bytes(subminute) + after;
    let at = before.len() as int;
    let piece = row.subrange(at, at + 8);
    lemma_word_bytes(minutes);
    lemma_word_bytes(subminute);
    assert(piece.take(4) =~= word_bytes(minutes));
    assert(piece.skip(4) =~= word_bytes(subminute));
    fields_are_decoded_as_spelled(
        row,
        at,
        index,
        column,
        schema,
        ValueView::DateTime(
            SaDateTime {
                date: SaDate { raw_minutes: minutes },
                minutes_since_sa_epoch: minutes,
                subminute_raw: subminute,
            },
        ),
        at + 8,
    );
}

/// Written eight-byte integers are read back, signed and unsigned.
pub proof fn written_integers_are_read_back(
    before: Seq<u8>,
    after: Seq<u8>,
    signed: i64,
    unsigned: u64,
    index: int,
    column: ColumnDef,
    schema: RowSchema,
)
    requires
        column.width == 8,
    ensures
        column.column_type is Int64 || column.column_type is Integer || column.column_type
            is Integer2 || column.column_type is SmallInt ==> field::non_boolean_field(
            before + long_bytes(signed) + after,
            before.len() as int,
            index,
            column,
            schema,
        ) == Ok::<(ValueView, int), DecodeError>(
            (ValueView::Integer(signed), before.len() + 8int),
        ),
        column.column_type is UInt64 || column.column_type is UInt32 ==> field::non_boolean_field(
            before + unsigned_bytes(unsigned as int) + after,
            before.len() as int,
            index,
            column,
            schema,
        ) == Ok::<(ValueView, int), DecodeError>(
            (ValueView::Unsigned(unsigned), before.len() + 8int),
        ),
{
    let at = before.len() as int;
    if column.column_type is Int64 || column.column_type is Integer || column.column_type
        is Integer2 || column.column_type is SmallInt {
        let row = before + long_bytes(signed) + after;
        lemma_unsigned_bytes(
            if signed < 0 {
                signed + 0x1_0000_0000_0000_0000
            } else {
                signed as int
            },
        );
        assert(row.subrange(at, at + 8) =~= long_bytes(signed));
        fields_are_decoded_as_spelled(
            row,
            at,
            index,
            column,
            schema,
            ValueView::Integer(signed),
            at + 8,
        );
    }
    if column.column_type is UInt64 || column.column_type is UInt32 {
        let row = before + unsigned_bytes(unsigned as int) + after;
        lemma_unsigned_bytes(unsigned as int);
        assert(row.subrange(at, at + 8) =~= unsigned_bytes(unsigned as int));
        fields_are_decoded_as_spelled(
            row,
            at,
            index,
            column,
            schema,
            ValueView::Unsigned(unsigned),
            at + 8,
        );
    }
}

proof fn lemma_le_value_injective(a: Seq<u8>, b: Seq<u8>)
    requires
        a.len() == b.len(),
        bytes::le_value(a) == bytes::le_value(b),
    ensures
        a == b,
    decreases a.len(),
{
    if a.len() > 0 {
        assert(a[0] == b[0]);
        lemma_le_value_injective(a.drop_first(), b.drop_first());
        assert forall|i: int| 0 <= i < a.len() implies a[i] == b[i] by {
            if i > 0 {
                assert(a.drop_first()[i - 1] == b.drop_first()[i - 1]);
            }
        }
    }
    assert(a =~= b);
}

proof fn lemma_unsigned_injective(a: Seq<u8>, b: Seq<u8>, n: int)
    requires
        spells_unsigned(a, n),
        spells_unsigned(b, n),
        a.len() == b.len(),
    ensures
        a == b,
{
    lemma_le_value(a);
    lemma_le_value(b);
    lemma_le_value_injective(a, b);
}

proof fn lemma_spelling_is_unique(
    a: Seq<u8>,
    b: Seq<u8>,
    column: ColumnDef,
    schema: RowSchema,
    value: ValueView,
)
    requires
        spells(a, column, schema, value),
        spells(b, column, schema, value),
        !(value is Decimal),
    ensures
        a == b,
{
    match column.column_type {
        ColumnType::DateTime => {
            lemma_unsigned_injective(
                a.take(4),
                b.take(4),
                signed_to_unsigned(a.take(4), value->DateTime_0.minutes_since_sa_epoch as int),
            );
            lemma_unsigned_injective(
                a.skip(4),
                b.skip(4),
                signed_to_unsigned(a.skip(4), value->DateTime_0.subminute_raw as int),
            );
            assert(a =~= a.take(4) + a.skip(4));
            assert(b =~= b.take(4) + b.skip(4));
        },
        ColumnType::Date => {
            lemma_unsigned_injective(a, b, signed_to_unsigned(a, value->Date_0.raw_minutes as int));
        },
        ColumnType::SmallInt | ColumnType::Integer | ColumnType::Integer2 | ColumnType::Int64 => {
            lemma_unsigned_injective(a, b, signed_to_unsigned(a, value->Integer_0 as int));
        },
        ColumnType::UInt64 | ColumnType::UInt32 => {
            lemma_unsigned_injective(a, b, value->Unsigned_0 as int);
        },
        ColumnType::Enum => {
            lemma_unsigned_injective(a, b, value->Enum_0 as int);
        },
        ColumnType::Numeric => {
            assert(a =~= seq![a[0], a[1]] + a.skip(2));
            assert(b =~= seq![b[0], b[1]] + b.skip(2));
        },
        _ => {
            if is_wide(column, schema.variable_length_layout) {
                assert(a =~= seq![a[0], a[1]] + a.skip(2));
                assert(b =~= seq![b[0], b[1]] + b.skip(2));
            } else {
                assert(a =~= seq![a[0]] + a.skip(1));
                assert(b =~= seq![b[0]] + b.skip(1));
            }
        },
    }
}

spec fn signed_to_unsigned(piece: Seq<u8>, n: int) -> int {
    if n < 0 {
        n + modulus(piece.len())
    } else {
        n
    }
}

/// Fields with different bytes are decoded to different values, but for the
/// leading zeros of a legacy decimal: a value tells every byte of its field.
pub proof fn values_tell_their_bytes(
    a: (Seq<u8>, int),
    b: (Seq<u8>, int),
    index: int,
    column: ColumnDef,
    schema: RowSchema,
    value: ValueView,
    ends: (int, int),
)
    requires
        0 <= a.1 <= a.0.len(),
        0 <= b.1 <= b.0.len(),
        column.column_type !is Boolean,
        field::non_boolean_field(a.0, a.1, index, column, schema) == Ok::<
            (ValueView, int),
            DecodeError,
        >((value, ends.0)),
        field::non_boolean_field(b.0, b.1, index, column, schema) == Ok::<
            (ValueView, int),
            DecodeError,
        >((value, ends.1)),
        !(value is Decimal),
    ensures
        a.0.subrange(a.1, ends.0) == b.0.subrange(b.1, ends.1),
{
    fields_are_decoded_as_spelled(a.0, a.1, index, column, schema, value, ends.0);
    fields_are_decoded_as_spelled(b.0, b.1, index, column, schema, value, ends.1);
    lemma_spelling_is_unique(
        a.0.subrange(a.1, ends.0),
        b.0.subrange(b.1, ends.1),
        column,
        schema,
        value,
    );
}

// ---------------------------------------------------------------------------
// Faults
// ---------------------------------------------------------------------------

/// Whether an integer can take this many bytes.
pub open spec fn is_integer_width(width: u16) -> bool {
    width == 1 || width == 2 || width == 4 || width == 8
}

/// The failure of a field that wants more bytes than are left.
pub open spec fn too_short(index: int, needed: int, left: int) -> DecodeError {
    DecodeError::Truncated {
        column: index as usize,
        needed: needed as usize,
        remaining: left as usize,
    }
}

/// Whether the body of a variable field is at fault, `body` being all that is
/// left after its length.
pub open spec fn is_body_fault(
    body: Seq<u8>,
    length: int,
    largest: int,
    index: int,
    layout: VariableOverflowLayout,
    error: DecodeError,
) -> bool {
    if length == largest {
        match layout {
            VariableOverflowLayout::Unsupported => {
                error == DecodeError::OverflowValue { column: index as usize }
            },
            VariableOverflowLayout::Pointer { width } => {
                ||| width == 0 && error == DecodeError::InvalidOverflowPointerWidth {
                    column: index as usize,
                }
                ||| body.len() < width && error == too_short(
                    index,
                    width as int,
                    body.len() as int,
                )
            },
        }
    } else {
        body.len() < length && error == too_short(index, length, body.len() as int)
    }
}

/// Whether no field of the column can be read from `rest`, all that is left of
/// the row, and this is why.
pub open spec fn is_field_fault(
    rest: Seq<u8>,
    index: int,
    column: ColumnDef,
    schema: RowSchema,
    error: DecodeError,
) -> bool {
    let left = rest.len() as int;
    let width = column.width;
    match column.column_type {
        ColumnType::SmallInt
        | ColumnType::Integer
        | ColumnType::Integer2
        | ColumnType::UInt64
        | ColumnType::UInt32 => {
            ||| !is_integer_width(width) && error == DecodeError::InvalidIntegerWidth {
                column: index as usize,
                width,
            }
            ||| is_integer_width(width) && left < width && error == too_short(
                index,
                width as int,
                left,
            )
        },
        ColumnType::Int64 => {
            ||| width != 8 && error == DecodeError::InvalidIntegerWidth {
                column: index as usize,
                width,
            }
            ||| width == 8 && left < 8 && error == too_short(index, 8, left)
        },
        ColumnType::Enum => {
            ||| schema.enum_layout == EnumLayout::Unsupported && error
                == DecodeError::UnsupportedEnum { column: index as usize, width }
            ||| schema.enum_layout == EnumLayout::FixedWidthUnsigned && !is_integer_width(width)
                && error == DecodeError::InvalidEnumWidth { column: index as usize, width }
            ||| schema.enum_layout == EnumLayout::FixedWidthUnsigned && is_integer_width(width)
                && left < width && error == too_short(index, width as int, left)
        },
        ColumnType::Date => left < 4 && error == too_short(index, 4, left),
        ColumnType::DateTime => {
            ||| left < 4 && error == too_short(index, 4, left)
            ||| 4 <= left < 8 && error == too_short(index, 4, left - 4)
        },
        ColumnType::Numeric => {
            ||| left < 2 && error == too_short(index, 1, 0)
            ||| 2 <= left < 2 + rest[0] && error == too_short(index, rest[0] as int, left - 2)
            ||| 2 + rest[0] <= left && exists|i: int|
                {
                    &&& 2 <= i < 2 + rest[0]
                    &&& #[trigger] rest[i] > 99
                    &&& forall|j: int| 2 <= j < i ==> #[trigger] rest[j] <= 99
                    &&& error == DecodeError::InvalidNumericDigit {
                        column: index as usize,
                        digit: rest[i],
                    }
                }
        },
        ColumnType::Char | ColumnType::Char2 | ColumnType::Text | ColumnType::Text2 => {
            if is_wide(column, schema.variable_length_layout) {
                ||| left < 2 && error == too_short(index, 2, left)
                ||| left >= 2 && is_body_fault(
                    rest.skip(2),
                    rest[0] + 0x100 * rest[1],
                    0xffff,
                    index,
                    schema.variable_overflow_layout,
                    error,
                )
            } else {
                ||| left < 1 && error == too_short(index, 1, left)
                ||| left >= 1 && is_body_fault(
                    rest.skip(1),
                    rest[0] as int,
                    0xff,
                    index,
                    schema.variable_overflow_layout,
                    error,
                )
            }
        },
        ColumnType::Boolean => false,
    }
}

proof fn lemma_bad_digit(digits: Seq<u8>, digit: u8)
    ensures
        field::first_bad_digit(digits) == Some(digit) <==> exists|i: int|
            {
                &&& 0 <= i < digits.len()
                &&& #[trigger] digits[i] > 99
                &&& forall|j: int| 0 <= j < i ==> #[trigger] digits[j] <= 99
                &&& digit == digits[i]
            },
    decreases digits.len(),
{
    if digits.len() > 0 {
        let rest = digits.drop_first();
        lemma_bad_digit(rest, digit);
        if digits[0] > 99 {
            if field::first_bad_digit(digits) == Some(digit) {
                assert(digits[0] > 99 && digit == digits[0]);
            }
        } else {
            if field::first_bad_digit(digits) == Some(digit) {
                let i = choose|i: int|
                    {
                        &&& 0 <= i < rest.len()
                        &&& #[trigger] rest[i] > 99
                        &&& forall|j: int| 0 <= j < i ==> #[trigger] rest[j] <= 99
                        &&& digit == rest[i]
                    };
                assert(digits[i + 1] > 99);
                assert forall|j: int| 0 <= j < i + 1 implies #[trigger] digits[j] <= 99 by {
                    if j > 0 {
                        assert(rest[j - 1] <= 99);
                    }
                }
            }
            if exists|i: int|
                {
                    &&& 0 <= i < digits.len()
                    &&& #[trigger] digits[i] > 99
                    &&& forall|j: int| 0 <= j < i ==> #[trigger] digits[j] <= 99
                    &&& digit == digits[i]
                } {
                let i = choose|i: int|
                    {
                        &&& 0 <= i < digits.len()
                        &&& #[trigger] digits[i] > 99
                        &&& forall|j: int| 0 <= j < i ==> #[trigger] digits[j] <= 99
                        &&& digit == digits[i]
                    };
                assert(rest[i - 1] > 99);
                assert forall|j: int| 0 <= j < i - 1 implies #[trigger] rest[j] <= 99 by {
                    assert(digits[j + 1] <= 99);
                }
            }
        }
    }
}

proof fn lemma_numeric_fault(
    row: Seq<u8>,
    at: int,
    index: int,
    column: ColumnDef,
    schema: RowSchema,
    error: DecodeError,
)
    requires
        0 <= at <= row.len(),
        column.column_type is Numeric,
        at + 2 <= row.len(),
        at + 2 + row[at] <= row.len(),
    ensures
        field::numeric_field(row, at, index, schema.numeric_layout) == Err::<
            (ValueView, int),
            DecodeError,
        >(error) <==> is_field_fault(row.skip(at), index, column, schema, error),
{
    let rest = row.skip(at);
    let digits = field::slice_at(row, at + 2, row[at] as int);
    assert forall|i: int| 0 <= i < digits.len() implies #[trigger] digits[i] == rest[i + 2] by {}
    if field::numeric_field(row, at, index, schema.numeric_layout) == Err::<
        (ValueView, int),
        DecodeError,
    >(error) {
        let digit = field::first_bad_digit(digits)->Some_0;
        lemma_bad_digit(digits, digit);
        let i = choose|i: int|
            {
                &&& 0 <= i < digits.len()
                &&& #[trigger] digits[i] > 99
                &&& forall|j: int| 0 <= j < i ==> #[trigger] digits[j] <= 99
                &&& digit == digits[i]
            };
        assert(rest[i + 2] > 99);
        assert forall|j: int| 2 <= j < i + 2 implies #[trigger] rest[j] <= 99 by {
            assert(digits[j - 2] <= 99);
        }
    }
    if is_field_fault(rest, index, column, schema, error) {
        let i = choose|i: int|
            {
                &&& 2 <= i < 2 + rest[0]
                &&& #[trigger] rest[i] > 99
                &&& forall|j: int| 2 <= j < i ==> #[trigger] rest[j] <= 99
                &&& error == DecodeError::InvalidNumericDigit {
                    column: index as usize,
                    digit: rest[i],
                }
            };
        assert(digits[i - 2] > 99);
        assert forall|j: int| 0 <= j < i - 2 implies #[trigger] digits[j] <= 99 by {
            assert(rest[j + 2] <= 99);
        }
        lemma_bad_digit(digits, rest[i]);
    }
}

/// A field is refused for a reason if and only if what is left of the row is
/// at fault for that reason.
pub proof fn fields_are_refused_for_their_fault(
    row: Seq<u8>,
    at: int,
    index: int,
    column: ColumnDef,
    schema: RowSchema,
    error: DecodeError,
)
    requires
        0 <= at <= row.len(),
        column.column_type !is Boolean,
    ensures
        field::non_boolean_field(row, at, index, column, schema) == Err::<
            (ValueView, int),
            DecodeError,
        >(error) <==> is_field_fault(row.skip(at), index, column, schema, error),
{
    let rest = row.skip(at);
    match column.column_type {
        ColumnType::Numeric => {
            if at + 2 <= row.len() && at + 2 + row[at] <= row.len() {
                lemma_numeric_fault(row, at, index, column, schema, error);
            }
        },
        ColumnType::Char | ColumnType::Char2 | ColumnType::Text | ColumnType::Text2 => {
            let prefix: int = if is_wide(column, schema.variable_length_layout) {
                2
            } else {
                1
            };
            assert(field::length_width(column, schema.variable_length_layout) == prefix);
        },
        _ => {},
    }
}

/// A number is rendered as its one numeral.
pub proof fn numbers_are_rendered_as_their_numeral(digits: Seq<char>, n: nat)
    ensures
        digits == text::decimal_text(n) <==> is_numeral(digits, n as int),
{
    lemma_decimal_text_is_numeral(n);
    if is_numeral(digits, n as int) {
        lemma_numeral_is_decimal_text(digits, n as int);
    }
}

/// A short decimal is as far from `0x80` as its byte, and negative above it.
pub proof fn short_decimals_denote_their_distance(marker: u8)
    ensures
        ({
            let decimal = decimal::short_decimal(marker);
            &&& decimal.scale == 0
            &&& decimal.negative <==> marker > 0x80
            &&& is_numeral(
                decimal.coefficient,
                if decimal.negative {
                    marker - 0x80
                } else {
                    0x80 - marker
                },
            )
        }),
{
    lemma_decimal(marker, Seq::empty(), decimal::short_decimal(marker));
}

/// A decimal of base-100 digits denotes their value, shifted by two decimal
/// places for each step of its marker from `0xc0`: to the left above it, and to
/// the right, as its scale, below it.
pub proof fn base_100_decimals_denote_their_digits(marker: u8, digits: Seq<u8>)
    ensures
        ({
            let decimal = decimal::base100_decimal(marker, digits);
            &&& !decimal.negative
            &&& marker >= 0xc0 ==> decimal.scale == 0 && is_numeral(
                decimal.coefficient,
                pairs_value(digits) * power::pow(100, (marker - 0xc0) as nat),
            )
            &&& marker < 0xc0 ==> decimal.scale == 2 * (0xc0 - marker) && is_numeral(
                decimal.coefficient,
                pairs_value(digits),
            )
        }),
{
    lemma_pairs_value(digits);
    if marker >= 0xc0 {
        let number = pairs_value(digits) * power::pow(100, (marker - 0xc0) as nat);
        lemma_hundreds((marker - 0xc0) as nat);
        assert(number >= 0 && decimal::base100_decimal(marker, digits).coefficient
            == text::decimal_text(number as nat));
        lemma_decimal_text_is_numeral(number as nat);
    } else {
        lemma_decimal_text_is_numeral(pairs_value(digits) as nat);
    }
}

} // verus!
