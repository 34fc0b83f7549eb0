//! How failures read.
//!
//! A message consists of fixed words and of what the failure tells: its numbers
//! and targets. Here the two are held apart.
use vstd::prelude::*;

use crate::decode_error::DecodeError;
use crate::materialized_page::MaterializedPageError;
use crate::page_permutation::PagePermutationError;
use crate::row_segment::{ContinuationTarget, RowSegmentChainError, RowSegmentError};
use crate::text;

verus! {

/// The decimal numeral of a number.
pub open spec fn numeral(n: nat) -> Seq<char> {
    text::decimal_text(n)
}

/// A number in so many lower-case hexadecimal digits.
pub open spec fn hexadecimal(n: nat, digits: nat) -> Seq<char> {
    text::hex_text(n, digits, false)
}

/// Words with what is told between them.
pub open spec fn told_between(words: Seq<Seq<char>>, told: Seq<Seq<char>>) -> Seq<char>
    decreases told.len(),
{
    if told.len() == 0 {
        words[0]
    } else {
        told_between(words, told.drop_last()) + told.last() + words[told.len() as int]
    }
}

/// What the message of a decode failure tells, in order.
pub open spec fn told_by_decode_error(error: DecodeError) -> Seq<Seq<char>> {
    match error {
        DecodeError::MissingRowHeader => Seq::empty(),
        DecodeError::InvalidRowSize { declared, available } => seq![
            numeral(declared as nat),
            numeral(available as nat),
        ],
        DecodeError::UnsupportedRowFlags(flags) => seq![hexadecimal(flags as nat, 4)],
        DecodeError::Truncated { column, needed, remaining } => seq![
            numeral(column as nat),
            numeral(needed as nat),
            numeral(remaining as nat),
        ],
        DecodeError::InvalidIntegerWidth { column, width } => seq![
            numeral(column as nat),
            numeral(width as nat),
        ],
        DecodeError::OverflowValue { column } => seq![numeral(column as nat)],
        DecodeError::UnsupportedEnum { column, width } => seq![
            numeral(column as nat),
            numeral(width as nat),
        ],
        DecodeError::InvalidEnumWidth { column, width } => seq![
            numeral(column as nat),
            numeral(width as nat),
        ],
        DecodeError::InvalidOverflowPointerWidth { column } => seq![numeral(column as nat)],
        DecodeError::InvalidNumericDigit { column, digit } => seq![
            numeral(column as nat),
            numeral(digit as nat),
        ],
        DecodeError::InvalidBooleanByte { column, value } => seq![
            numeral(column as nat),
            hexadecimal(value as nat, 2),
        ],
        DecodeError::InvalidBooleanU16 { column, value } => seq![
            numeral(column as nat),
            hexadecimal(value as nat, 4),
        ],
        DecodeError::UnsupportedNumericMarker { column, marker } => seq![
            numeral(column as nat),
            hexadecimal(marker as nat, 2),
        ],
        DecodeError::TruncatedBooleanTail { needed, remaining } => seq![
            numeral(needed as nat),
            numeral(remaining as nat),
        ],
        DecodeError::TrailingData { remaining } => seq![numeral(remaining as nat)],
        DecodeError::ContinuedMaterializedRowCarrier => Seq::empty(),
        DecodeError::UnsupportedMaterializedRowCarrierFlags { flags } => seq![
            hexadecimal(flags as nat, 2),
        ],
        DecodeError::TrailingMaterializedRowCarrier { remaining } => seq![
            numeral(remaining as nat),
        ],
        DecodeError::PrefixOrdinalOutOfRange { ordinal, column_count } => seq![
            numeral(ordinal as nat),
            numeral(column_count as nat),
        ],
        DecodeError::PrefixOverlapsBooleanTail { column } => seq![numeral(column as nat)],
    }
}

/// The messages of two such failures of one kind differ only in what they tell,
/// which stands at the same places between the same words.
pub proof fn decode_errors_of_one_kind_read_alike(
    one: DecodeError,
    other: DecodeError,
) -> (words: Seq<Seq<char>>)
    requires
        ({
            ||| one is MissingRowHeader && other is MissingRowHeader
            ||| one is InvalidRowSize && other is InvalidRowSize
            ||| one is UnsupportedRowFlags && other is UnsupportedRowFlags
            ||| one is Truncated && other is Truncated
            ||| one is InvalidIntegerWidth && other is InvalidIntegerWidth
            ||| one is OverflowValue && other is OverflowValue
            ||| one is UnsupportedEnum && other is UnsupportedEnum
            ||| one is InvalidEnumWidth && other is InvalidEnumWidth
            ||| one is InvalidOverflowPointerWidth && other is InvalidOverflowPointerWidth
            ||| one is InvalidNumericDigit && other is InvalidNumericDigit
            ||| one is InvalidBooleanByte && other is InvalidBooleanByte
            ||| one is InvalidBooleanU16 && other is InvalidBooleanU16
            ||| one is UnsupportedNumericMarker && other is UnsupportedNumericMarker
            ||| one is TruncatedBooleanTail && other is TruncatedBooleanTail
            ||| one is TrailingData && other is TrailingData
            ||| one is ContinuedMaterializedRowCarrier && other is ContinuedMaterializedRowCarrier
            ||| one is UnsupportedMaterializedRowCarrierFlags && other is UnsupportedMaterializedRowCarrierFlags
            ||| one is TrailingMaterializedRowCarrier && other is TrailingMaterializedRowCarrier
            ||| one is PrefixOrdinalOutOfRange && other is PrefixOrdinalOutOfRange
            ||| one is PrefixOverlapsBooleanTail && other is PrefixOverlapsBooleanTail
        }),
    ensures
        one.text() == told_between(words, told_by_decode_error(one)),
        other.text() == told_between(words, told_by_decode_error(other)),
        words.len() == told_by_decode_error(one).len() + 1,
{
    reveal_with_fuel(told_between, 6);
    let words = match one {
        DecodeError::MissingRowHeader => seq!["row is shorter than its u16 header"@],
        DecodeError::InvalidRowSize { .. } => seq![
            "row declares "@,
            " bytes but only "@,
            " are available"@,
        ],
        DecodeError::UnsupportedRowFlags(..) => seq![
            "row flags 0x"@,
            " require overflow/reference resolution"@,
        ],
        DecodeError::Truncated { .. } => seq![
            "column "@,
            " needs "@,
            " bytes but only "@,
            " remain"@,
        ],
        DecodeError::InvalidIntegerWidth { .. } => seq![
            "column "@,
            " has unsupported integer width "@,
            Seq::empty(),
        ],
        DecodeError::OverflowValue { .. } => seq![
            "column "@,
            " uses an unresolved variable-value overflow pointer"@,
        ],
        DecodeError::UnsupportedEnum { .. } => seq![
            "column "@,
            " uses ENUM domain 19 with unproven physical width "@,
            Seq::empty(),
        ],
        DecodeError::InvalidEnumWidth { .. } => seq![
            "column "@,
            " has unsupported ENUM width "@,
            Seq::empty(),
        ],
        DecodeError::InvalidOverflowPointerWidth { .. } => seq![
            "column "@,
            " has a zero-width overflow pointer layout"@,
        ],
        DecodeError::InvalidNumericDigit { .. } => seq![
            "column "@,
            " has invalid base-100 digit "@,
            Seq::empty(),
        ],
        DecodeError::InvalidBooleanByte { .. } => seq![
            "column "@,
            " has invalid byte-Boolean value 0x"@,
            Seq::empty(),
        ],
        DecodeError::InvalidBooleanU16 { .. } => seq![
            "column "@,
            " has invalid u16-Boolean value 0x"@,
            Seq::empty(),
        ],
        DecodeError::UnsupportedNumericMarker { .. } => seq![
            "column "@,
            " has unsupported numeric marker 0x"@,
            Seq::empty(),
        ],
        DecodeError::TruncatedBooleanTail { .. } => seq![
            "boolean tail needs "@,
            " bytes but only "@,
            " remain"@,
        ],
        DecodeError::TrailingData { .. } => seq![
            "row has "@,
            " unconsumed bytes after its complete schema decode"@,
        ],
        DecodeError::ContinuedMaterializedRowCarrier => seq![
            "materialized row carrier is continued and requires caller-owned resolution"@,
        ],
        DecodeError::UnsupportedMaterializedRowCarrierFlags { .. } => seq![
            "materialized row carrier has unsupported flags 0x"@,
            Seq::empty(),
        ],
        DecodeError::TrailingMaterializedRowCarrier { .. } => seq![
            "materialized row carrier has "@,
            " bytes after its declared boundary"@,
        ],
        DecodeError::PrefixOrdinalOutOfRange { .. } => seq![
            "requested prefix ordinal "@,
            " is outside a "@,
            "-column schema"@,
        ],
        DecodeError::PrefixOverlapsBooleanTail { .. } => seq![
            "prefix column "@,
            " overlaps the independently located boolean tail"@,
        ],
    };
    assert(one.text() =~= told_between(words, told_by_decode_error(one)));
    assert(other.text() =~= told_between(words, told_by_decode_error(other)));
    words
}

/// What the message of a failure of a materialized page tells, in order.
pub open spec fn told_by_page_error(error: MaterializedPageError) -> Seq<Seq<char>> {
    match error {
        MaterializedPageError::InvalidPageLength { actual } => seq![numeral(actual as nat)],
        MaterializedPageError::WrongPageType { actual } => seq![numeral(actual as nat)],
        MaterializedPageError::DirectoryOutOfBounds { record_count } => seq![
            numeral(record_count as nat),
        ],
        MaterializedPageError::RecordIdOutOfRange { record_id, record_count } => seq![
            numeral(record_id as nat),
            numeral(record_count as nat),
        ],
        MaterializedPageError::MissingRecord { record_id } => seq![numeral(record_id as nat)],
        MaterializedPageError::RecordOutOfBounds { record_id, directory_offset } => seq![
            numeral(record_id as nat),
            numeral(directory_offset as nat),
        ],
        MaterializedPageError::InvalidRecordLength { record_id, directory_offset, .. } => seq![
            numeral(record_id as nat),
            numeral(directory_offset as nat),
        ],
    }
}

/// The messages of two such failures of one kind differ only in what they tell,
/// which stands at the same places between the same words.
pub proof fn page_errors_of_one_kind_read_alike(
    one: MaterializedPageError,
    other: MaterializedPageError,
) -> (words: Seq<Seq<char>>)
    requires
        ({
            ||| one is InvalidPageLength && other is InvalidPageLength
            ||| one is WrongPageType && other is WrongPageType
            ||| one is DirectoryOutOfBounds && other is DirectoryOutOfBounds
            ||| one is RecordIdOutOfRange && other is RecordIdOutOfRange
            ||| one is MissingRecord && other is MissingRecord
            ||| one is RecordOutOfBounds && other is RecordOutOfBounds
            ||| one is InvalidRecordLength && other is InvalidRecordLength
        }),
    ensures
        one.text() == told_between(words, told_by_page_error(one)),
        other.text() == told_between(words, told_by_page_error(other)),
        words.len() == told_by_page_error(one).len() + 1,
{
    reveal_with_fuel(told_between, 6);
    let words = match one {
        MaterializedPageError::InvalidPageLength { .. } => seq![
            "materialized table page needs exactly 4096 bytes, got "@,
            Seq::empty(),
        ],
        MaterializedPageError::WrongPageType { .. } => seq![
            "materialized table page has type "@,
            ", want 4"@,
        ],
        MaterializedPageError::DirectoryOutOfBounds { .. } => seq![
            "materialized table page directory for "@,
            " records is out of bounds"@,
        ],
        MaterializedPageError::RecordIdOutOfRange { .. } => seq![
            "record id "@,
            " is outside a "@,
            "-entry materialized page directory"@,
        ],
        MaterializedPageError::MissingRecord { .. } => seq![
            "record id "@,
            " is unavailable in the materialized page"@,
        ],
        MaterializedPageError::RecordOutOfBounds { .. } => seq![
            "record id "@,
            " has out-of-bounds directory offset "@,
            Seq::empty(),
        ],
        MaterializedPageError::InvalidRecordLength { .. } => seq![
            "record id "@,
            " at directory offset "@,
            " has invalid bounded-row length"@,
        ],
    };
    assert(one.text() =~= told_between(words, told_by_page_error(one)));
    assert(other.text() =~= told_between(words, told_by_page_error(other)));
    words
}

/// What the message of a failure of a permutation tells, in order.
pub open spec fn told_by_permutation_error(error: PagePermutationError) -> Seq<Seq<char>> {
    match error {
        PagePermutationError::NonPowerOfTwoLength { len } => seq![numeral(len as nat)],
        PagePermutationError::InvalidSectorLength { len } => seq![numeral(len as nat)],
        PagePermutationError::InvalidActiveRange { len, start, tail } => seq![
            numeral(start as nat),
            numeral(tail as nat),
            numeral(len as nat),
        ],
        PagePermutationError::NoActiveCycle { len, start, tail } => seq![
            numeral(start as nat),
            numeral(tail as nat),
            numeral(len as nat),
        ],
    }
}

/// The messages of two such failures of one kind differ only in what they tell,
/// which stands at the same places between the same words.
pub proof fn permutation_errors_of_one_kind_read_alike(
    one: PagePermutationError,
    other: PagePermutationError,
) -> (words: Seq<Seq<char>>)
    requires
        ({
            ||| one is NonPowerOfTwoLength && other is NonPowerOfTwoLength
            ||| one is InvalidSectorLength && other is InvalidSectorLength
            ||| one is InvalidActiveRange && other is InvalidActiveRange
            ||| one is NoActiveCycle && other is NoActiveCycle
        }),
    ensures
        one.text() == told_between(words, told_by_permutation_error(one)),
        other.text() == told_between(words, told_by_permutation_error(other)),
        words.len() == told_by_permutation_error(one).len() + 1,
{
    reveal_with_fuel(told_between, 6);
    let words = match one {
        PagePermutationError::NonPowerOfTwoLength { .. } => seq![
            "permutation buffer length "@,
            " is not a nonzero power of two"@,
        ],
        PagePermutationError::InvalidSectorLength { .. } => seq![
            "sector permutation needs exactly 512 bytes, got "@,
            Seq::empty(),
        ],
        PagePermutationError::InvalidActiveRange { .. } => seq![
            "permutation range start="@,
            ", tail="@,
            " is invalid for "@,
            " bytes"@,
        ],
        PagePermutationError::NoActiveCycle { .. } => seq![
            "permutation found no active cycle for start="@,
            ", tail="@,
            " in "@,
            " bytes"@,
        ],
    };
    assert(one.text() =~= told_between(words, told_by_permutation_error(one)));
    assert(other.text() =~= told_between(words, told_by_permutation_error(other)));
    words
}

/// What the message of a failure of a segment tells, in order.
pub open spec fn told_by_segment_error(error: RowSegmentError) -> Seq<Seq<char>> {
    match error {
        RowSegmentError::MissingHeader { available } => seq![numeral(available as nat)],
        RowSegmentError::InvalidLength { declared, header_len, available } => seq![
            numeral(declared as nat),
            numeral(header_len as nat),
            numeral(available as nat),
        ],
    }
}

/// The messages of two such failures of one kind differ only in what they tell,
/// which stands at the same places between the same words.
pub proof fn segment_errors_of_one_kind_read_alike(
    one: RowSegmentError,
    other: RowSegmentError,
) -> (words: Seq<Seq<char>>)
    requires
        ({
            ||| one is MissingHeader && other is MissingHeader
            ||| one is InvalidLength && other is InvalidLength
        }),
    ensures
        one.text() == told_between(words, told_by_segment_error(one)),
        other.text() == told_between(words, told_by_segment_error(other)),
        words.len() == told_by_segment_error(one).len() + 1,
{
    reveal_with_fuel(told_between, 6);
    let words = match one {
        RowSegmentError::MissingHeader { .. } => seq![
            "row segment needs a three-byte header but only "@,
            " bytes are available"@,
        ],
        RowSegmentError::InvalidLength { .. } => seq![
            "row segment declares "@,
            " bytes; it needs at least its "@,
            "-byte header and has "@,
            " bytes available"@,
        ],
    };
    assert(one.text() =~= told_between(words, told_by_segment_error(one)));
    assert(other.text() =~= told_between(words, told_by_segment_error(other)));
    words
}

/// What the message of a failure of a chain tells, in order.
pub open spec fn told_by_chain_error<E>(error: RowSegmentChainError<E>, resolver_text: Seq<char>) -> Seq<Seq<char>> {
    match error {
        RowSegmentChainError::InvalidSegment { target, segment_index, source } => seq![
            numeral(segment_index as nat),
            target.text(),
            source.text(),
        ],
        RowSegmentChainError::TrailingBytes { target, segment_index, declared_len, available } => seq![
            numeral(segment_index as nat),
            target.text(),
            numeral(declared_len as nat),
            numeral(available as nat),
        ],
        RowSegmentChainError::Resolver { target, .. } => seq![target.text(), resolver_text],
        RowSegmentChainError::SegmentLimit { max_segments, attempted_segments } => seq![
            numeral(attempted_segments as nat),
            numeral(max_segments as nat),
        ],
        RowSegmentChainError::PayloadLimit { max_total_payload_bytes, attempted_total_payload_bytes } => seq![
            numeral(attempted_total_payload_bytes as nat),
            numeral(max_total_payload_bytes as nat),
        ],
        RowSegmentChainError::Cycle { target } => seq![target.text()],
    }
}

/// The messages of two such failures of one kind differ only in what they tell,
/// which stands at the same places between the same words.
pub proof fn chain_errors_of_one_kind_read_alike<E>(
    one: RowSegmentChainError<E>,
    other: RowSegmentChainError<E>,
    resolver_text: Seq<char>,
) -> (words: Seq<Seq<char>>)
    requires
        ({
            ||| one is InvalidSegment && other is InvalidSegment
            ||| one is TrailingBytes && other is TrailingBytes
            ||| one is Resolver && other is Resolver
            ||| one is SegmentLimit && other is SegmentLimit
            ||| one is PayloadLimit && other is PayloadLimit
            ||| one is Cycle && other is Cycle
        }),
    ensures
        one.text(resolver_text) == told_between(words, told_by_chain_error(one, resolver_text)),
        other.text(resolver_text) == told_between(words, told_by_chain_error(other, resolver_text)),
        words.len() == told_by_chain_error(one, resolver_text).len() + 1,
{
    reveal_with_fuel(told_between, 6);
    let words = match one {
        RowSegmentChainError::InvalidSegment { .. } => seq![
            "row segment "@,
            " at "@,
            " is invalid: "@,
            Seq::empty(),
        ],
        RowSegmentChainError::TrailingBytes { .. } => seq![
            "row segment "@,
            " at "@,
            " declares "@,
            " bytes, but its resolver supplied "@,
            " bytes"@,
        ],
        RowSegmentChainError::Resolver { .. } => seq![
            "could not resolve row continuation target "@,
            ": "@,
            Seq::empty(),
        ],
        RowSegmentChainError::SegmentLimit { .. } => seq![
            "row continuation chain needs "@,
            " segments, exceeding its "@,
            "-segment limit"@,
        ],
        RowSegmentChainError::PayloadLimit { .. } => seq![
            "row continuation chain needs "@,
            " payload bytes, exceeding its "@,
            "-byte limit"@,
        ],
        RowSegmentChainError::Cycle { .. } => seq![
            "row continuation chain cycles at "@,
            Seq::empty(),
        ],
    };
    assert(one.text(resolver_text) =~= told_between(words, told_by_chain_error(one, resolver_text)));
    assert(other.text(resolver_text) =~= told_between(words, told_by_chain_error(other, resolver_text)));
    words
}

/// Targets read alike but for their key in eight and their record in four
/// upper-case hexadecimal digits.
pub proof fn targets_read_alike(one: ContinuationTarget, other: ContinuationTarget) -> (words: Seq<
    Seq<char>,
>)
    ensures
        words.len() == 2,
        one.text() == words[0] + text::hex_text(one.resolver_key as nat, 8, true) + words[1]
            + text::hex_text(one.record_id as nat, 4, true),
        other.text() == words[0] + text::hex_text(other.resolver_key as nat, 8, true) + words[1]
            + text::hex_text(other.record_id as nat, 4, true),
{
    seq!["resolver_key=0x"@, ", record_id=0x"@]
}

} // verus!
