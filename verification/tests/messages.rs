use opensqlany::{
    ContinuationTarget, DecodeError, MaterializedPageError, PagePermutationError,
    RowSegmentChainError, RowSegmentError,
};

#[test]
fn decode_failures_read_well() {
    let cases = [
        (DecodeError::MissingRowHeader, "row is shorter than its u16 header"),
        (
            DecodeError::InvalidRowSize { declared: 10, available: 9 },
            "row declares 10 bytes but only 9 are available",
        ),
        (
            DecodeError::UnsupportedRowFlags(0x2000),
            "row flags 0x2000 require overflow/reference resolution",
        ),
        (
            DecodeError::Truncated { column: 1, needed: 20, remaining: 3 },
            "column 1 needs 20 bytes but only 3 remain",
        ),
        (
            DecodeError::InvalidIntegerWidth { column: 1, width: 3 },
            "column 1 has unsupported integer width 3",
        ),
        (
            DecodeError::OverflowValue { column: 1 },
            "column 1 uses an unresolved variable-value overflow pointer",
        ),
        (
            DecodeError::UnsupportedEnum { column: 1, width: 3 },
            "column 1 uses ENUM domain 19 with unproven physical width 3",
        ),
        (
            DecodeError::InvalidEnumWidth { column: 1, width: 3 },
            "column 1 has unsupported ENUM width 3",
        ),
        (
            DecodeError::InvalidOverflowPointerWidth { column: 1 },
            "column 1 has a zero-width overflow pointer layout",
        ),
        (
            DecodeError::InvalidNumericDigit { column: 1, digit: 100 },
            "column 1 has invalid base-100 digit 100",
        ),
        (
            DecodeError::InvalidBooleanByte { column: 1, value: 0x0a },
            "column 1 has invalid byte-Boolean value 0x0a",
        ),
        (
            DecodeError::InvalidBooleanU16 { column: 1, value: 0xab },
            "column 1 has invalid u16-Boolean value 0x00ab",
        ),
        (
            DecodeError::UnsupportedNumericMarker { column: 1, marker: 0xbf },
            "column 1 has unsupported numeric marker 0xbf",
        ),
        (
            DecodeError::TruncatedBooleanTail { needed: 2, remaining: 1 },
            "boolean tail needs 2 bytes but only 1 remain",
        ),
        (
            DecodeError::TrailingData { remaining: 1 },
            "row has 1 unconsumed bytes after its complete schema decode",
        ),
        (
            DecodeError::ContinuedMaterializedRowCarrier,
            "materialized row carrier is continued and requires caller-owned resolution",
        ),
        (
            DecodeError::UnsupportedMaterializedRowCarrierFlags { flags: 0x40 },
            "materialized row carrier has unsupported flags 0x40",
        ),
        (
            DecodeError::TrailingMaterializedRowCarrier { remaining: 1 },
            "materialized row carrier has 1 bytes after its declared boundary",
        ),
        (
            DecodeError::PrefixOrdinalOutOfRange { ordinal: 9, column_count: 8 },
            "requested prefix ordinal 9 is outside a 8-column schema",
        ),
        (
            DecodeError::PrefixOverlapsBooleanTail { column: 0 },
            "prefix column 0 overlaps the independently located boolean tail",
        ),
    ];
    for (error, text) in cases {
        assert_eq!(error.to_string(), text);
    }
}

#[test]
fn segment_and_chain_failures_read_well() {
    let target = ContinuationTarget::new(0x0403_0201, 0x0605);
    let short = RowSegmentError::MissingHeader { available: 2 };
    let bad = RowSegmentError::InvalidLength { declared: 2, header_len: 3, available: 4 };
    assert_eq!(
        short.to_string(),
        "row segment needs a three-byte header but only 2 bytes are available"
    );
    assert_eq!(
        bad.to_string(),
        "row segment declares 2 bytes; it needs at least its 3-byte header and has 4 bytes \
         available"
    );
    let cases: [(RowSegmentChainError<()>, &str); 6] = [
        (
            RowSegmentChainError::InvalidSegment { target, segment_index: 1, source: short },
            "row segment 1 at resolver_key=0x04030201, record_id=0x0605 is invalid: row segment \
             needs a three-byte header but only 2 bytes are available",
        ),
        (
            RowSegmentChainError::TrailingBytes {
                target,
                segment_index: 0,
                declared_len: 3,
                available: 4,
            },
            "row segment 0 at resolver_key=0x04030201, record_id=0x0605 declares 3 bytes, but \
             its resolver supplied 4 bytes",
        ),
        (
            RowSegmentChainError::Resolver { target, source: () },
            "could not resolve row continuation target resolver_key=0x04030201, \
             record_id=0x0605: gone",
        ),
        (
            RowSegmentChainError::SegmentLimit { max_segments: 1, attempted_segments: 2 },
            "row continuation chain needs 2 segments, exceeding its 1-segment limit",
        ),
        (
            RowSegmentChainError::PayloadLimit {
                max_total_payload_bytes: 10,
                attempted_total_payload_bytes: 11,
            },
            "row continuation chain needs 11 payload bytes, exceeding its 10-byte limit",
        ),
        (
            RowSegmentChainError::Cycle { target },
            "row continuation chain cycles at resolver_key=0x04030201, record_id=0x0605",
        ),
    ];
    for (error, text) in cases {
        assert_eq!(error.to_string("gone"), text);
    }
}

#[test]
fn page_failures_read_well() {
    let cases = [
        (
            MaterializedPageError::InvalidPageLength { actual: 4095 },
            "materialized table page needs exactly 4096 bytes, got 4095",
        ),
        (
            MaterializedPageError::WrongPageType { actual: 3 },
            "materialized table page has type 3, want 4",
        ),
        (
            MaterializedPageError::DirectoryOutOfBounds { record_count: 9000 },
            "materialized table page directory for 9000 records is out of bounds",
        ),
        (
            MaterializedPageError::RecordIdOutOfRange { record_id: 2, record_count: 1 },
            "record id 2 is outside a 1-entry materialized page directory",
        ),
        (
            MaterializedPageError::MissingRecord { record_id: 2 },
            "record id 2 is unavailable in the materialized page",
        ),
        (
            MaterializedPageError::RecordOutOfBounds { record_id: 2, directory_offset: 5000 },
            "record id 2 has out-of-bounds directory offset 5000",
        ),
        (
            MaterializedPageError::InvalidRecordLength {
                record_id: 2,
                directory_offset: 100,
                declared: 1,
                available: 50,
            },
            "record id 2 at directory offset 100 has invalid bounded-row length",
        ),
    ];
    for (error, text) in cases {
        assert_eq!(error.to_string(), text);
    }
}

#[test]
fn permutation_failures_read_well() {
    let cases = [
        (
            PagePermutationError::NonPowerOfTwoLength { len: 3 },
            "permutation buffer length 3 is not a nonzero power of two",
        ),
        (
            PagePermutationError::InvalidSectorLength { len: 511 },
            "sector permutation needs exactly 512 bytes, got 511",
        ),
        (
            PagePermutationError::InvalidActiveRange { len: 8, start: 4, tail: 5 },
            "permutation range start=4, tail=5 is invalid for 8 bytes",
        ),
        (
            PagePermutationError::NoActiveCycle { len: 8, start: 1, tail: 2 },
            "permutation found no active cycle for start=1, tail=2 in 8 bytes",
        ),
    ];
    for (error, text) in cases {
        assert_eq!(error.to_string(), text);
    }
}
