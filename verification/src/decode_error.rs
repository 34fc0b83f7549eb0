//! Failures of the row decoder.
use vstd::prelude::*;

use crate::text;

verus! {

/// A deliberately specific failure from the row decoder.
#[derive(Debug, Clone, Copy, PartialEq, Eq, Structural)]
pub enum DecodeError {
    /// The caller supplied fewer than two bytes.
    MissingRowHeader,
    /// Header's low-thirteen-bit size is not a complete row in the slice.
    InvalidRowSize {
        /// Size encoded in the row header after flag bits are removed.
        declared: usize,
        /// Bytes available in the caller-supplied row slice.
        available: usize,
    },
    /// A row needing overflow/reference resolution was rejected.
    UnsupportedRowFlags(u16),
    /// A fixed or variable field would read outside its declared row.
    Truncated {
        /// Zero-based schema column being decoded.
        column: usize,
        /// Bytes required for this field.
        needed: usize,
        /// Bytes remaining inside the declared row boundary.
        remaining: usize,
    },
    /// A schema requested an unsupported fixed integer width.
    InvalidIntegerWidth {
        /// Zero-based schema column being decoded.
        column: usize,
        /// Unsupported declared byte width.
        width: u16,
    },
    /// A variable field's overflow marker needs a separate resolver.
    OverflowValue {
        /// Zero-based schema column containing the overflow marker.
        column: usize,
    },
    /// An ENUM domain was recognized but its physical scalar representation
    /// has not been independently established.
    UnsupportedEnum {
        /// Zero-based schema column containing the enum value.
        column: usize,
        /// Catalog-declared width, retained to aid a future evidence-backed
        /// implementation.
        width: u16,
    },
    /// An explicitly enabled ENUM layout did not support the catalog width.
    InvalidEnumWidth {
        /// Zero-based schema column being decoded.
        column: usize,
        /// Unsupported declared byte width.
        width: u16,
    },
    /// An overflow-pointer layout used zero bytes.
    InvalidOverflowPointerWidth {
        /// Zero-based schema column being decoded.
        column: usize,
    },
    /// Numeric digit is not a base-100 digit.
    InvalidNumericDigit {
        /// Zero-based schema column being decoded.
        column: usize,
        /// Invalid encoded digit.
        digit: u8,
    },
    /// A byte-per-Boolean layout contained a value other than the proven
    /// `0` (false) or `1` (true) representation.
    InvalidBooleanByte {
        /// Zero-based schema column containing the Boolean.
        column: usize,
        /// Raw byte that was not a Boolean representation.
        value: u8,
    },
    /// A little-endian-u16 Boolean layout contained a value other than the
    /// proven `0` (false) or `1` (true) representation.
    InvalidBooleanU16 {
        /// Zero-based schema column containing the Boolean.
        column: usize,
        /// Raw little-endian u16 that was not a Boolean representation.
        value: u16,
    },
    /// A numeric marker is outside the explicitly selected numeric dialect.
    UnsupportedNumericMarker {
        /// Zero-based schema column being decoded.
        column: usize,
        /// Raw sign/scale marker.
        marker: u8,
    },
    /// More trailing data was required by the boolean-sidecar declaration.
    TruncatedBooleanTail {
        /// Bytes required by the selected boolean-tail layout.
        needed: usize,
        /// Bytes remaining inside the declared row boundary.
        remaining: usize,
    },
    /// A complete-schema decode left bytes inside the declared row boundary.
    ///
    /// This prevents a partial schema from being mistaken for a physical row
    /// decoder when the caller needs exact field locations.
    TrailingData {
        /// Number of bytes not assigned to a schema field or boolean tail.
        remaining: usize,
    },
    /// A materialized-row carrier used continuation semantics that need a
    /// caller-owned resolver before its payload can be decoded.
    ContinuedMaterializedRowCarrier,
    /// A materialized-row carrier used flags other than the proven normal
    /// zero-flag form.
    UnsupportedMaterializedRowCarrierFlags {
        /// Raw carrier flag byte.
        flags: u8,
    },
    /// Bytes followed a materialized row carrier's declared boundary.
    TrailingMaterializedRowCarrier {
        /// Bytes outside the carrier's declared physical record.
        remaining: usize,
    },
    /// The requested one-based prefix ordinal is outside the supplied schema.
    PrefixOrdinalOutOfRange {
        /// Requested one-based ordinal.
        ordinal: u32,
        /// Number of schema columns.
        column_count: usize,
    },
    /// A decoded prefix field crossed into the independently located Boolean
    /// tail.
    PrefixOverlapsBooleanTail {
        /// Zero-based schema column that crossed the tail boundary.
        column: usize,
    },
}

impl DecodeError {
    /// What [`Self::to_string`] renders.
    pub open spec fn text(self) -> Seq<char> {
        match self {
            DecodeError::MissingRowHeader => {
                "row is shorter than its u16 header"@
            },
            DecodeError::InvalidRowSize { declared, available } => {
                "row declares "@
                    + text::decimal_text(declared as nat)
                    + " bytes but only "@
                    + text::decimal_text(available as nat)
                    + " are available"@
            },
            DecodeError::UnsupportedRowFlags(flags) => {
                "row flags 0x"@
                    + text::hex_text(flags as nat, 4, false)
                    + " require overflow/reference resolution"@
            },
            DecodeError::Truncated { column, needed, remaining } => {
                "column "@
                    + text::decimal_text(column as nat)
                    + " needs "@
                    + text::decimal_text(needed as nat)
                    + " bytes but only "@
                    + text::decimal_text(remaining as nat)
                    + " remain"@
            },
            DecodeError::InvalidIntegerWidth { column, width } => {
                "column "@
                    + text::decimal_text(column as nat)
                    + " has unsupported integer width "@
                    + text::decimal_text(width as nat)
            },
            DecodeError::OverflowValue { column } => {
                "column "@
                    + text::decimal_text(column as nat)
                    + " uses an unresolved variable-value overflow pointer"@
            },
            DecodeError::UnsupportedEnum { column, width } => {
                "column "@
                    + text::decimal_text(column as nat)
                    + " uses ENUM domain 19 with unproven physical width "@
                    + text::decimal_text(width as nat)
            },
            DecodeError::InvalidEnumWidth { column, width } => {
                "column "@
                    + text::decimal_text(column as nat)
                    + " has unsupported ENUM width "@
                    + text::decimal_text(width as nat)
            },
            DecodeError::InvalidOverflowPointerWidth { column } => {
                "column "@
                    + text::decimal_text(column as nat)
                    + " has a zero-width overflow pointer layout"@
            },
            DecodeError::InvalidNumericDigit { column, digit } => {
                "column "@
                    + text::decimal_text(column as nat)
                    + " has invalid base-100 digit "@
                    + text::decimal_text(digit as nat)
            },
            DecodeError::InvalidBooleanByte { column, value } => {
                "column "@
                    + text::decimal_text(column as nat)
                    + " has invalid byte-Boolean value 0x"@
                    + text::hex_text(value as nat, 2, false)
            },
            DecodeError::InvalidBooleanU16 { column, value } => {
                "column "@
                    + text::decimal_text(column as nat)
                    + " has invalid u16-Boolean value 0x"@
                    + text::hex_text(value as nat, 4, false)
            },
            DecodeError::UnsupportedNumericMarker { column, marker } => {
                "column "@
                    + text::decimal_text(column as nat)
                    + " has unsupported numeric marker 0x"@
                    + text::hex_text(marker as nat, 2, false)
            },
            DecodeError::TruncatedBooleanTail { needed, remaining } => {
                "boolean tail needs "@
                    + text::decimal_text(needed as nat)
                    + " bytes but only "@
                    + text::decimal_text(remaining as nat)
                    + " remain"@
            },
            DecodeError::TrailingData { remaining } => {
                "row has "@
                    + text::decimal_text(remaining as nat)
                    + " unconsumed bytes after its complete schema decode"@
            },
            DecodeError::ContinuedMaterializedRowCarrier => {
                "materialized row carrier is continued and requires caller-owned resolution"@
            },
            DecodeError::UnsupportedMaterializedRowCarrierFlags { flags } => {
                "materialized row carrier has unsupported flags 0x"@
                    + text::hex_text(flags as nat, 2, false)
            },
            DecodeError::TrailingMaterializedRowCarrier { remaining } => {
                "materialized row carrier has "@
                    + text::decimal_text(remaining as nat)
                    + " bytes after its declared boundary"@
            },
            DecodeError::PrefixOrdinalOutOfRange { ordinal, column_count } => {
                "requested prefix ordinal "@
                    + text::decimal_text(ordinal as nat)
                    + " is outside a "@
                    + text::decimal_text(column_count as nat)
                    + "-column schema"@
            },
            DecodeError::PrefixOverlapsBooleanTail { column } => {
                "prefix column "@
                    + text::decimal_text(column as nat)
                    + " overlaps the independently located boolean tail"@
            },
        }
    }

    /// A description of the failure.
    pub fn to_string(&self) -> (out: String)
        ensures
            out@ == self.text(),
    {
        let mut out: String = String::new();
        match self {
            DecodeError::MissingRowHeader => {
                out.append("row is shorter than its u16 header");
            },
            DecodeError::InvalidRowSize { declared, available } => {
                out.append("row declares ");
                text::append_decimal(&mut out, *declared as u64);
                out.append(" bytes but only ");
                text::append_decimal(&mut out, *available as u64);
                out.append(" are available");
            },
            DecodeError::UnsupportedRowFlags(flags) => {
                out.append("row flags 0x");
                text::append_hex(&mut out, *flags as u32, 4, false);
                out.append(" require overflow/reference resolution");
            },
            DecodeError::Truncated { column, needed, remaining } => {
                out.append("column ");
                text::append_decimal(&mut out, *column as u64);
                out.append(" needs ");
                text::append_decimal(&mut out, *needed as u64);
                out.append(" bytes but only ");
                text::append_decimal(&mut out, *remaining as u64);
                out.append(" remain");
            },
            DecodeError::InvalidIntegerWidth { column, width } => {
                out.append("column ");
                text::append_decimal(&mut out, *column as u64);
                out.append(" has unsupported integer width ");
                text::append_decimal(&mut out, *width as u64);
            },
            DecodeError::OverflowValue { column } => {
                out.append("column ");
                text::append_decimal(&mut out, *column as u64);
                out.append(" uses an unresolved variable-value overflow pointer");
            },
            DecodeError::UnsupportedEnum { column, width } => {
                out.append("column ");
                text::append_decimal(&mut out, *column as u64);
                out.append(" uses ENUM domain 19 with unproven physical width ");
                text::append_decimal(&mut out, *width as u64);
            },
            DecodeError::InvalidEnumWidth { column, width } => {
                out.append("column ");
                text::append_decimal(&mut out, *column as u64);
                out.append(" has unsupported ENUM width ");
                text::append_decimal(&mut out, *width as u64);
            },
            DecodeError::InvalidOverflowPointerWidth { column } => {
                out.append("column ");
                text::append_decimal(&mut out, *column as u64);
                out.append(" has a zero-width overflow pointer layout");
            },
            DecodeError::InvalidNumericDigit { column, digit } => {
                out.append("column ");
                text::append_decimal(&mut out, *column as u64);
                out.append(" has invalid base-100 digit ");
                text::append_decimal(&mut out, *digit as u64);
            },
            DecodeError::InvalidBooleanByte { column, value } => {
                out.append("column ");
                text::append_decimal(&mut out, *column as u64);
                out.append(" has invalid byte-Boolean value 0x");
                text::append_hex(&mut out, *value as u32, 2, false);
            },
            DecodeError::InvalidBooleanU16 { column, value } => {
                out.append("column ");
                text::append_decimal(&mut out, *column as u64);
                out.append(" has invalid u16-Boolean value 0x");
                text::append_hex(&mut out, *value as u32, 4, false);
            },
            DecodeError::UnsupportedNumericMarker { column, marker } => {
                out.append("column ");
                text::append_decimal(&mut out, *column as u64);
                out.append(" has unsupported numeric marker 0x");
                text::append_hex(&mut out, *marker as u32, 2, false);
            },
            DecodeError::TruncatedBooleanTail { needed, remaining } => {
                out.append("boolean tail needs ");
                text::append_decimal(&mut out, *needed as u64);
                out.append(" bytes but only ");
                text::append_decimal(&mut out, *remaining as u64);
                out.append(" remain");
            },
            DecodeError::TrailingData { remaining } => {
                out.append("row has ");
                text::append_decimal(&mut out, *remaining as u64);
                out.append(" unconsumed bytes after its complete schema decode");
            },
            DecodeError::ContinuedMaterializedRowCarrier => {
                out.append("materialized row carrier is continued and requires caller-owned resolution");
            },
            DecodeError::UnsupportedMaterializedRowCarrierFlags { flags } => {
                out.append("materialized row carrier has unsupported flags 0x");
                text::append_hex(&mut out, *flags as u32, 2, false);
            },
            DecodeError::TrailingMaterializedRowCarrier { remaining } => {
                out.append("materialized row carrier has ");
                text::append_decimal(&mut out, *remaining as u64);
                out.append(" bytes after its declared boundary");
            },
            DecodeError::PrefixOrdinalOutOfRange { ordinal, column_count } => {
                out.append("requested prefix ordinal ");
                text::append_decimal(&mut out, *ordinal as u64);
                out.append(" is outside a ");
                text::append_decimal(&mut out, *column_count as u64);
                out.append("-column schema");
            },
            DecodeError::PrefixOverlapsBooleanTail { column } => {
                out.append("prefix column ");
                text::append_decimal(&mut out, *column as u64);
                out.append(" overlaps the independently located boolean tail");
            },
        }
        assert(out@ =~= self.text());
        out
    }
}

} // verus!
