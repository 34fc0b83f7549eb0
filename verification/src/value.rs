//! Decoded field values and rows.
use vstd::prelude::*;

use crate::date::{SaDate, SaDateTime};
use crate::decimal::{Decimal, DecimalView};

verus! {

/// A bounded raw numeric token from an Enterprise materialized row.
///
/// The marker and little-endian base-100 digits are preserved without a
/// universal decimal-scale interpretation. A table-specific caller may
/// convert it only after proving the relevant domain semantics.
#[derive(Debug, Clone, PartialEq, Eq)]
pub struct EnterpriseNumericToken {
    /// Raw sign/scale marker byte.
    pub marker: u8,
    /// Raw little-endian base-100 digits, excluding count and marker bytes.
    pub digits: Vec<u8>,
}

/// A decoded field value.  Text remains bytes because code-page selection is a
/// database-level concern, not a property safely inferable from one row.
#[derive(Debug, Clone, PartialEq, Eq)]
pub enum Value {
    /// SQL NULL.
    Null,
    /// Signed integer.
    Integer(i64),
    /// Unsigned integer.
    Unsigned(u64),
    /// Exact base-100 decimal.
    Decimal(Decimal),
    /// Bounded raw Enterprise materialized base-100 numeric token.
    EnterpriseNumeric(EnterpriseNumericToken),
    /// Raw unsigned ENUM scalar from an explicitly selected layout.
    Enum(u64),
    /// Raw bounded overflow pointer bytes, not the referenced value.
    OverflowPointer(Vec<u8>),
    /// Raw bytes from a non-overflow character/text value.
    Bytes(Vec<u8>),
    /// Date.
    Date(SaDate),
    /// Datetime.
    DateTime(SaDateTime),
    /// Boolean.
    Boolean(bool),
}

/// What a value says.
#[verifier::ext_equal]
pub ghost enum ValueView {
    Null,
    Integer(i64),
    Unsigned(u64),
    Decimal(DecimalView),
    EnterpriseNumeric { marker: u8, digits: Seq<u8> },
    Enum(u64),
    OverflowPointer(Seq<u8>),
    Bytes(Seq<u8>),
    Date(SaDate),
    DateTime(SaDateTime),
    Boolean(bool),
}

impl View for Value {
    type V = ValueView;

    open spec fn view(&self) -> ValueView {
        match self {
            Value::Null => ValueView::Null,
            Value::Integer(n) => ValueView::Integer(*n),
            Value::Unsigned(n) => ValueView::Unsigned(*n),
            Value::Decimal(decimal) => ValueView::Decimal(decimal@),
            Value::EnterpriseNumeric(token) => ValueView::EnterpriseNumeric {
                marker: token.marker,
                digits: token.digits@,
            },
            Value::Enum(n) => ValueView::Enum(*n),
            Value::OverflowPointer(pointer) => ValueView::OverflowPointer(pointer@),
            Value::Bytes(bytes) => ValueView::Bytes(bytes@),
            Value::Date(date) => ValueView::Date(*date),
            Value::DateTime(datetime) => ValueView::DateTime(*datetime),
            Value::Boolean(b) => ValueView::Boolean(*b),
        }
    }
}

/// What each of several values says.
pub open spec fn value_views(values: Seq<Value>) -> Seq<ValueView> {
    Seq::new(values.len(), |i: int| values[i]@)
}

/// A fully decoded row, with values in schema column order.
#[derive(Debug, Clone, PartialEq, Eq)]
pub struct DecodedRow {
    /// Declared row length including the two-byte header.
    pub declared_size: usize,
    /// Number of bytes consumed by the decoded physical fields, including the
    /// two-byte row header and all assigned Boolean storage.
    ///
    /// This can be smaller than [`Self::declared_size`] when callers use the
    /// permissive [`crate::decode_row`] API with a partial schema.  Consumers
    /// that have an independently complete schema should instead use
    /// [`crate::decode_row_exact`], which rejects that condition.
    pub consumed_size: usize,
    /// Header flags, after removing [`crate::ROW_SIZE_MASK`].
    pub flags: u16,
    /// Values in schema order.
    pub values: Vec<Value>,
}

/// What a decoded row says.
#[verifier::ext_equal]
pub ghost struct DecodedRowView {
    pub declared_size: int,
    pub consumed_size: int,
    pub flags: u16,
    pub values: Seq<ValueView>,
}

impl View for DecodedRow {
    type V = DecodedRowView;

    open spec fn view(&self) -> DecodedRowView {
        DecodedRowView {
            declared_size: self.declared_size as int,
            consumed_size: self.consumed_size as int,
            flags: self.flags,
            values: value_views(self.values@),
        }
    }
}

/// One value returned by a bounded prefix decode, retaining schema provenance.
#[derive(Debug, Clone, PartialEq, Eq)]
pub struct PartialRowValue {
    /// Zero-based position in the schema columns.
    pub column_index: usize,
    /// Catalog column identifier supplied by the schema.
    pub column_id: u32,
    /// Decoded value (including `NULL`).
    pub value: Value,
}

/// What a value with its provenance says.
#[verifier::ext_equal]
pub ghost struct PartialRowValueView {
    pub column_index: int,
    pub column_id: u32,
    pub value: ValueView,
}

impl View for PartialRowValue {
    type V = PartialRowValueView;

    open spec fn view(&self) -> PartialRowValueView {
        PartialRowValueView {
            column_index: self.column_index as int,
            column_id: self.column_id,
            value: self.value@,
        }
    }
}

/// What each of several values with provenance says.
pub open spec fn partial_value_views(values: Seq<PartialRowValue>) -> Seq<PartialRowValueView> {
    Seq::new(values.len(), |i: int| values[i]@)
}

/// A bounded prefix decode with independently decoded Boolean storage.
///
/// For tail layouts every present Boolean is available independently. For
/// inline layouts only Booleans through the selected prefix are available;
/// later bytes remain opaque with the unselected fields.
#[derive(Debug, Clone, PartialEq, Eq)]
pub struct PartialDecodedRow {
    /// Declared physical row size including its two-byte header.
    pub declared_size: usize,
    /// Header flags after removing [`crate::ROW_SIZE_MASK`].
    pub flags: u16,
    /// Inclusive one-based ordinal requested by the caller.
    pub through_ordinal: u32,
    /// Present/null decisions and decoded non-Boolean fields through the
    /// requested ordinal.
    pub prefix_values: Vec<PartialRowValue>,
    /// Boolean values decoded with their schema provenance.
    pub boolean_values: Vec<PartialRowValue>,
    /// Bytes intentionally left opaque after the selected prefix and before a
    /// tail sidecar, where one exists.
    pub opaque_middle_len: usize,
}

/// What a bounded prefix decode says.
#[verifier::ext_equal]
pub ghost struct PartialDecodedRowView {
    pub declared_size: int,
    pub flags: u16,
    pub through_ordinal: u32,
    pub prefix_values: Seq<PartialRowValueView>,
    pub boolean_values: Seq<PartialRowValueView>,
    pub opaque_middle_len: int,
}

impl View for PartialDecodedRow {
    type V = PartialDecodedRowView;

    open spec fn view(&self) -> PartialDecodedRowView {
        PartialDecodedRowView {
            declared_size: self.declared_size as int,
            flags: self.flags,
            through_ordinal: self.through_ordinal,
            prefix_values: partial_value_views(self.prefix_values@),
            boolean_values: partial_value_views(self.boolean_values@),
            opaque_middle_len: self.opaque_middle_len as int,
        }
    }
}

// ---------------------------------------------------------------------------
// Laws
// ---------------------------------------------------------------------------

/// What a value says is all of it: values that say the same are of the same
/// kind and hold the same.
pub proof fn values_are_told_apart(a: Value, b: Value)
    requires
        a@ == b@,
    ensures
        match (a, b) {
            (Value::Null, Value::Null) => true,
            (Value::Integer(m), Value::Integer(n)) => m == n,
            (Value::Unsigned(m), Value::Unsigned(n)) => m == n,
            (Value::Decimal(m), Value::Decimal(n)) => {
                &&& m.negative == n.negative
                &&& m.coefficient@ == n.coefficient@
                &&& m.scale == n.scale
            },
            (Value::EnterpriseNumeric(m), Value::EnterpriseNumeric(n)) => {
                &&& m.marker == n.marker
                &&& m.digits@ == n.digits@
            },
            (Value::Enum(m), Value::Enum(n)) => m == n,
            (Value::OverflowPointer(m), Value::OverflowPointer(n)) => m@ == n@,
            (Value::Bytes(m), Value::Bytes(n)) => m@ == n@,
            (Value::Date(m), Value::Date(n)) => m == n,
            (Value::DateTime(m), Value::DateTime(n)) => m == n,
            (Value::Boolean(m), Value::Boolean(n)) => m == n,
            _ => false,
        },
{
}

/// What a row says is all of it: its sizes and flags, and each value at its
/// place.
pub proof fn rows_are_told_apart(a: DecodedRow, b: DecodedRow, i: int)
    requires
        a@ == b@,
    ensures
        a.declared_size == b.declared_size,
        a.consumed_size == b.consumed_size,
        a.flags == b.flags,
        a.values@.len() == b.values@.len(),
        0 <= i < a.values@.len() ==> a.values@[i]@ == b.values@[i]@,
{
    assert(a@.values.len() == a.values@.len() && b@.values.len() == b.values@.len());
    if 0 <= i < a.values@.len() {
        assert(a@.values[i] == b@.values[i]);
    }
}

/// What a prefix says is all of it: its sizes, flags and ordinal, and each
/// value with its column at its place.
pub proof fn prefixes_are_told_apart(a: PartialDecodedRow, b: PartialDecodedRow, i: int)
    requires
        a@ == b@,
    ensures
        a.declared_size == b.declared_size,
        a.flags == b.flags,
        a.through_ordinal == b.through_ordinal,
        a.opaque_middle_len == b.opaque_middle_len,
        a.prefix_values@.len() == b.prefix_values@.len(),
        a.boolean_values@.len() == b.boolean_values@.len(),
        0 <= i < a.prefix_values@.len() ==> {
            &&& a.prefix_values@[i].column_index == b.prefix_values@[i].column_index
            &&& a.prefix_values@[i].column_id == b.prefix_values@[i].column_id
            &&& a.prefix_values@[i].value@ == b.prefix_values@[i].value@
        },
        0 <= i < a.boolean_values@.len() ==> {
            &&& a.boolean_values@[i].column_index == b.boolean_values@[i].column_index
            &&& a.boolean_values@[i].column_id == b.boolean_values@[i].column_id
            &&& a.boolean_values@[i].value@ == b.boolean_values@[i].value@
        },
{
    assert(a@.prefix_values.len() == a.prefix_values@.len());
    assert(b@.prefix_values.len() == b.prefix_values@.len());
    assert(a@.boolean_values.len() == a.boolean_values@.len());
    assert(b@.boolean_values.len() == b.boolean_values@.len());
    if 0 <= i < a.prefix_values@.len() {
        assert(a@.prefix_values[i] == b@.prefix_values[i]);
    }
    if 0 <= i < a.boolean_values@.len() {
        assert(a@.boolean_values[i] == b@.boolean_values[i]);
    }
}

} // verus!
