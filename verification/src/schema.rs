//! Row schemas: columns in physical order and the layout choices that catalog
//! metadata alone does not settle.
use vstd::prelude::*;

verus! {

/// SQL Anywhere physical column domains observed in system and QuickBooks
/// tables.
///
/// The system-catalog domain identifier of a type is what [`Self::domain_id`]
/// returns. A cast to an integer gives the position of the variant, which is
/// another number.
#[derive(Debug, Clone, Copy, PartialEq, Eq, Structural)]
pub enum ColumnType {
    /// `SMALLINT`, domain 1.
    SmallInt,
    /// Signed integer, domain 2; its schema width determines 1, 2, 4, or 8
    /// bytes.
    Integer,
    /// SQL Anywhere base-100 decimal, domain 3.
    Numeric,
    /// Alternate signed integer domain, domain 4.
    Integer2,
    /// Signed minute count from SQL Anywhere's legacy date epoch, domain 6.
    Date,
    /// Variable-length character/octet string, domain 8.
    Char,
    /// Variable-length character/octet string, domain 9.
    Char2,
    /// Variable-length text/octet string, domain 10.
    Text,
    /// Variable-length text/octet string, domain 11.
    Text2,
    /// Date minutes plus an uninterpreted signed 32-bit subminute field,
    /// domain 13.
    DateTime,
    /// Enumerated domain, domain 19.
    ///
    /// Neither its physical scalar width nor its signedness is established.
    /// It is therefore recognized, then rejected by the typed decoder rather
    /// than guessed as an integer or boolean.
    Enum,
    /// Unsigned 64-bit integer, domain 20.
    UInt64,
    /// Unsigned 32-bit integer, domain 21.
    UInt32,
    /// Signed 64-bit integer, domain 23.
    Int64,
    /// Boolean stored in a schema-defined tail sidecar or inline byte, domain
    /// 24.
    Boolean,
}

impl ColumnType {
    /// The system-catalog domain identifier of this type.
    pub open spec fn domain(self) -> u16 {
        match self {
            ColumnType::SmallInt => 1,
            ColumnType::Integer => 2,
            ColumnType::Numeric => 3,
            ColumnType::Integer2 => 4,
            ColumnType::Date => 6,
            ColumnType::Char => 8,
            ColumnType::Char2 => 9,
            ColumnType::Text => 10,
            ColumnType::Text2 => 11,
            ColumnType::DateTime => 13,
            ColumnType::Enum => 19,
            ColumnType::UInt64 => 20,
            ColumnType::UInt32 => 21,
            ColumnType::Int64 => 23,
            ColumnType::Boolean => 24,
        }
    }

    /// Convert a system-catalog domain identifier to a supported physical
    /// type.
    pub fn from_domain_id(id: u16) -> (column_type: Option<Self>)
        ensures
            match column_type {
                Some(known) => known.domain() == id,
                None => forall|other: ColumnType| #[trigger] other.domain() != id,
            },
    {
        match id {
            1 => Some(ColumnType::SmallInt),
            2 => Some(ColumnType::Integer),
            3 => Some(ColumnType::Numeric),
            4 => Some(ColumnType::Integer2),
            6 => Some(ColumnType::Date),
            8 => Some(ColumnType::Char),
            9 => Some(ColumnType::Char2),
            10 => Some(ColumnType::Text),
            11 => Some(ColumnType::Text2),
            13 => Some(ColumnType::DateTime),
            19 => Some(ColumnType::Enum),
            20 => Some(ColumnType::UInt64),
            21 => Some(ColumnType::UInt32),
            23 => Some(ColumnType::Int64),
            24 => Some(ColumnType::Boolean),
            _ => None,
        }
    }

    /// The system-catalog domain identifier of this type.
    pub fn domain_id(self) -> (id: u16)
        ensures
            id == self.domain(),
    {
        match self {
            ColumnType::SmallInt => 1,
            ColumnType::Integer => 2,
            ColumnType::Numeric => 3,
            ColumnType::Integer2 => 4,
            ColumnType::Date => 6,
            ColumnType::Char => 8,
            ColumnType::Char2 => 9,
            ColumnType::Text => 10,
            ColumnType::Text2 => 11,
            ColumnType::DateTime => 13,
            ColumnType::Enum => 19,
            ColumnType::UInt64 => 20,
            ColumnType::UInt32 => 21,
            ColumnType::Int64 => 23,
            ColumnType::Boolean => 24,
        }
    }

    /// Whether values of this type carry their own length.
    pub open spec fn variable(self) -> bool {
        self is Char || self is Char2 || self is Text || self is Text2
    }

    pub(crate) fn is_variable(self) -> (r: bool)
        ensures
            r == self.variable(),
    {
        matches!(
            self,
            ColumnType::Char | ColumnType::Char2 | ColumnType::Text | ColumnType::Text2
        )
    }
}

/// A physical column in a [`RowSchema`].  `width` is required for integer
/// domains whose catalog definition controls their storage width; it is
/// ignored for variable and date-like types.
#[derive(Debug, Clone, PartialEq, Eq)]
pub struct ColumnDef {
    /// Stable catalog column identifier, where known.
    pub id: u32,
    /// Human-readable catalog column name.
    pub name: String,
    /// On-disk domain type.
    pub column_type: ColumnType,
    /// Declared width from `SYSCOLUMN`; see type-specific semantics above.
    pub width: u16,
    /// Whether this column consumes a bit in the row null bitmap.
    pub nullable: bool,
}

/// What a column definition says.
pub ghost struct ColumnView {
    pub id: u32,
    pub name: Seq<char>,
    pub column_type: ColumnType,
    pub width: u16,
    pub nullable: bool,
}

impl View for ColumnDef {
    type V = ColumnView;

    open spec fn view(&self) -> ColumnView {
        ColumnView {
            id: self.id,
            name: self.name@,
            column_type: self.column_type,
            width: self.width,
            nullable: self.nullable,
        }
    }
}

impl ColumnDef {
    /// Build a column definition.
    pub fn new<N: Into<String>>(
        id: u32,
        name: N,
        column_type: ColumnType,
        width: u16,
        nullable: bool,
    ) -> (column: Self)
        ensures
            column.id == id,
            call_ensures(N::into, (name,), column.name),
            column.column_type == column_type,
            column.width == width,
            column.nullable == nullable,
    {
        ColumnDef { id, name: name.into(), column_type, width, nullable }
    }

    /// Build a column definition from a borrowed name.
    pub fn named(id: u32, name: &str, column_type: ColumnType, width: u16, nullable: bool) -> (column:
        Self)
        ensures
            column@ == (ColumnView { id, name: name@, column_type, width, nullable }),
    {
        ColumnDef { id, name: String::from_str(name), column_type, width, nullable }
    }
}

/// How Boolean values are physically stored.
///
/// SQL Anywhere catalog metadata does not itself identify this detail, so a
/// caller must choose it rather than allowing the decoder to guess.  The
/// legacy layouts keep all Boolean values in a sidecar after the sequential
/// fields.  The inline layouts instead store them at the Boolean column's
/// physical ordinal.
#[derive(Debug, Clone, Copy, PartialEq, Eq, Default, Structural)]
pub enum BooleanTailLayout {
    /// A byte, zero or one, for each present boolean column.
    #[default]
    Bytes,
    /// One MSB-first bitmap covering present boolean columns.
    PackedMsbFirst,
    /// One byte, zero or one, at each present Boolean column's physical
    /// ordinal.
    InlineBytes,
    /// MSB-first packed bytes at each maximal consecutive run of present
    /// Boolean columns, at that run's physical ordinal.
    InlinePackedRunsMsbFirst,
    /// LSB-first packed bytes at each maximal consecutive run of present
    /// Boolean columns, at that run's physical ordinal.
    InlinePackedRunsLsbFirst,
    /// Little-endian `u16` (zero=false, one=true) at each present Boolean
    /// column's physical ordinal.
    InlineU16Le,
}

impl BooleanTailLayout {
    /// Whether Boolean values stand in a sidecar after the sequential fields.
    pub open spec fn in_tail(self) -> bool {
        self is Bytes || self is PackedMsbFirst
    }

    /// Whether Boolean values are packed into bytes at each run of columns.
    pub open spec fn in_runs(self) -> bool {
        self is InlinePackedRunsMsbFirst || self is InlinePackedRunsLsbFirst
    }
}

/// Physical representation selected for `NUMERIC` fields.
///
/// SQL Anywhere's legacy on-disk row decoder and the Enterprise materialized
/// table carrier use different, independently evidenced base-100 order/sign
/// conventions. A schema must choose explicitly; the default preserves the
/// legacy decoder behavior.
#[derive(Debug, Clone, Copy, PartialEq, Eq, Default, Structural)]
pub enum NumericLayout {
    /// The forward-digit legacy representation.
    #[default]
    LegacyForward,
    /// Enterprise materialized numeric token: raw marker plus little-endian
    /// base-100 digits.
    ///
    /// The decoder retains a bounded raw token rather than assigning marker
    /// sign/scale semantics or a decimal scale, because those facts have not
    /// been proven for every Enterprise materialized `NUMERIC` field.
    EnterpriseMaterializedRaw,
}

/// Physical representation selected for domain-19 `ENUM` fields.
///
/// A catalog domain identifier alone does not prove an enum scalar layout.
/// The default therefore rejects it. Callers may opt into raw unsigned scalar
/// preservation only after independently proving the declared column width.
#[derive(Debug, Clone, Copy, PartialEq, Eq, Default, Structural)]
pub enum EnumLayout {
    /// Reject ENUM fields rather than guessing their representation.
    #[default]
    Unsupported,
    /// Preserve a proven fixed-width unsigned scalar using `ColumnDef::width`.
    FixedWidthUnsigned,
}

/// How a variable-length overflow marker is handled.
///
/// This does not resolve an overflow value. It only permits a caller with
/// independent pointer-width evidence to retain the exact bounded pointer
/// bytes and continue decoding later columns.
#[derive(Debug, Clone, Copy, PartialEq, Eq, Default, Structural)]
pub enum VariableOverflowLayout {
    /// Reject overflow markers because no pointer representation is proven.
    #[default]
    Unsupported,
    /// Preserve exactly this many raw pointer bytes after the marker.
    Pointer {
        /// Independently proven pointer width in bytes.
        width: u8,
    },
}

/// Length-prefix representation for variable character and text fields.
///
/// The catalog width is not itself sufficient to select a representation, so
/// a schema must choose explicitly. Mixed mode permits a caller to attest a
/// width-based distinction without changing the logical column order.
#[derive(Debug, Clone, Copy, PartialEq, Eq, Default, Structural)]
pub enum VariableLengthLayout {
    /// One-byte length; `0xff` is the overflow sentinel.
    #[default]
    U8,
    /// Little-endian two-byte length; `0xffff` is the overflow sentinel.
    U16Le,
    /// One-byte lengths below `wide_at_or_above`, two-byte lengths at or above
    /// it.
    DeclaredWidth {
        /// Catalog width selecting the two-byte representation.
        wide_at_or_above: u16,
    },
}

/// Bit ordering and polarity for a physical row null bitmap.
///
/// This is intentionally schema-owned: nullability metadata alone does not
/// establish whether a set bit means present or null, nor bit order.
#[derive(Debug, Clone, Copy, PartialEq, Eq, Default, Structural)]
pub enum NullBitmapLayout {
    /// Most-significant-bit first, with a set bit meaning the field is present.
    #[default]
    MsbPresent,
    /// Least-significant-bit first, with a set bit meaning the field is
    /// present.
    LsbPresent,
    /// Most-significant-bit first, with a set bit meaning the field is null.
    MsbNull,
    /// Least-significant-bit first, with a set bit meaning the field is null.
    LsbNull,
}

/// Which logical columns consume positions in a physical null bitmap.
#[derive(Debug, Clone, Copy, PartialEq, Eq, Default, Structural)]
pub enum NullBitmapCoverage {
    /// Only catalog-nullable columns consume bitmap positions.
    #[default]
    NullableColumns,
    /// Every logical column consumes a bitmap position; bits for nonnullable
    /// columns are ignored when deciding nullness.
    AllColumns,
}

/// Bytes between the leading row length and the null bitmap.
///
/// The default keeps the legacy direct-row grammar. A caller may explicitly
/// select a carrier prefix only after proving that representation.
#[derive(Debug, Clone, Copy, PartialEq, Eq, Default, Structural)]
pub enum RowPrefixLayout {
    /// Null bitmap begins immediately after the leading `u16` row length.
    #[default]
    NoCarrier,
    /// One opaque carrier byte precedes the null bitmap.
    OneByteCarrier,
    /// Two opaque carrier bytes precede the null bitmap.
    TwoByteCarrier,
    /// Three opaque carrier bytes precede the null bitmap.
    ThreeByteCarrier,
}

impl RowPrefixLayout {
    /// Number of carrier bytes.
    pub open spec fn byte_count(self) -> int {
        match self {
            RowPrefixLayout::NoCarrier => 0,
            RowPrefixLayout::OneByteCarrier => 1,
            RowPrefixLayout::TwoByteCarrier => 2,
            RowPrefixLayout::ThreeByteCarrier => 3,
        }
    }

    pub(crate) fn len(self) -> (r: usize)
        ensures
            r == self.byte_count(),
    {
        match self {
            RowPrefixLayout::NoCarrier => 0,
            RowPrefixLayout::OneByteCarrier => 1,
            RowPrefixLayout::TwoByteCarrier => 2,
            RowPrefixLayout::ThreeByteCarrier => 3,
        }
    }
}

/// Schema required to decode one row.
#[derive(Debug, Clone, PartialEq, Eq)]
pub struct RowSchema {
    /// Columns in physical row order.  Primary-key ordering, if applicable,
    /// must already have been resolved by the caller.
    pub columns: Vec<ColumnDef>,
    /// Physical Boolean storage layout, in a sidecar or inline.
    pub boolean_tail: BooleanTailLayout,
    /// Explicit physical encoding for `NUMERIC` columns.
    pub numeric_layout: NumericLayout,
    /// Explicit physical encoding for domain-19 `ENUM` columns.
    pub enum_layout: EnumLayout,
    /// Explicit handling for variable-value overflow markers.
    pub variable_overflow_layout: VariableOverflowLayout,
    /// Explicit length-prefix representation for variable columns.
    pub variable_length_layout: VariableLengthLayout,
    /// Explicit bit ordering and polarity for nullable columns.
    pub null_bitmap_layout: NullBitmapLayout,
    /// Which logical columns consume null-bitmap positions.
    pub null_bitmap_coverage: NullBitmapCoverage,
    /// Explicit optional carrier prefix before the null bitmap.
    pub row_prefix_layout: RowPrefixLayout,
}

/// Number of nullable columns among the first `n`.
pub open spec fn nullable_among(columns: Seq<ColumnDef>, n: int) -> int
    decreases n,
{
    if n <= 0 {
        0
    } else {
        nullable_among(columns, n - 1) + if columns[n - 1].nullable {
            1int
        } else {
            0
        }
    }
}

/// There are at most as many nullable columns as columns.
pub proof fn lemma_nullable_among(columns: Seq<ColumnDef>, m: int, n: int)
    requires
        0 <= m <= n,
    ensures
        0 <= nullable_among(columns, m) <= nullable_among(columns, n),
        nullable_among(columns, n) - nullable_among(columns, m) <= n - m,
    decreases n,
{
    if m < n {
        lemma_nullable_among(columns, m, n - 1);
    } else if n > 0 {
        lemma_nullable_among(columns, n - 1, n - 1);
    }
}

impl RowSchema {
    /// Whether every layout has its legacy default.
    pub open spec fn has_default_layouts(self) -> bool {
        &&& self.boolean_tail is Bytes
        &&& self.numeric_layout is LegacyForward
        &&& self.enum_layout is Unsupported
        &&& self.variable_overflow_layout is Unsupported
        &&& self.variable_length_layout is U8
        &&& self.null_bitmap_layout is MsbPresent
        &&& self.null_bitmap_coverage is NullableColumns
        &&& self.row_prefix_layout is NoCarrier
    }

    /// What the columns say, in physical order.
    pub open spec fn column_views(self) -> Seq<ColumnView> {
        Seq::new(self.columns@.len(), |i: int| self.columns@[i]@)
    }

    /// Number of null-bitmap positions.
    pub open spec fn bitmap_bits(self) -> int {
        match self.null_bitmap_coverage {
            NullBitmapCoverage::NullableColumns => nullable_among(
                self.columns@,
                self.columns@.len() as int,
            ),
            NullBitmapCoverage::AllColumns => self.columns@.len() as int,
        }
    }

    /// Construct a schema using legacy byte-per-Boolean tail storage.
    pub fn new(columns: Vec<ColumnDef>) -> (schema: Self)
        ensures
            schema.columns == columns,
            schema.has_default_layouts(),
    {
        RowSchema {
            columns,
            boolean_tail: BooleanTailLayout::Bytes,
            numeric_layout: NumericLayout::LegacyForward,
            enum_layout: EnumLayout::Unsupported,
            variable_overflow_layout: VariableOverflowLayout::Unsupported,
            variable_length_layout: VariableLengthLayout::U8,
            null_bitmap_layout: NullBitmapLayout::MsbPresent,
            null_bitmap_coverage: NullBitmapCoverage::NullableColumns,
            row_prefix_layout: RowPrefixLayout::NoCarrier,
        }
    }

    /// Number of nullable fields, and therefore null-bitmap bits.
    pub fn nullable_count(&self) -> (count: usize)
        ensures
            count == nullable_among(self.columns@, self.columns@.len() as int),
    {
        let mut count: usize = 0;
        let mut i: usize = 0;
        while i < self.columns.len()
            invariant
                i <= self.columns@.len(),
                count == nullable_among(self.columns@, i as int),
                count <= i,
            decreases self.columns@.len() - i,
        {
            if self.columns[i].nullable {
                count = count + 1;
            }
            i = i + 1;
        }
        count
    }

    /// Number of physical bitmap positions selected by this schema.
    pub fn null_bitmap_bit_count(&self) -> (count: usize)
        ensures
            count == self.bitmap_bits(),
    {
        match self.null_bitmap_coverage {
            NullBitmapCoverage::NullableColumns => self.nullable_count(),
            NullBitmapCoverage::AllColumns => self.columns.len(),
        }
    }
}

/// The columns of the legacy `SYSTABLE` schema.
pub open spec fn systable_columns() -> Seq<ColumnView> {
    seq![
        column(1, "table_id"@, ColumnType::Integer, 4, false),
        column(2, "file_id"@, ColumnType::SmallInt, 2, false),
        column(3, "count"@, ColumnType::Int64, 8, false),
        column(4, "first_page"@, ColumnType::Integer, 4, false),
        column(5, "last_page"@, ColumnType::Integer, 4, false),
        column(6, "primary_root"@, ColumnType::Integer, 4, false),
        column(7, "creator"@, ColumnType::Integer, 4, false),
        column(8, "first_ext_page"@, ColumnType::Integer, 4, false),
        column(9, "last_ext_page"@, ColumnType::Integer, 4, false),
        column(10, "table_page_count"@, ColumnType::Integer, 4, false),
        column(11, "ext_page_count"@, ColumnType::Integer, 4, false),
        column(12, "table_name"@, ColumnType::Char, 128, false),
        column(13, "table_type"@, ColumnType::Text, 0, false),
        column(14, "view_def"@, ColumnType::Text, 0, true),
        column(15, "remarks"@, ColumnType::Text, 0, true),
        column(16, "replicate"@, ColumnType::Integer, 1, false),
        column(17, "existing_obj"@, ColumnType::Integer, 1, true),
        column(18, "remote_location"@, ColumnType::Text, 0, true),
        column(19, "remote_objtype"@, ColumnType::Integer, 1, true),
        column(20, "srvid"@, ColumnType::Integer, 4, true),
        column(21, "server_type"@, ColumnType::Integer, 4, false),
        column(22, "primary_hash_limit"@, ColumnType::SmallInt, 2, false),
        column(23, "page_map_start"@, ColumnType::Integer, 4, false),
        column(24, "source"@, ColumnType::Text, 0, true),
    ]
}

/// The columns of the legacy `SYSCOLUMN` schema.
pub open spec fn syscolumn_columns() -> Seq<ColumnView> {
    seq![
        column(1, "table_id"@, ColumnType::Integer, 4, false),
        column(2, "column_id"@, ColumnType::Integer, 4, false),
        column(3, "pkey"@, ColumnType::Char, 1, false),
        column(4, "domain_id"@, ColumnType::SmallInt, 2, false),
        column(5, "nulls"@, ColumnType::Char, 1, false),
        column(6, "width"@, ColumnType::SmallInt, 2, false),
        column(7, "scale"@, ColumnType::SmallInt, 2, false),
        column(8, "unused"@, ColumnType::Integer, 4, false),
        column(9, "max_identity"@, ColumnType::Int64, 8, false),
        column(10, "column_name"@, ColumnType::Char, 128, false),
        column(11, "remarks"@, ColumnType::Text, 0, true),
        column(12, "default"@, ColumnType::Text, 0, true),
        column(13, "unused2"@, ColumnType::Text, 0, true),
        column(14, "user_type"@, ColumnType::SmallInt, 2, true),
    ]
}

/// A column view from its parts.
pub open spec fn column(
    id: u32,
    name: Seq<char>,
    column_type: ColumnType,
    width: u16,
    nullable: bool,
) -> ColumnView {
    ColumnView { id, name, column_type, width, nullable }
}

/// Return the legacy compatibility `SYSTABLE` schema.
///
/// This schema is retained solely for compatibility with legacy readers.  It
/// is **not** evidence for the physical `ISYSTAB` layout in modern SA17 or
/// QuickBooks Desktop Enterprise 24 files.  Do not apply it to an Enterprise 24
/// catalog until that physical row layout is independently validated.
pub fn legacy_systable_schema() -> (schema: RowSchema)
    ensures
        schema.column_views() == systable_columns(),
        schema.has_default_layouts(),
{
    let columns: Vec<ColumnDef> = vec![
        ColumnDef::named(1, "table_id", ColumnType::Integer, 4, false),
        ColumnDef::named(2, "file_id", ColumnType::SmallInt, 2, false),
        ColumnDef::named(3, "count", ColumnType::Int64, 8, false),
        ColumnDef::named(4, "first_page", ColumnType::Integer, 4, false),
        ColumnDef::named(5, "last_page", ColumnType::Integer, 4, false),
        ColumnDef::named(6, "primary_root", ColumnType::Integer, 4, false),
        ColumnDef::named(7, "creator", ColumnType::Integer, 4, false),
        ColumnDef::named(8, "first_ext_page", ColumnType::Integer, 4, false),
        ColumnDef::named(9, "last_ext_page", ColumnType::Integer, 4, false),
        ColumnDef::named(10, "table_page_count", ColumnType::Integer, 4, false),
        ColumnDef::named(11, "ext_page_count", ColumnType::Integer, 4, false),
        ColumnDef::named(12, "table_name", ColumnType::Char, 128, false),
        ColumnDef::named(13, "table_type", ColumnType::Text, 0, false),
        ColumnDef::named(14, "view_def", ColumnType::Text, 0, true),
        ColumnDef::named(15, "remarks", ColumnType::Text, 0, true),
        ColumnDef::named(16, "replicate", ColumnType::Integer, 1, false),
        ColumnDef::named(17, "existing_obj", ColumnType::Integer, 1, true),
        ColumnDef::named(18, "remote_location", ColumnType::Text, 0, true),
        ColumnDef::named(19, "remote_objtype", ColumnType::Integer, 1, true),
        ColumnDef::named(20, "srvid", ColumnType::Integer, 4, true),
        ColumnDef::named(21, "server_type", ColumnType::Integer, 4, false),
        ColumnDef::named(22, "primary_hash_limit", ColumnType::SmallInt, 2, false),
        ColumnDef::named(23, "page_map_start", ColumnType::Integer, 4, false),
        ColumnDef::named(24, "source", ColumnType::Text, 0, true),
    ];
    let schema = RowSchema::new(columns);
    assert(schema.column_views() =~= systable_columns());
    schema
}

/// Return the legacy compatibility `SYSCOLUMN` schema.
///
/// This schema is retained solely for compatibility with legacy readers.  It
/// is **not** evidence for the physical `ISYSTABCOL` layout in modern SA17 or
/// QuickBooks Desktop Enterprise 24 files.  Do not apply it to an Enterprise 24
/// catalog until that physical row layout is independently validated.
pub fn legacy_syscolumn_schema() -> (schema: RowSchema)
    ensures
        schema.column_views() == syscolumn_columns(),
        schema.has_default_layouts(),
{
    let columns: Vec<ColumnDef> = vec![
        ColumnDef::named(1, "table_id", ColumnType::Integer, 4, false),
        ColumnDef::named(2, "column_id", ColumnType::Integer, 4, false),
        ColumnDef::named(3, "pkey", ColumnType::Char, 1, false),
        ColumnDef::named(4, "domain_id", ColumnType::SmallInt, 2, false),
        ColumnDef::named(5, "nulls", ColumnType::Char, 1, false),
        ColumnDef::named(6, "width", ColumnType::SmallInt, 2, false),
        ColumnDef::named(7, "scale", ColumnType::SmallInt, 2, false),
        ColumnDef::named(8, "unused", ColumnType::Integer, 4, false),
        ColumnDef::named(9, "max_identity", ColumnType::Int64, 8, false),
        ColumnDef::named(10, "column_name", ColumnType::Char, 128, false),
        ColumnDef::named(11, "remarks", ColumnType::Text, 0, true),
        ColumnDef::named(12, "default", ColumnType::Text, 0, true),
        ColumnDef::named(13, "unused2", ColumnType::Text, 0, true),
        ColumnDef::named(14, "user_type", ColumnType::SmallInt, 2, true),
    ];
    let schema = RowSchema::new(columns);
    assert(schema.column_views() =~= syscolumn_columns());
    schema
}

// ---------------------------------------------------------------------------
// Laws
// ---------------------------------------------------------------------------

/// No two types share a domain identifier.
pub proof fn domain_ids_identify_their_types(a: ColumnType, b: ColumnType)
    ensures
        a.domain() == b.domain() ==> a == b,
{
}

/// Each domain identifier stands for its type in the system catalog, and no
/// other number stands for any.
pub proof fn domain_ids_are_those_of_the_catalog(column_type: ColumnType)
    ensures
        column_type.domain() == 1 <==> column_type is SmallInt,
        column_type.domain() == 2 <==> column_type is Integer,
        column_type.domain() == 3 <==> column_type is Numeric,
        column_type.domain() == 4 <==> column_type is Integer2,
        column_type.domain() == 6 <==> column_type is Date,
        column_type.domain() == 8 <==> column_type is Char,
        column_type.domain() == 9 <==> column_type is Char2,
        column_type.domain() == 10 <==> column_type is Text,
        column_type.domain() == 11 <==> column_type is Text2,
        column_type.domain() == 13 <==> column_type is DateTime,
        column_type.domain() == 19 <==> column_type is Enum,
        column_type.domain() == 20 <==> column_type is UInt64,
        column_type.domain() == 21 <==> column_type is UInt32,
        column_type.domain() == 23 <==> column_type is Int64,
        column_type.domain() == 24 <==> column_type is Boolean,
{
}

/// The types that carry their own length are those of characters and texts.
pub proof fn character_and_text_types_are_variable(column_type: ColumnType)
    ensures
        column_type.variable() <==> 8 <= column_type.domain() <= 11,
{
}

/// Nullable columns are counted one by one: as many as are left when the others
/// are taken out.
pub proof fn nullable_columns_are_counted(columns: Seq<ColumnDef>, n: int)
    requires
        0 <= n <= columns.len(),
    ensures
        nullable_among(columns, n) == columns.take(n).filter(
            |column: ColumnDef| column.nullable,
        ).len(),
    decreases n,
{
    reveal(Seq::filter);
    if n > 0 {
        nullable_columns_are_counted(columns, n - 1);
        assert(columns.take(n).drop_last() =~= columns.take(n - 1));
    }
}

/// A null bitmap has a position for each nullable column, or for each column
/// where it covers them all.
pub proof fn bitmaps_have_a_position_for_each_column(schema: RowSchema)
    ensures
        schema.null_bitmap_coverage is AllColumns ==> schema.bitmap_bits()
            == schema.columns@.len(),
        schema.null_bitmap_coverage is NullableColumns ==> schema.bitmap_bits()
            == schema.columns@.filter(|column: ColumnDef| column.nullable).len(),
{
    nullable_columns_are_counted(schema.columns@, schema.columns@.len() as int);
    assert(schema.columns@.take(schema.columns@.len() as int) =~= schema.columns@);
}

/// The default layouts are the legacy ones, and no others.
pub proof fn default_layouts_are_the_legacy_ones(schema: RowSchema)
    ensures
        schema.has_default_layouts() <==> {
            &&& schema.boolean_tail == BooleanTailLayout::Bytes
            &&& schema.numeric_layout == NumericLayout::LegacyForward
            &&& schema.enum_layout == EnumLayout::Unsupported
            &&& schema.variable_overflow_layout == VariableOverflowLayout::Unsupported
            &&& schema.variable_length_layout == VariableLengthLayout::U8
            &&& schema.null_bitmap_layout == NullBitmapLayout::MsbPresent
            &&& schema.null_bitmap_coverage == NullBitmapCoverage::NullableColumns
            &&& schema.row_prefix_layout == RowPrefixLayout::NoCarrier
        },
{
}

/// The legacy `SYSTABLE` columns by their identifiers, which count from one.
pub proof fn legacy_systable_columns(id: int)
    requires
        1 <= id <= 24,
    ensures
        systable_columns().len() == 24,
        ({
            let column = systable_columns()[id - 1];
            &&& column.id == id
            &&& column.column_type is Char <==> {
                ||| id == 12
            }
            &&& column.column_type is Int64 <==> {
                ||| id == 3
            }
            &&& column.column_type is Integer <==> {
                ||| id == 1
                ||| 4 <= id <= 11
                ||| 16 <= id <= 17
                ||| 19 <= id <= 21
                ||| id == 23
            }
            &&& column.column_type is SmallInt <==> {
                ||| id == 2
                ||| id == 22
            }
            &&& column.column_type is Text <==> {
                ||| 13 <= id <= 15
                ||| id == 18
                ||| id == 24
            }
            &&& column.width == 0 <==> {
                ||| 13 <= id <= 15
                ||| id == 18
                ||| id == 24
            }
            &&& column.width == 1 <==> {
                ||| 16 <= id <= 17
                ||| id == 19
            }
            &&& column.width == 2 <==> {
                ||| id == 2
                ||| id == 22
            }
            &&& column.width == 4 <==> {
                ||| id == 1
                ||| 4 <= id <= 11
                ||| 20 <= id <= 21
                ||| id == 23
            }
            &&& column.width == 8 <==> {
                ||| id == 3
            }
            &&& column.width == 128 <==> {
                ||| id == 12
            }
            &&& column.nullable <==> {
                ||| 14 <= id <= 15
                ||| 17 <= id <= 20
                ||| id == 24
            }
        }),
{
}

/// The names of these columns, in order.
pub proof fn legacy_systable_columns_names()
    ensures
        systable_columns().map_values(|column: ColumnView| column.name) == seq![
            "table_id"@,
            "file_id"@,
            "count"@,
            "first_page"@,
            "last_page"@,
            "primary_root"@,
            "creator"@,
            "first_ext_page"@,
            "last_ext_page"@,
            "table_page_count"@,
            "ext_page_count"@,
            "table_name"@,
            "table_type"@,
            "view_def"@,
            "remarks"@,
            "replicate"@,
            "existing_obj"@,
            "remote_location"@,
            "remote_objtype"@,
            "srvid"@,
            "server_type"@,
            "primary_hash_limit"@,
            "page_map_start"@,
            "source"@,
        ],
{
    assert(systable_columns().map_values(|column: ColumnView| column.name) =~= seq![
        "table_id"@,
        "file_id"@,
        "count"@,
        "first_page"@,
        "last_page"@,
        "primary_root"@,
        "creator"@,
        "first_ext_page"@,
        "last_ext_page"@,
        "table_page_count"@,
        "ext_page_count"@,
        "table_name"@,
        "table_type"@,
        "view_def"@,
        "remarks"@,
        "replicate"@,
        "existing_obj"@,
        "remote_location"@,
        "remote_objtype"@,
        "srvid"@,
        "server_type"@,
        "primary_hash_limit"@,
        "page_map_start"@,
        "source"@,
    ]);
}

/// The legacy `SYSCOLUMN` columns by their identifiers, which count from one.
pub proof fn legacy_syscolumn_columns(id: int)
    requires
        1 <= id <= 14,
    ensures
        syscolumn_columns().len() == 14,
        ({
            let column = syscolumn_columns()[id - 1];
            &&& column.id == id
            &&& column.column_type is Char <==> {
                ||| id == 3
                ||| id == 5
                ||| id == 10
            }
            &&& column.column_type is Int64 <==> {
                ||| id == 9
            }
            &&& column.column_type is Integer <==> {
                ||| 1 <= id <= 2
                ||| id == 8
            }
            &&& column.column_type is SmallInt <==> {
                ||| id == 4
                ||| 6 <= id <= 7
                ||| id == 14
            }
            &&& column.column_type is Text <==> {
                ||| 11 <= id <= 13
            }
            &&& column.width == 0 <==> {
                ||| 11 <= id <= 13
            }
            &&& column.width == 1 <==> {
                ||| id == 3
                ||| id == 5
            }
            &&& column.width == 2 <==> {
                ||| id == 4
                ||| 6 <= id <= 7
                ||| id == 14
            }
            &&& column.width == 4 <==> {
                ||| 1 <= id <= 2
                ||| id == 8
            }
            &&& column.width == 8 <==> {
                ||| id == 9
            }
            &&& column.width == 128 <==> {
                ||| id == 10
            }
            &&& column.nullable <==> {
                ||| 11 <= id <= 14
            }
        }),
{
}

/// The names of these columns, in order.
pub proof fn legacy_syscolumn_columns_names()
    ensures
        syscolumn_columns().map_values(|column: ColumnView| column.name) == seq![
            "table_id"@,
            "column_id"@,
            "pkey"@,
            "domain_id"@,
            "nulls"@,
            "width"@,
            "scale"@,
            "unused"@,
            "max_identity"@,
            "column_name"@,
            "remarks"@,
            "default"@,
            "unused2"@,
            "user_type"@,
        ],
{
    assert(syscolumn_columns().map_values(|column: ColumnView| column.name) =~= seq![
        "table_id"@,
        "column_id"@,
        "pkey"@,
        "domain_id"@,
        "nulls"@,
        "width"@,
        "scale"@,
        "unused"@,
        "max_identity"@,
        "column_name"@,
        "remarks"@,
        "default"@,
        "unused2"@,
        "user_type"@,
    ]);
}

} // verus!
