use opensqlany::decimal::{decode_base100_decimal, decode_short_decimal};
use opensqlany::{
    legacy_syscolumn_schema, legacy_systable_schema, BooleanTailLayout, ColumnDef, ColumnType,
    Decimal, EnumLayout, NullBitmapCoverage, NullBitmapLayout, NumericLayout, RowPrefixLayout,
    RowSchema, SaDate, VariableLengthLayout, VariableOverflowLayout,
};

#[test]
fn dates_follow_the_gregorian_calendar() {
    let cases = [
        (0, (1600, 2, 29)),
        (-1, (1600, 2, 28)),
        (1_439, (1600, 2, 29)),
        (1_440, (1600, 3, 1)),
        (-1_440, (1600, 2, 28)),
        (-1_441, (1600, 2, 27)),
        (157_783_680, (1900, 2, 28)),
        (157_785_120, (1900, 3, 1)),
        (194_516_640, (1970, 1, 1)),
        (210_379_680, (2000, 2, 29)),
        (223_443_360, (2024, 12, 31)),
        (223_444_800, (2025, 1, 1)),
        (i32::MIN, (-2483, 2, 5)),
        (i32::MAX, (5683, 3, 23)),
    ];
    for (raw_minutes, expected) in cases {
        assert_eq!(SaDate { raw_minutes }.ymd(), expected);
    }
}

#[test]
fn days_are_floored() {
    for raw_minutes in [0, 1, 1_439, 1_440, -1, -1_440, -1_441, i32::MIN, i32::MAX] {
        assert_eq!(
            SaDate { raw_minutes }.days_since_sa_epoch(),
            raw_minutes.div_euclid(1_440)
        );
    }
}

#[test]
fn consecutive_days_have_increasing_dates() {
    let mut previous = SaDate { raw_minutes: -1_440 * 800 }.ymd();
    for day in -799..800 {
        let date = SaDate { raw_minutes: 1_440 * day }.ymd();
        assert!(previous < date);
        previous = date;
    }
}

#[test]
fn short_decimals_are_biased() {
    let cases = [(0x80, "0"), (0x7f, "1"), (0x00, "128"), (0x81, "-1"), (0xff, "-127")];
    for (exponent, text) in cases {
        assert_eq!(decode_short_decimal(exponent).to_plain_string(), text);
    }
}

#[test]
fn base_100_decimals_keep_every_digit() {
    let cases: [(u8, &[u8], &str); 7] = [
        (0xc0, &[5, 14, 32], "51432"),
        (0xbf, &[5, 14, 32], "514.32"),
        (0xbe, &[5, 14, 32], "5.1432"),
        (0xbc, &[5, 14, 32], "0.00051432"),
        (0xc2, &[5, 14, 32], "514320000"),
        (0xc0, &[0, 0, 7], "7"),
        (0xbf, &[0, 0], "0.00"),
    ];
    for (exponent, digits, text) in cases {
        assert_eq!(decode_base100_decimal(exponent, digits).to_plain_string(), text);
    }
}

#[test]
fn a_shifted_zero_stays_canonical() {
    assert_eq!(
        decode_base100_decimal(0xc3, &[0]),
        Decimal {
            negative: false,
            coefficient: "0".to_string(),
            scale: 0,
        }
    );
}

#[test]
fn renderings_pad_to_one_digit_before_the_point() {
    let decimal = |negative, coefficient: &str, scale| Decimal {
        negative,
        coefficient: coefficient.to_string(),
        scale,
    };
    assert_eq!(decimal(false, "7", 1).to_plain_string(), "0.7");
    assert_eq!(decimal(true, "7", 3).to_plain_string(), "-0.007");
    assert_eq!(decimal(true, "1234", 2).to_plain_string(), "-12.34");
    assert_eq!(decimal(true, "1234", 0).to_string(), "-1234");
    assert_eq!(decimal(false, "1234", 4).to_string(), "0.1234");
    assert_eq!(decimal(false, "", 0).to_string(), "0");
    assert_eq!(decimal(true, "", 2).to_string(), "-0.00");
}

#[test]
fn domain_ids_round_trip() {
    let known = [1, 2, 3, 4, 6, 8, 9, 10, 11, 13, 19, 20, 21, 23, 24];
    for id in 0..=u16::MAX {
        match ColumnType::from_domain_id(id) {
            Some(column_type) => {
                assert!(known.contains(&id));
                assert_eq!(column_type.domain_id(), id);
            }
            None => assert!(!known.contains(&id)),
        }
    }
}

#[test]
fn every_type_has_its_domain_id() {
    let cases = [
        (ColumnType::SmallInt, 1),
        (ColumnType::Integer, 2),
        (ColumnType::Numeric, 3),
        (ColumnType::Integer2, 4),
        (ColumnType::Date, 6),
        (ColumnType::Char, 8),
        (ColumnType::Char2, 9),
        (ColumnType::Text, 10),
        (ColumnType::Text2, 11),
        (ColumnType::DateTime, 13),
        (ColumnType::Enum, 19),
        (ColumnType::UInt64, 20),
        (ColumnType::UInt32, 21),
        (ColumnType::Int64, 23),
        (ColumnType::Boolean, 24),
    ];
    for (column_type, id) in cases {
        assert_eq!(column_type.domain_id(), id);
        assert_eq!(ColumnType::from_domain_id(id), Some(column_type));
    }
}

#[test]
fn new_schemas_have_default_layouts() {
    let schema = RowSchema::new(Vec::new());
    assert_eq!(schema.boolean_tail, BooleanTailLayout::default());
    assert_eq!(schema.numeric_layout, NumericLayout::default());
    assert_eq!(schema.enum_layout, EnumLayout::default());
    assert_eq!(schema.variable_overflow_layout, VariableOverflowLayout::default());
    assert_eq!(schema.variable_length_layout, VariableLengthLayout::default());
    assert_eq!(schema.null_bitmap_layout, NullBitmapLayout::default());
    assert_eq!(schema.null_bitmap_coverage, NullBitmapCoverage::default());
    assert_eq!(schema.row_prefix_layout, RowPrefixLayout::default());
}

#[test]
fn bitmap_positions_depend_on_the_coverage() {
    let mut schema = RowSchema::new(vec![
        ColumnDef::new(1, "a", ColumnType::Integer, 4, false),
        ColumnDef::new(2, String::from("b"), ColumnType::Integer, 4, true),
        ColumnDef::new(3, "c", ColumnType::Integer, 4, true),
    ]);
    assert_eq!(schema.columns[1].name, "b");
    assert_eq!(schema.nullable_count(), 2);
    assert_eq!(schema.null_bitmap_bit_count(), 2);
    schema.null_bitmap_coverage = NullBitmapCoverage::AllColumns;
    assert_eq!(schema.null_bitmap_bit_count(), 3);
}

#[test]
fn legacy_schemas_name_their_columns_in_order() {
    let tables = legacy_systable_schema();
    assert_eq!(tables.columns.len(), 24);
    assert_eq!(tables.nullable_count(), 7);
    assert_eq!(tables.columns[0], ColumnDef::new(1, "table_id", ColumnType::Integer, 4, false));
    assert_eq!(tables.columns[11], ColumnDef::new(12, "table_name", ColumnType::Char, 128, false));
    assert_eq!(tables.columns[23], ColumnDef::new(24, "source", ColumnType::Text, 0, true));

    let columns = legacy_syscolumn_schema();
    assert_eq!(columns.columns.len(), 14);
    assert_eq!(columns.nullable_count(), 4);
    assert_eq!(columns.columns[8], ColumnDef::new(9, "max_identity", ColumnType::Int64, 8, false));
    assert_eq!(columns.columns[13], ColumnDef::new(14, "user_type", ColumnType::SmallInt, 2, true));
    for (index, column) in columns.columns.iter().enumerate() {
        assert_eq!(column.id as usize, index + 1);
    }
}
