use opensqlany::{
    decode_materialized_row_record_exact, decode_row, decode_row_exact,
    decode_row_prefix_and_boolean_tail, BooleanTailLayout, ColumnDef, ColumnType, DecodeError,
    EnumLayout, NullBitmapLayout, NumericLayout, RowPrefixLayout, RowSchema, SaDate, SaDateTime,
    Value, VariableLengthLayout, VariableOverflowLayout, ROW_FLAG_REFERENCE,
    ROW_FLAG_REFERENCE_DESTINATION, ROW_SIZE_MASK,
};

fn direct_row(payload: &[u8]) -> Vec<u8> {
    let mut out = Vec::new();
    out.extend_from_slice(&((payload.len() + 2) as u16).to_le_bytes());
    out.extend_from_slice(payload);
    out
}

fn one(column_type: ColumnType, width: u16) -> RowSchema {
    RowSchema::new(vec![ColumnDef::new(1, "value", column_type, width, false)])
}

fn single(payload: &[u8], schema: &RowSchema) -> Result<Value, DecodeError> {
    decode_row_exact(&direct_row(payload), schema).map(|mut row| row.values.remove(0))
}

#[test]
fn signed_integers_of_every_width() {
    let cases: [(u16, &[u8], i64); 8] = [
        (1, &[0x7f], 127),
        (1, &[0x80], -128),
        (2, &[0x00, 0x80], -32_768),
        (2, &[0xff, 0x7f], 32_767),
        (4, &[0, 0, 0, 0x80], -2_147_483_648),
        (4, &[0x78, 0x56, 0x34, 0x12], 0x1234_5678),
        (8, &[0, 0, 0, 0, 0, 0, 0, 0x80], i64::MIN),
        (8, &[0xff, 0xff, 0xff, 0xff, 0xff, 0xff, 0xff, 0xff], -1),
    ];
    for (width, bytes, expected) in cases {
        for column_type in [ColumnType::SmallInt, ColumnType::Integer, ColumnType::Integer2] {
            assert_eq!(single(bytes, &one(column_type, width)), Ok(Value::Integer(expected)));
        }
    }
    assert_eq!(
        single(&[1, 0, 0, 0, 0, 0, 0, 0], &one(ColumnType::Int64, 8)),
        Ok(Value::Integer(1))
    );
}

#[test]
fn unsigned_integers_of_every_width() {
    let cases: [(u16, &[u8], u64); 4] = [
        (1, &[0xff], 255),
        (2, &[0xff, 0xff], 65_535),
        (4, &[0xff, 0xff, 0xff, 0xff], 4_294_967_295),
        (8, &[0xff, 0xff, 0xff, 0xff, 0xff, 0xff, 0xff, 0xff], u64::MAX),
    ];
    for (width, bytes, expected) in cases {
        for column_type in [ColumnType::UInt32, ColumnType::UInt64] {
            assert_eq!(single(bytes, &one(column_type, width)), Ok(Value::Unsigned(expected)));
        }
        let mut schema = one(ColumnType::Enum, width);
        schema.enum_layout = EnumLayout::FixedWidthUnsigned;
        assert_eq!(single(bytes, &schema), Ok(Value::Enum(expected)));
    }
}

#[test]
fn dates_are_signed_minute_counts() {
    assert_eq!(
        single(&[0xff, 0xff, 0xff, 0xff], &one(ColumnType::Date, 0)),
        Ok(Value::Date(SaDate { raw_minutes: -1 }))
    );
    assert_eq!(
        single(&[1, 0, 0, 0, 0xfe, 0xff, 0xff, 0xff], &one(ColumnType::DateTime, 0)),
        Ok(Value::DateTime(SaDateTime {
            date: SaDate { raw_minutes: 1 },
            minutes_since_sa_epoch: 1,
            subminute_raw: -2,
        }))
    );
    assert_eq!(
        single(&[1, 0, 0, 0, 0, 0], &one(ColumnType::DateTime, 0)),
        Err(DecodeError::Truncated { column: 0, needed: 4, remaining: 2 })
    );
}

#[test]
fn unsupported_widths_are_named() {
    for column_type in [ColumnType::Integer, ColumnType::UInt32] {
        assert_eq!(
            single(&[0, 0, 0], &one(column_type, 3)),
            Err(DecodeError::InvalidIntegerWidth { column: 0, width: 3 })
        );
    }
    assert_eq!(
        single(&[0, 0, 0, 0], &one(ColumnType::Int64, 4)),
        Err(DecodeError::InvalidIntegerWidth { column: 0, width: 4 })
    );
}

#[test]
fn headers_are_checked_before_fields() {
    let schema = one(ColumnType::Integer, 4);
    assert_eq!(decode_row(&[], &schema), Err(DecodeError::MissingRowHeader));
    assert_eq!(decode_row(&[6], &schema), Err(DecodeError::MissingRowHeader));
    assert_eq!(
        decode_row(&[1, 0, 0], &schema),
        Err(DecodeError::InvalidRowSize { declared: 1, available: 3 })
    );
    assert_eq!(
        decode_row(&[6, 0, 0], &schema),
        Err(DecodeError::InvalidRowSize { declared: 6, available: 3 })
    );
    for flag in [ROW_FLAG_REFERENCE, ROW_FLAG_REFERENCE_DESTINATION] {
        let mut bytes = direct_row(&[1, 0, 0, 0]);
        let header = 6 | flag;
        bytes[..2].copy_from_slice(&header.to_le_bytes());
        assert_eq!(header & ROW_SIZE_MASK, 6);
        assert_eq!(decode_row(&bytes, &schema), Err(DecodeError::UnsupportedRowFlags(flag)));
    }
    assert_eq!(
        decode_row(&direct_row(&[1, 0, 0]), &schema),
        Err(DecodeError::Truncated { column: 0, needed: 4, remaining: 3 })
    );
}

#[test]
fn carriers_and_bitmaps_have_to_fit() {
    let mut schema = RowSchema::new(vec![ColumnDef::new(1, "a", ColumnType::Integer, 1, true)]);
    for (layout, carrier) in [
        (RowPrefixLayout::NoCarrier, 0_usize),
        (RowPrefixLayout::OneByteCarrier, 1),
        (RowPrefixLayout::TwoByteCarrier, 2),
        (RowPrefixLayout::ThreeByteCarrier, 3),
    ] {
        schema.row_prefix_layout = layout;
        let mut payload = vec![0xaa; carrier];
        assert_eq!(
            decode_row(&direct_row(&payload), &schema),
            Err(DecodeError::Truncated { column: 0, needed: carrier + 1, remaining: carrier })
        );
        payload.push(0x80);
        payload.push(9);
        assert_eq!(single(&payload, &schema), Ok(Value::Integer(9)));
    }
}

#[test]
fn every_null_bitmap_layout() {
    let mut schema = RowSchema::new(vec![
        ColumnDef::new(1, "a", ColumnType::Integer, 1, true),
        ColumnDef::new(2, "b", ColumnType::Integer, 1, true),
    ]);
    for (layout, bitmap) in [
        (NullBitmapLayout::MsbPresent, 0b0100_0000),
        (NullBitmapLayout::LsbPresent, 0b0000_0010),
        (NullBitmapLayout::MsbNull, 0b1000_0000),
        (NullBitmapLayout::LsbNull, 0b0000_0001),
    ] {
        schema.null_bitmap_layout = layout;
        assert_eq!(
            decode_row_exact(&direct_row(&[bitmap, 5]), &schema).unwrap().values,
            vec![Value::Null, Value::Integer(5)]
        );
    }
}

#[test]
fn wide_length_prefixes_start_at_the_declared_width() {
    let mut schema = RowSchema::new(vec![
        ColumnDef::new(1, "narrow", ColumnType::Char, 99, false),
        ColumnDef::new(2, "wide", ColumnType::Char, 100, false),
    ]);
    schema.variable_length_layout = VariableLengthLayout::DeclaredWidth { wide_at_or_above: 100 };
    assert_eq!(
        decode_row_exact(&direct_row(&[1, b'a', 2, 0, b'b', b'c']), &schema).unwrap().values,
        vec![Value::Bytes(b"a".to_vec()), Value::Bytes(b"bc".to_vec())]
    );
    assert_eq!(
        decode_row(&direct_row(&[1, b'a', 0xff, 0xff]), &schema),
        Err(DecodeError::OverflowValue { column: 1 })
    );
    schema.variable_overflow_layout = VariableOverflowLayout::Pointer { width: 3 };
    assert_eq!(
        decode_row(&direct_row(&[0xff, 1, 2]), &schema),
        Err(DecodeError::Truncated { column: 0, needed: 3, remaining: 2 })
    );
}

#[test]
fn raw_numeric_tokens_reject_bad_digits_too() {
    let mut schema = one(ColumnType::Numeric, 20);
    schema.numeric_layout = NumericLayout::EnterpriseMaterializedRaw;
    assert_eq!(
        single(&[2, 0xbf, 99, 100], &schema),
        Err(DecodeError::InvalidNumericDigit { column: 0, digit: 100 })
    );
    assert_eq!(
        single(&[], &schema),
        Err(DecodeError::Truncated { column: 0, needed: 1, remaining: 0 })
    );
    assert_eq!(
        single(&[1], &schema),
        Err(DecodeError::Truncated { column: 0, needed: 1, remaining: 0 })
    );
}

#[test]
fn permissive_decoding_reports_what_it_consumed() {
    let schema = one(ColumnType::Integer, 1);
    let decoded = decode_row(&direct_row(&[7, 8, 9]), &schema).unwrap();
    assert_eq!(decoded.declared_size, 5);
    assert_eq!(decoded.consumed_size, 3);
    assert_eq!(decoded.flags, 0);
    assert_eq!(decoded.values, vec![Value::Integer(7)]);
    assert_eq!(
        decode_row_exact(&direct_row(&[7, 8, 9]), &schema),
        Err(DecodeError::TrailingData { remaining: 2 })
    );
}

#[test]
fn following_bytes_do_not_change_a_row() {
    let schema = RowSchema::new(vec![
        ColumnDef::new(1, "n", ColumnType::Integer, 2, true),
        ColumnDef::new(2, "flag", ColumnType::Boolean, 0, false),
    ]);
    let row = direct_row(&[0x80, 1, 2, 1]);
    let mut longer = row.clone();
    longer.extend_from_slice(&[9, 9, 9]);
    assert_eq!(decode_row(&row, &schema), decode_row(&longer, &schema));
    assert_eq!(decode_row_exact(&row, &schema), decode_row_exact(&longer, &schema));
    for ordinal in 0..4 {
        assert_eq!(
            decode_row_prefix_and_boolean_tail(&row, &schema, ordinal),
            decode_row_prefix_and_boolean_tail(&longer, &schema, ordinal)
        );
    }
}

#[test]
fn boolean_sidecars_have_to_follow_the_fields() {
    let schema = RowSchema::new(vec![
        ColumnDef::new(1, "n", ColumnType::Integer, 1, false),
        ColumnDef::new(2, "a", ColumnType::Boolean, 0, false),
        ColumnDef::new(3, "b", ColumnType::Boolean, 0, false),
    ]);
    assert_eq!(
        decode_row(&direct_row(&[7, 1]), &schema),
        Err(DecodeError::TruncatedBooleanTail { needed: 2, remaining: 1 })
    );
    assert_eq!(
        decode_row(&direct_row(&[7, 1, 2]), &schema),
        Err(DecodeError::InvalidBooleanByte { column: 2, value: 2 })
    );
}

#[test]
fn packed_runs_longer_than_a_byte() {
    let mut columns = Vec::new();
    for id in 0..10 {
        columns.push(ColumnDef::new(id, "flag", ColumnType::Boolean, 0, false));
    }
    columns.push(ColumnDef::new(10, "n", ColumnType::Integer, 1, false));
    let mut schema = RowSchema::new(columns);
    let expected = [true, false, true, false, false, false, false, true, false, true];
    for (layout, bytes) in [
        (BooleanTailLayout::InlinePackedRunsMsbFirst, [0b1010_0001, 0b0100_0000, 5]),
        (BooleanTailLayout::InlinePackedRunsLsbFirst, [0b1000_0101, 0b0000_0010, 5]),
    ] {
        schema.boolean_tail = layout;
        let mut values: Vec<Value> = expected.iter().map(|b| Value::Boolean(*b)).collect();
        values.push(Value::Integer(5));
        assert_eq!(decode_row_exact(&direct_row(&bytes), &schema).unwrap().values, values);
        assert_eq!(
            decode_row(&direct_row(&[0]), &schema),
            Err(DecodeError::Truncated { column: 0, needed: 2, remaining: 1 })
        );
    }
}

#[test]
fn absent_booleans_split_packed_runs() {
    let mut schema = RowSchema::new(vec![
        ColumnDef::new(1, "a", ColumnType::Boolean, 0, false),
        ColumnDef::new(2, "b", ColumnType::Boolean, 0, true),
        ColumnDef::new(3, "c", ColumnType::Boolean, 0, false),
    ]);
    schema.boolean_tail = BooleanTailLayout::InlinePackedRunsMsbFirst;
    assert_eq!(
        decode_row_exact(&direct_row(&[0, 0x80, 0x00]), &schema).unwrap().values,
        vec![Value::Boolean(true), Value::Null, Value::Boolean(false)]
    );
    assert_eq!(
        decode_row_exact(&direct_row(&[0x80, 0b0110_0000]), &schema).unwrap().values,
        vec![Value::Boolean(false), Value::Boolean(true), Value::Boolean(true)]
    );
}

#[test]
fn prefix_ordinals_are_one_based() {
    let schema = one(ColumnType::Integer, 1);
    for ordinal in [0, 2, u32::MAX] {
        assert_eq!(
            decode_row_prefix_and_boolean_tail(&[], &schema, ordinal),
            Err(DecodeError::PrefixOrdinalOutOfRange { ordinal, column_count: 1 })
        );
    }
    assert_eq!(
        decode_row_prefix_and_boolean_tail(&[], &schema, 1),
        Err(DecodeError::MissingRowHeader)
    );
}

#[test]
fn prefixes_agree_with_the_whole_row() {
    let schema = RowSchema::new(vec![
        ColumnDef::new(10, "n", ColumnType::Integer, 1, false),
        ColumnDef::new(20, "a", ColumnType::Boolean, 0, false),
        ColumnDef::new(30, "text", ColumnType::Char, 0, true),
        ColumnDef::new(40, "b", ColumnType::Boolean, 0, false),
    ]);
    let row = direct_row(&[0x80, 7, 2, b'o', b'k', 1, 0]);
    let whole = decode_row_exact(&row, &schema).unwrap();
    for through in 1..=4_u32 {
        let prefix = decode_row_prefix_and_boolean_tail(&row, &schema, through).unwrap();
        assert_eq!(prefix.declared_size, whole.declared_size);
        assert_eq!(prefix.through_ordinal, through);
        for entry in prefix.prefix_values.iter().chain(&prefix.boolean_values) {
            assert_eq!(entry.value, whole.values[entry.column_index]);
            assert_eq!(entry.column_id, schema.columns[entry.column_index].id);
        }
        let booleans: Vec<usize> =
            prefix.boolean_values.iter().map(|entry| entry.column_index).collect();
        assert_eq!(booleans, vec![1, 3]);
        let others: Vec<usize> =
            prefix.prefix_values.iter().map(|entry| entry.column_index).collect();
        assert_eq!(others, if through < 3 { vec![0] } else { vec![0, 2] });
        assert_eq!(prefix.opaque_middle_len, if through < 3 { 3 } else { 0 });
    }
}

#[test]
fn earlier_prefixes_are_fronts_of_later_ones() {
    let mut schema = RowSchema::new(vec![
        ColumnDef::new(10, "n", ColumnType::Integer, 1, false),
        ColumnDef::new(20, "a", ColumnType::Boolean, 0, false),
        ColumnDef::new(30, "m", ColumnType::Integer, 1, false),
        ColumnDef::new(40, "b", ColumnType::Boolean, 0, false),
    ]);
    for (layout, payload) in [
        (BooleanTailLayout::Bytes, [7, 8, 1, 0]),
        (BooleanTailLayout::InlineBytes, [7, 1, 8, 0]),
    ] {
        schema.boolean_tail = layout;
        let row = direct_row(&payload);
        let whole = decode_row_exact(&row, &schema).unwrap();
        for later_ordinal in 1..=4 {
            let later = decode_row_prefix_and_boolean_tail(&row, &schema, later_ordinal).unwrap();
            assert_eq!(later.flags, whole.flags);
            for earlier_ordinal in 1..=later_ordinal {
                let earlier =
                    decode_row_prefix_and_boolean_tail(&row, &schema, earlier_ordinal).unwrap();
                assert!(later.prefix_values.starts_with(&earlier.prefix_values));
                assert!(later.boolean_values.starts_with(&earlier.boolean_values));
                if layout == BooleanTailLayout::Bytes {
                    assert_eq!(later.boolean_values, earlier.boolean_values);
                }
                assert!(earlier.opaque_middle_len >= later.opaque_middle_len);
            }
        }
        let all = decode_row_prefix_and_boolean_tail(&row, &schema, 4).unwrap();
        assert_eq!(all.opaque_middle_len, 0);
    }
}

#[test]
fn prefix_fields_may_not_reach_into_the_sidecar() {
    let schema = RowSchema::new(vec![
        ColumnDef::new(1, "text", ColumnType::Char, 0, false),
        ColumnDef::new(2, "flag", ColumnType::Boolean, 0, false),
    ]);
    assert_eq!(
        decode_row_prefix_and_boolean_tail(&direct_row(&[1, 1]), &schema, 1),
        Err(DecodeError::PrefixOverlapsBooleanTail { column: 0 })
    );
}

#[test]
fn materialized_carriers_wrap_direct_rows() {
    let schema = one(ColumnType::Char, 0);
    for payload in [&[2_u8, b'o', b'k'][..], &[0][..], &[3, b'x'][..], &[][..]] {
        let mut carrier = ((payload.len() + 3) as u16).to_le_bytes().to_vec();
        carrier.push(0);
        carrier.extend_from_slice(payload);
        assert_eq!(
            decode_materialized_row_record_exact(&carrier, &schema),
            decode_row_exact(&direct_row(payload), &schema)
        );
    }
    assert_eq!(
        decode_materialized_row_record_exact(&[3, 0], &schema),
        Err(DecodeError::MissingRowHeader)
    );
    assert_eq!(
        decode_materialized_row_record_exact(&[9, 0, 0], &schema),
        Err(DecodeError::MissingRowHeader)
    );
}

#[test]
fn long_carriers_exceed_the_row_size_bits() {
    let schema = RowSchema::new(Vec::new());
    let payload = vec![0_u8; 0x2000];
    let mut carrier = ((payload.len() + 3) as u16).to_le_bytes().to_vec();
    carrier.push(0);
    carrier.extend_from_slice(&payload);
    assert_eq!(
        decode_materialized_row_record_exact(&carrier, &schema),
        Err(DecodeError::UnsupportedRowFlags(0x2000))
    );
}
