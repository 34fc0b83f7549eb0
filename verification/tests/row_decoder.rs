use opensqlany::{
    decode_materialized_row_record_exact, decode_row, decode_row_exact,
    decode_row_prefix_and_boolean_tail, BooleanTailLayout, ColumnDef, ColumnType, Decimal,
    DecodeError, EnterpriseNumericToken, EnumLayout, NullBitmapCoverage, NullBitmapLayout,
    NumericLayout, PartialRowValue, RowPrefixLayout, RowSchema, Value, VariableLengthLayout,
    VariableOverflowLayout, ROW_FLAG_OVERFLOW,
};

fn row(payload: &[u8]) -> Vec<u8> {
    let mut out = Vec::with_capacity(payload.len() + 2);
    out.extend_from_slice(&u16::try_from(payload.len() + 2).unwrap().to_le_bytes());
    out.extend_from_slice(payload);
    out
}

#[test]
fn decodes_nullable_msb_first_and_boolean_tail() {
    let schema = RowSchema::new(vec![
        ColumnDef::new(1, "required", ColumnType::Integer, 4, false),
        ColumnDef::new(2, "missing", ColumnType::Char, 0, true),
        ColumnDef::new(3, "present", ColumnType::Char, 0, true),
        ColumnDef::new(4, "flag", ColumnType::Boolean, 0, false),
    ]);
    // 0b0100_0000: nullable #0 is NULL, nullable #1 is present.
    let bytes = row(&[0x40, 42, 0, 0, 0, 2, b'o', b'k', 1]);
    let decoded = decode_row(&bytes, &schema).unwrap();
    assert_eq!(
        decoded.values,
        vec![
            Value::Integer(42),
            Value::Null,
            Value::Bytes(b"ok".to_vec()),
            Value::Boolean(true)
        ]
    );
}

#[test]
fn exact_decode_uses_complete_row_not_segment_payload() {
    let schema = RowSchema::new(vec![
        ColumnDef::new(1, "target", ColumnType::Integer, 4, false),
        ColumnDef::new(2, "memo", ColumnType::Char2, 0, true),
        ColumnDef::new(3, "amount", ColumnType::Numeric, 20, true),
    ]);
    // The first byte after the u16 is the null map: both nullable
    // columns are present. This models a bounded materialized row rather
    // than a RowSegment payload (which would omit that byte).
    let mut bytes = row(&[0b1100_0000, 7, 0, 0, 0, 2, b'o', b'k', 0, 0x80]);
    let decoded = decode_row_exact(&bytes, &schema).unwrap();
    assert_eq!(decoded.declared_size, decoded.consumed_size);
    assert_eq!(
        decoded.values,
        vec![
            Value::Integer(7),
            Value::Bytes(b"ok".to_vec()),
            Value::Decimal(Decimal {
                negative: false,
                coefficient: "0".into(),
                scale: 0,
            }),
        ]
    );

    // A valid physical row boundary alone does not make trailing bytes
    // part of a complete schema decode.
    bytes.push(0);
    let len = u16::try_from(bytes.len()).unwrap();
    bytes[..2].copy_from_slice(&len.to_le_bytes());
    assert_eq!(
        decode_row_exact(&bytes, &schema),
        Err(DecodeError::TrailingData { remaining: 1 })
    );
}

#[test]
fn materialized_carrier_removes_its_flag_before_exact_row_decode() {
    let schema = RowSchema::new(vec![
        ColumnDef::new(1, "id", ColumnType::Integer, 4, false),
        ColumnDef::new(2, "note", ColumnType::Char2, 0, true),
    ]);
    // Carrier: len=11, flag=0; payload starts with a one-byte null map.
    // The reconstructed direct row is [u16 len=10][0x80][id][len][text].
    let input = [11, 0, 0, 0x80, 7, 0, 0, 0, 2, b'o', b'k'];
    assert_eq!(
        decode_materialized_row_record_exact(&input, &schema)
            .unwrap()
            .values,
        vec![Value::Integer(7), Value::Bytes(b"ok".to_vec())]
    );
    let continued = [9, 0, opensqlany::ROW_SEGMENT_CONTINUED, 0, 0, 0, 0, 0, 0];
    assert_eq!(
        decode_materialized_row_record_exact(&continued, &schema),
        Err(DecodeError::ContinuedMaterializedRowCarrier)
    );
    let flagged = [4, 0, 0x40, 0];
    assert_eq!(
        decode_materialized_row_record_exact(&flagged, &schema),
        Err(DecodeError::UnsupportedMaterializedRowCarrierFlags { flags: 0x40 })
    );
    let mut trailing = input.to_vec();
    trailing.push(0);
    assert_eq!(
        decode_materialized_row_record_exact(&trailing, &schema),
        Err(DecodeError::TrailingMaterializedRowCarrier { remaining: 1 })
    );
}

#[test]
fn partial_decode_rejects_bytes_boolean_tail_truncated_after_null_bitmap() {
    let columns = (0..9)
        .map(|index| ColumnDef::new(index, "flag", ColumnType::Boolean, 0, true))
        .collect();
    let schema = RowSchema::new(columns);
    // Two null-map bytes establish all nine values as present, but only
    // one byte remains for the two-byte Boolean tail.
    assert_eq!(
        decode_row_prefix_and_boolean_tail(&row(&[0xff, 0x80, 1]), &schema, 1),
        Err(DecodeError::TruncatedBooleanTail {
            needed: 9,
            remaining: 1,
        })
    );
}

#[test]
fn partial_decode_rejects_packed_boolean_tail_truncated_after_null_bitmap() {
    let columns = (0..9)
        .map(|index| ColumnDef::new(index, "flag", ColumnType::Boolean, 0, true))
        .collect();
    let mut schema = RowSchema::new(columns);
    schema.boolean_tail = BooleanTailLayout::PackedMsbFirst;
    assert_eq!(
        decode_row_prefix_and_boolean_tail(&row(&[0xff, 0x80, 0x80]), &schema, 1),
        Err(DecodeError::TruncatedBooleanTail {
            needed: 2,
            remaining: 1,
        })
    );
}

#[test]
fn null_bitmap_layout_and_direct_prefix_are_explicit() {
    let mut schema = RowSchema::new(vec![
        ColumnDef::new(1, "first", ColumnType::Char2, 0, true),
        ColumnDef::new(2, "second", ColumnType::Char2, 0, true),
    ]);
    schema.null_bitmap_layout = NullBitmapLayout::LsbNull;
    schema.row_prefix_layout = RowPrefixLayout::OneByteCarrier;
    // Prefix 0xa5; LSB-null map 0b01 means first is null, second present.
    assert_eq!(
        decode_row_exact(&row(&[0xa5, 0b0000_0001, 1, b'x']), &schema)
            .unwrap()
            .values,
        vec![Value::Null, Value::Bytes(b"x".to_vec())]
    );

    let mut all_columns = RowSchema::new(vec![
        ColumnDef::new(1, "required", ColumnType::Integer, 1, false),
        ColumnDef::new(2, "optional", ColumnType::Char2, 0, true),
    ]);
    all_columns.null_bitmap_coverage = NullBitmapCoverage::AllColumns;
    // Bit 0 describes the required column and is ignored; bit 1 marks
    // the optional column present.
    assert_eq!(
        decode_row_exact(&row(&[0b0100_0000, 7, 1, b'x']), &all_columns)
            .unwrap()
            .values,
        vec![Value::Integer(7), Value::Bytes(b"x".to_vec())]
    );
}

#[test]
fn enterprise_materialized_numeric_is_signed_little_endian_base_100() {
    let mut schema = RowSchema::new(vec![ColumnDef::new(
        1,
        "amount",
        ColumnType::Numeric,
        20,
        false,
    )]);
    schema.numeric_layout = NumericLayout::EnterpriseMaterializedRaw;
    let positive = decode_row_exact(&row(&[3, 0xbf, 5, 0, 10]), &schema).unwrap();
    let negative = decode_row_exact(&row(&[2, 0x3f, 41, 37]), &schema).unwrap();
    assert_eq!(
        positive.values,
        vec![Value::EnterpriseNumeric(EnterpriseNumericToken {
            marker: 0xbf,
            digits: vec![5, 0, 10],
        })]
    );
    assert_eq!(
        decode_row_exact(&row(&[0, 0x80]), &schema).unwrap().values,
        vec![Value::EnterpriseNumeric(EnterpriseNumericToken {
            marker: 0x80,
            digits: vec![],
        })]
    );
    assert_eq!(
        negative.values,
        vec![Value::EnterpriseNumeric(EnterpriseNumericToken {
            marker: 0x3f,
            digits: vec![41, 37],
        })]
    );
}

#[test]
fn decodes_packed_boolean_tail_after_variable_values() {
    let mut schema = RowSchema::new(vec![
        ColumnDef::new(1, "name", ColumnType::Text, 0, false),
        ColumnDef::new(2, "a", ColumnType::Boolean, 0, false),
        ColumnDef::new(3, "b", ColumnType::Boolean, 0, false),
    ]);
    schema.boolean_tail = BooleanTailLayout::PackedMsbFirst;
    let decoded = decode_row(&row(&[1, b'x', 0b1000_0000]), &schema).unwrap();
    assert_eq!(
        decoded.values,
        vec![
            Value::Bytes(b"x".to_vec()),
            Value::Boolean(true),
            Value::Boolean(false)
        ]
    );
}

#[test]
fn decodes_inline_boolean_at_its_physical_ordinal() {
    let mut schema = RowSchema::new(vec![
        ColumnDef::new(1, "first", ColumnType::Integer, 1, false),
        ColumnDef::new(2, "flag", ColumnType::Boolean, 0, false),
        ColumnDef::new(3, "second", ColumnType::Integer, 2, false),
    ]);
    schema.boolean_tail = BooleanTailLayout::InlineBytes;
    assert_eq!(
        decode_row_exact(&row(&[7, 1, 0x34, 0x12]), &schema)
            .unwrap()
            .values,
        vec![
            Value::Integer(7),
            Value::Boolean(true),
            Value::Integer(0x1234),
        ]
    );
}

#[test]
fn partial_decode_returns_inline_boolean_with_schema_provenance() {
    let mut schema = RowSchema::new(vec![
        ColumnDef::new(11, "first", ColumnType::Integer, 1, false),
        ColumnDef::new(22, "flag", ColumnType::Boolean, 0, false),
        ColumnDef::new(33, "second", ColumnType::Integer, 2, false),
    ]);
    schema.boolean_tail = BooleanTailLayout::InlineBytes;
    let decoded =
        decode_row_prefix_and_boolean_tail(&row(&[7, 1, 0x34, 0x12]), &schema, 2).unwrap();
    assert_eq!(
        decoded.prefix_values,
        vec![PartialRowValue {
            column_index: 0,
            column_id: 11,
            value: Value::Integer(7),
        }]
    );
    assert_eq!(
        decoded.boolean_values,
        vec![PartialRowValue {
            column_index: 1,
            column_id: 22,
            value: Value::Boolean(true),
        }]
    );
    assert_eq!(decoded.opaque_middle_len, 2);
}

#[test]
fn decodes_inline_u16_boolean_at_its_physical_ordinal() {
    let mut schema = RowSchema::new(vec![
        ColumnDef::new(11, "first", ColumnType::Integer, 1, false),
        ColumnDef::new(22, "flag", ColumnType::Boolean, 0, false),
        ColumnDef::new(33, "second", ColumnType::Integer, 1, false),
    ]);
    schema.boolean_tail = BooleanTailLayout::InlineU16Le;
    let payload = [7, 1, 0, 9];
    assert_eq!(
        decode_row_exact(&row(&payload), &schema).unwrap().values,
        vec![Value::Integer(7), Value::Boolean(true), Value::Integer(9)]
    );
    let partial = decode_row_prefix_and_boolean_tail(&row(&payload), &schema, 2).unwrap();
    assert_eq!(
        partial.boolean_values,
        vec![PartialRowValue {
            column_index: 1,
            column_id: 22,
            value: Value::Boolean(true),
        }]
    );
    assert_eq!(partial.opaque_middle_len, 1);
    assert_eq!(
        decode_row(&row(&[7, 2, 0, 9]), &schema),
        Err(DecodeError::InvalidBooleanU16 {
            column: 1,
            value: 2,
        })
    );
}

#[test]
fn decodes_separated_inline_packed_boolean_runs_in_both_bit_orders() {
    let columns = vec![
        ColumnDef::new(1, "first", ColumnType::Integer, 1, false),
        ColumnDef::new(2, "a", ColumnType::Boolean, 0, false),
        ColumnDef::new(3, "b", ColumnType::Boolean, 0, false),
        ColumnDef::new(4, "second", ColumnType::Integer, 1, false),
        ColumnDef::new(5, "c", ColumnType::Boolean, 0, false),
        ColumnDef::new(6, "d", ColumnType::Boolean, 0, false),
        ColumnDef::new(7, "e", ColumnType::Boolean, 0, false),
    ];
    for (layout, payload) in [
        (
            BooleanTailLayout::InlinePackedRunsMsbFirst,
            [7, 0b1000_0000, 9, 0b0110_0000],
        ),
        (
            BooleanTailLayout::InlinePackedRunsLsbFirst,
            [7, 0b0000_0001, 9, 0b0000_0110],
        ),
    ] {
        let mut schema = RowSchema::new(columns.clone());
        schema.boolean_tail = layout;
        assert_eq!(
            decode_row_exact(&row(&payload), &schema).unwrap().values,
            vec![
                Value::Integer(7),
                Value::Boolean(true),
                Value::Boolean(false),
                Value::Integer(9),
                Value::Boolean(false),
                Value::Boolean(true),
                Value::Boolean(true),
            ]
        );
    }
}

#[test]
fn partial_decode_returns_only_requested_inline_packed_run_booleans() {
    let mut schema = RowSchema::new(vec![
        ColumnDef::new(11, "first", ColumnType::Integer, 1, false),
        ColumnDef::new(22, "a", ColumnType::Boolean, 0, false),
        ColumnDef::new(33, "b", ColumnType::Boolean, 0, false),
        ColumnDef::new(44, "second", ColumnType::Integer, 1, false),
        ColumnDef::new(55, "c", ColumnType::Boolean, 0, false),
        ColumnDef::new(66, "d", ColumnType::Boolean, 0, false),
        ColumnDef::new(77, "e", ColumnType::Boolean, 0, false),
    ]);
    schema.boolean_tail = BooleanTailLayout::InlinePackedRunsMsbFirst;
    let decoded =
        decode_row_prefix_and_boolean_tail(&row(&[7, 0b1000_0000, 9, 0b0110_0000]), &schema, 5)
            .unwrap();
    assert_eq!(
        decoded.boolean_values,
        vec![
            PartialRowValue {
                column_index: 1,
                column_id: 22,
                value: Value::Boolean(true),
            },
            PartialRowValue {
                column_index: 2,
                column_id: 33,
                value: Value::Boolean(false),
            },
            PartialRowValue {
                column_index: 4,
                column_id: 55,
                value: Value::Boolean(false),
            },
        ]
    );
    assert_eq!(decoded.opaque_middle_len, 0);
}

#[test]
fn byte_boolean_layouts_reject_noncanonical_values() {
    let schema = RowSchema::new(vec![ColumnDef::new(
        1,
        "flag",
        ColumnType::Boolean,
        0,
        false,
    )]);
    assert_eq!(
        decode_row(&row(&[2]), &schema),
        Err(DecodeError::InvalidBooleanByte {
            column: 0,
            value: 2,
        })
    );

    let mut inline = schema;
    inline.boolean_tail = BooleanTailLayout::InlineBytes;
    assert_eq!(
        decode_row(&row(&[0xff]), &inline),
        Err(DecodeError::InvalidBooleanByte {
            column: 0,
            value: 0xff,
        })
    );
}

#[test]
fn domain_ids_distinguish_enum_from_boolean() {
    assert_eq!(ColumnType::from_domain_id(19), Some(ColumnType::Enum));
    assert_eq!(ColumnType::from_domain_id(24), Some(ColumnType::Boolean));
}

#[test]
fn enum_is_recognized_but_rejected_without_a_proven_scalar_layout() {
    let schema = RowSchema::new(vec![ColumnDef::new(1, "kind", ColumnType::Enum, 2, false)]);
    assert_eq!(
        decode_row(&row(&[1, 0]), &schema),
        Err(DecodeError::UnsupportedEnum {
            column: 0,
            width: 2,
        })
    );
}

#[test]
fn explicit_enum_layout_preserves_only_proven_fixed_width_scalar() {
    let mut schema =
        RowSchema::new(vec![ColumnDef::new(1, "kind", ColumnType::Enum, 2, false)]);
    schema.enum_layout = EnumLayout::FixedWidthUnsigned;
    assert_eq!(
        decode_row_exact(&row(&[0x34, 0x12]), &schema)
            .unwrap()
            .values,
        vec![Value::Enum(0x1234)]
    );
    schema.columns[0].width = 3;
    assert_eq!(
        decode_row_exact(&row(&[0, 0, 0]), &schema),
        Err(DecodeError::InvalidEnumWidth {
            column: 0,
            width: 3,
        })
    );
}

#[test]
fn domain_24_boolean_uses_the_boolean_tail() {
    let boolean = ColumnType::from_domain_id(24).expect("known BOOLEAN domain");
    let schema = RowSchema::new(vec![ColumnDef::new(1, "flag", boolean, 0, false)]);
    assert_eq!(
        decode_row(&row(&[1]), &schema).unwrap().values,
        vec![Value::Boolean(true)]
    );
}

#[test]
fn rejects_overflow_marker_without_consuming_255_bytes() {
    let schema = RowSchema::new(vec![ColumnDef::new(1, "text", ColumnType::Text, 0, false)]);
    assert_eq!(
        decode_row(&row(&[0xff]), &schema),
        Err(DecodeError::OverflowValue { column: 0 })
    );
}

#[test]
fn explicit_overflow_pointer_layout_preserves_pointer_without_resolving() {
    let mut schema = RowSchema::new(vec![
        ColumnDef::new(1, "text", ColumnType::Text, 0, false),
        ColumnDef::new(2, "tail", ColumnType::Integer, 2, false),
    ]);
    schema.variable_overflow_layout = VariableOverflowLayout::Pointer { width: 4 };
    assert_eq!(
        decode_row_exact(&row(&[0xff, 1, 2, 3, 4, 9, 0]), &schema)
            .unwrap()
            .values,
        vec![Value::OverflowPointer(vec![1, 2, 3, 4]), Value::Integer(9)]
    );
    schema.variable_overflow_layout = VariableOverflowLayout::Pointer { width: 0 };
    assert_eq!(
        decode_row_exact(&row(&[0xff, 9, 0]), &schema),
        Err(DecodeError::InvalidOverflowPointerWidth { column: 0 })
    );
}

#[test]
fn variable_length_layout_can_use_u16_or_declared_width() {
    let mut schema = RowSchema::new(vec![ColumnDef::new(
        1,
        "memo",
        ColumnType::Text2,
        4096,
        false,
    )]);
    schema.variable_length_layout = VariableLengthLayout::U16Le;
    assert_eq!(
        decode_row_exact(&row(&[2, 0, b'o', b'k']), &schema)
            .unwrap()
            .values,
        vec![Value::Bytes(b"ok".to_vec())]
    );
    schema.variable_length_layout = VariableLengthLayout::DeclaredWidth {
        wide_at_or_above: 255,
    };
    assert_eq!(
        decode_row_exact(&row(&[2, 0, b'o', b'k']), &schema)
            .unwrap()
            .values,
        vec![Value::Bytes(b"ok".to_vec())]
    );
    schema.variable_overflow_layout = VariableOverflowLayout::Pointer { width: 4 };
    assert_eq!(
        decode_row_exact(&row(&[0xff, 0xff, 1, 2, 3, 4]), &schema)
            .unwrap()
            .values,
        vec![Value::OverflowPointer(vec![1, 2, 3, 4])]
    );
}

#[test]
fn numeric_base_100_keeps_exact_decimal_scale() {
    let schema = RowSchema::new(vec![ColumnDef::new(
        1,
        "amount",
        ColumnType::Numeric,
        0,
        false,
    )]);
    // 05,14,32 = 51432; 0xbf moves the radix two decimal places left.
    let decoded = decode_row(&row(&[3, 0xbf, 5, 14, 32]), &schema).unwrap();
    assert_eq!(
        decoded.values,
        vec![Value::Decimal(Decimal {
            negative: false,
            coefficient: "51432".into(),
            scale: 2
        })]
    );
    match &decoded.values[0] {
        Value::Decimal(value) => assert_eq!(value.to_string(), "514.32"),
        _ => panic!("wrong type"),
    }
}

#[test]
fn short_numeric_uses_zero_bias_at_80() {
    let schema = RowSchema::new(vec![ColumnDef::new(
        1,
        "amount",
        ColumnType::Numeric,
        0,
        false,
    )]);
    let zero = decode_row(&row(&[0, 0x80]), &schema).unwrap();
    let minus_one = decode_row(&row(&[0, 0x81]), &schema).unwrap();
    assert_eq!(
        zero.values,
        vec![Value::Decimal(Decimal {
            negative: false,
            coefficient: "0".into(),
            scale: 0
        })]
    );
    assert_eq!(
        minus_one.values,
        vec![Value::Decimal(Decimal {
            negative: true,
            coefficient: "1".into(),
            scale: 0
        })]
    );
}

#[test]
fn decimal_rendering_never_emits_negative_zero_at_any_scale() {
    for scale in [0, 1, 2, 5] {
        assert_eq!(
            Decimal {
                negative: true,
                coefficient: "0".into(),
                scale,
            }
            .to_plain_string(),
            match scale {
                0 => "0".to_owned(),
                _ => format!("0.{}", "0".repeat(scale as usize)),
            }
        );
    }
}

#[test]
fn date_epoch_and_datetime_are_lossless() {
    let schema = RowSchema::new(vec![
        ColumnDef::new(1, "date", ColumnType::Date, 0, false),
        ColumnDef::new(2, "datetime", ColumnType::DateTime, 0, false),
    ]);
    let mut payload = Vec::new();
    payload.extend_from_slice(&0_i32.to_le_bytes());
    payload.extend_from_slice(&1_440_i32.to_le_bytes());
    payload.extend_from_slice(&123_i32.to_le_bytes());
    let decoded = decode_row(&row(&payload), &schema).unwrap();
    assert_eq!(
        match decoded.values[0] {
            Value::Date(date) => (date.ymd(), date.raw_minutes),
            _ => panic!("wrong type"),
        },
        ((1600, 2, 29), 0)
    );
    assert_eq!(
        match decoded.values[1] {
            Value::DateTime(dt) =>
                (dt.date.ymd(), dt.minutes_since_sa_epoch, dt.subminute_raw,),
            _ => panic!("wrong type"),
        },
        ((1600, 3, 1), 1_440, 123)
    );
}

#[test]
fn fails_closed_on_flags_truncation_and_invalid_digits() {
    let schema = RowSchema::new(vec![ColumnDef::new(1, "n", ColumnType::Numeric, 0, false)]);
    assert!(matches!(
        decode_row(&[0x02, 0x20], &schema),
        Err(DecodeError::UnsupportedRowFlags(ROW_FLAG_OVERFLOW))
    ));
    assert!(matches!(
        decode_row(&row(&[1, 0xc0]), &schema),
        Err(DecodeError::Truncated { .. })
    ));
    assert_eq!(
        decode_row(&row(&[1, 0xc0, 100]), &schema),
        Err(DecodeError::InvalidNumericDigit {
            column: 0,
            digit: 100
        })
    );
}
