use opensqlany::{
    parse_row_segment, walk_row_segment_chain, ContinuationTarget, RowSegment,
    RowSegmentChainError, RowSegmentChainLimits, RowSegmentError,
    CONTINUED_ROW_SEGMENT_HEADER_LEN, ROW_SEGMENT_CONTINUED, ROW_SEGMENT_HEADER_LEN,
};

#[test]
fn parses_non_continued_segment_and_bounds_its_payload() {
    let bytes = [5, 0, 0x80, 0xAA, 0xBB, 0x99, 0x88];
    let segment = parse_row_segment(&bytes).expect("ordinary segment");

    assert_eq!(segment.declared_len(), 5);
    assert_eq!(segment.flags(), 0x80);
    assert!(!segment.is_continued());
    assert_eq!(segment.header_len(), 3);
    assert_eq!(segment.next_target(), None);
    assert_eq!(segment.bytes(), &[5, 0, 0x80, 0xAA, 0xBB]);
    assert_eq!(segment.payload(), &[0xAA, 0xBB]);
}

#[test]
fn non_continued_segment_does_not_promote_trailing_bytes_to_a_locator() {
    let bytes = [3, 0, 0, 1, 2, 3, 4, 5, 6];
    let segment = RowSegment::parse(&bytes).expect("ordinary segment");

    assert_eq!(segment.next_target(), None);
    assert_eq!(segment.payload(), &[]);
    assert_eq!(segment.bytes(), &[3, 0, 0]);
}

#[test]
fn parses_continued_segment_as_resolver_key_and_record_id() {
    let bytes = [11, 0, ROW_SEGMENT_CONTINUED, 1, 2, 3, 4, 5, 6, 0xA1, 0xA2];
    let segment = parse_row_segment(&bytes).expect("continued segment");

    assert!(segment.is_continued());
    assert_eq!(segment.header_len(), 9);
    let target = segment.next_target().expect("continued segment target");
    assert_eq!(target.resolver_key(), 0x0403_0201);
    assert_eq!(target.record_id(), 0x0605);
    assert_eq!(segment.payload(), &[0xA1, 0xA2]);
    assert_eq!(
        target.to_string(),
        "resolver_key=0x04030201, record_id=0x0605"
    );
}

#[test]
fn continuation_target_uses_the_disk_writer_byte_order() {
    // dbserv17's continuation writer emits the low-to-high bytes of the
    // resolver key at +3..+6 and record ID at +7..+8. Use
    // non-palindromic values so this cannot pass under a byte-swapped
    // decoder.
    let bytes = [
        9,
        0,
        ROW_SEGMENT_CONTINUED,
        0x78,
        0x56,
        0x34,
        0x12,
        0xCD,
        0xAB,
    ];
    let target = parse_row_segment(&bytes)
        .expect("continued segment")
        .next_target()
        .expect("continuation target");

    assert_eq!(target, ContinuationTarget::new(0x1234_5678, 0xABCD));
}

#[test]
fn accepts_zero_continuation_target_without_inventing_an_unproven_sentinel() {
    let bytes = [9, 0, ROW_SEGMENT_CONTINUED, 0, 0, 0, 0, 0, 0];
    let segment = parse_row_segment(&bytes).expect("zero remains representable");

    assert_eq!(segment.next_target(), Some(ContinuationTarget::new(0, 0)));
}

#[test]
fn preserves_unknown_flag_bits_while_using_only_the_proven_bit() {
    let bytes = [9, 0, 0xF4, 1, 0, 0, 0, 0, 0];
    let segment = parse_row_segment(&bytes).expect("continued segment");

    assert_eq!(segment.flags(), 0xF4);
    assert!(segment.is_continued());
    assert_eq!(segment.next_target(), Some(ContinuationTarget::new(1, 0)));
}

#[test]
fn rejects_each_prefix_shorter_than_the_fixed_header() {
    for available in 0..ROW_SEGMENT_HEADER_LEN {
        let err = parse_row_segment(&[0; ROW_SEGMENT_HEADER_LEN][..available])
            .expect_err("fixed header is incomplete");
        assert_eq!(err, RowSegmentError::MissingHeader { available });
    }
}

#[test]
fn rejects_normal_length_shorter_than_header() {
    let err = parse_row_segment(&[2, 0, 0]).expect_err("two bytes cannot hold a header");
    assert_eq!(
        err,
        RowSegmentError::InvalidLength {
            declared: 2,
            header_len: 3,
            available: 3,
        }
    );
}

#[test]
fn rejects_continued_length_shorter_than_continued_header() {
    let err = parse_row_segment(&[8, 0, ROW_SEGMENT_CONTINUED, 0, 0, 0, 0, 0])
        .expect_err("continued header needs nine bytes");
    assert_eq!(
        err,
        RowSegmentError::InvalidLength {
            declared: 8,
            header_len: 9,
            available: 8,
        }
    );
}

#[test]
fn rejects_declared_length_outside_containing_area() {
    let err = parse_row_segment(&[10, 0, 0, 0, 0]).expect_err("truncated segment");
    assert_eq!(
        err,
        RowSegmentError::InvalidLength {
            declared: 10,
            header_len: 3,
            available: 5,
        }
    );
}

#[test]
fn continuation_target_preserves_each_raw_component() {
    let target = ContinuationTarget::new(0xFEDC_BA98, 0x7654);
    assert_eq!(target.resolver_key(), 0xFEDC_BA98);
    assert_eq!(target.record_id(), 0x7654);
}

fn continued(target: ContinuationTarget, payload: &[u8]) -> Vec<u8> {
    let len = CONTINUED_ROW_SEGMENT_HEADER_LEN + payload.len();
    let mut bytes = Vec::with_capacity(len);
    bytes.extend_from_slice(&(len as u16).to_le_bytes());
    bytes.push(ROW_SEGMENT_CONTINUED);
    bytes.extend_from_slice(&target.resolver_key().to_le_bytes());
    bytes.extend_from_slice(&target.record_id().to_le_bytes());
    bytes.extend_from_slice(payload);
    bytes
}

fn final_segment(payload: &[u8]) -> Vec<u8> {
    let len = ROW_SEGMENT_HEADER_LEN + payload.len();
    let mut bytes = Vec::with_capacity(len);
    bytes.extend_from_slice(&(len as u16).to_le_bytes());
    bytes.push(0);
    bytes.extend_from_slice(payload);
    bytes
}

#[test]
fn walks_a_bounded_chain_through_the_callers_explicit_resolver() {
    let initial_target = ContinuationTarget::new(10, 1);
    let next_target = ContinuationTarget::new(11, 1);
    let initial = continued(next_target, &[0xAA]);
    let terminal = final_segment(&[0xBB, 0xCC]);
    let mut requested = Vec::new();

    let chain = walk_row_segment_chain(
        initial_target,
        &initial,
        RowSegmentChainLimits::new(2, 3),
        |target| -> Result<Vec<u8>, &'static str> {
            requested.push(target);
            assert_eq!(target, next_target);
            Ok(terminal.clone())
        },
    )
    .expect("bounded chain");

    assert_eq!(requested, [next_target]);
    assert_eq!(chain.len(), 2);
    assert!(!chain.is_empty());
    assert_eq!(chain.total_payload_bytes(), 3);
    assert_eq!(chain.segments()[0].target(), initial_target);
    assert_eq!(chain.segments()[0].flags(), ROW_SEGMENT_CONTINUED);
    assert_eq!(chain.segments()[0].declared_len(), 10);
    assert_eq!(chain.segments()[0].payload(), &[0xAA]);
    assert_eq!(chain.segments()[1].target(), next_target);
    assert_eq!(chain.segments()[1].payload(), &[0xBB, 0xCC]);
}

#[test]
fn rejects_a_cycle_back_to_the_explicit_initial_target_without_resolving_it() {
    let initial_target = ContinuationTarget::new(1, 7);
    let initial = continued(initial_target, &[]);
    let mut resolver_called = false;

    let err = walk_row_segment_chain(
        initial_target,
        &initial,
        RowSegmentChainLimits::new(2, 0),
        |_| -> Result<Vec<u8>, &'static str> {
            resolver_called = true;
            Ok(final_segment(&[]))
        },
    )
    .expect_err("cycle");

    assert!(!resolver_called);
    assert_eq!(
        err,
        RowSegmentChainError::Cycle {
            target: initial_target
        }
    );
}

#[test]
fn enforces_segment_limit_before_calling_the_next_resolver() {
    let initial_target = ContinuationTarget::new(1, 1);
    let next_target = ContinuationTarget::new(2, 1);
    let initial = continued(next_target, &[]);
    let mut resolver_called = false;

    let err = walk_row_segment_chain(
        initial_target,
        &initial,
        RowSegmentChainLimits::new(1, 0),
        |_| -> Result<Vec<u8>, &'static str> {
            resolver_called = true;
            Ok(final_segment(&[]))
        },
    )
    .expect_err("segment cap");

    assert!(!resolver_called);
    assert_eq!(
        err,
        RowSegmentChainError::SegmentLimit {
            max_segments: 1,
            attempted_segments: 2,
        }
    );
}

#[test]
fn enforces_aggregate_payload_limit_before_resolving_a_continuation() {
    let initial_target = ContinuationTarget::new(1, 1);
    let next_target = ContinuationTarget::new(2, 1);
    let initial = continued(next_target, &[1, 2]);
    let mut resolver_called = false;

    let err = walk_row_segment_chain(
        initial_target,
        &initial,
        RowSegmentChainLimits::new(2, 1),
        |_| -> Result<Vec<u8>, &'static str> {
            resolver_called = true;
            Ok(final_segment(&[]))
        },
    )
    .expect_err("payload cap");

    assert!(!resolver_called);
    assert_eq!(
        err,
        RowSegmentChainError::PayloadLimit {
            max_total_payload_bytes: 1,
            attempted_total_payload_bytes: 2,
        }
    );
}

#[test]
fn propagates_resolver_error_without_a_fallback_resolution() {
    let initial_target = ContinuationTarget::new(1, 1);
    let next_target = ContinuationTarget::new(2, 1);
    let initial = continued(next_target, &[]);

    let err = walk_row_segment_chain(
        initial_target,
        &initial,
        RowSegmentChainLimits::new(2, 0),
        |_| -> Result<Vec<u8>, &'static str> { Err("outside caller context") },
    )
    .expect_err("resolver error");

    assert_eq!(
        err,
        RowSegmentChainError::Resolver {
            target: next_target,
            source: "outside caller context",
        }
    );
}

#[test]
fn reports_malformed_resolved_segment_at_its_exact_target_and_position() {
    let initial_target = ContinuationTarget::new(1, 1);
    let next_target = ContinuationTarget::new(2, 1);
    let initial = continued(next_target, &[]);

    let err = walk_row_segment_chain(
        initial_target,
        &initial,
        RowSegmentChainLimits::new(2, 0),
        |_| -> Result<Vec<u8>, &'static str> { Ok(vec![2, 0, 0]) },
    )
    .expect_err("bad resolved segment");

    assert_eq!(
        err,
        RowSegmentChainError::InvalidSegment {
            target: next_target,
            segment_index: 1,
            source: RowSegmentError::InvalidLength {
                declared: 2,
                header_len: 3,
                available: 3,
            },
        }
    );
}

#[test]
fn reports_malformed_initial_segment_at_the_callers_explicit_target() {
    let initial_target = ContinuationTarget::new(0xAA, 3);

    let err = walk_row_segment_chain(
        initial_target,
        &[2, 0, 0],
        RowSegmentChainLimits::new(1, 0),
        |_| -> Result<Vec<u8>, &'static str> { unreachable!("no continuation") },
    )
    .expect_err("bad initial segment");

    assert_eq!(
        err,
        RowSegmentChainError::InvalidSegment {
            target: initial_target,
            segment_index: 0,
            source: RowSegmentError::InvalidLength {
                declared: 2,
                header_len: 3,
                available: 3,
            },
        }
    );
}

#[test]
fn rejects_trailing_bytes_for_initial_or_resolved_chain_segments() {
    let initial_target = ContinuationTarget::new(1, 1);
    let next_target = ContinuationTarget::new(2, 1);

    let err = walk_row_segment_chain(
        initial_target,
        &[3, 0, 0, 0xAA],
        RowSegmentChainLimits::new(1, 0),
        |_| -> Result<Vec<u8>, &'static str> { unreachable!("no continuation") },
    )
    .expect_err("initial trailing bytes");
    assert_eq!(
        err,
        RowSegmentChainError::TrailingBytes {
            target: initial_target,
            segment_index: 0,
            declared_len: 3,
            available: 4,
        }
    );

    let initial = continued(next_target, &[]);
    let err = walk_row_segment_chain(
        initial_target,
        &initial,
        RowSegmentChainLimits::new(2, 0),
        |_| -> Result<Vec<u8>, &'static str> { Ok(vec![3, 0, 0, 0xAA]) },
    )
    .expect_err("resolved trailing bytes");
    assert_eq!(
        err,
        RowSegmentChainError::TrailingBytes {
            target: next_target,
            segment_index: 1,
            declared_len: 3,
            available: 4,
        }
    );
}

#[test]
fn zero_segment_limit_fails_before_parsing_or_calling_the_resolver() {
    let initial_target = ContinuationTarget::new(1, 1);
    let err = walk_row_segment_chain(
        initial_target,
        &[3, 0, 0],
        RowSegmentChainLimits::new(0, 0),
        |_| -> Result<Vec<u8>, &'static str> { unreachable!("no continuation") },
    )
    .expect_err("zero segment cap");

    assert_eq!(
        err,
        RowSegmentChainError::SegmentLimit {
            max_segments: 0,
            attempted_segments: 1,
        }
    );
}
