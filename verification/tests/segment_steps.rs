use opensqlany::{
    append_row_segment, parse_row_segment, walk_row_segment_chain, ContinuationTarget,
    RowSegmentChain, RowSegmentChainError, RowSegmentChainLimits, ROW_SEGMENT_CONTINUED,
};

fn target(n: u32) -> ContinuationTarget {
    ContinuationTarget::new(n, 7)
}

fn linked(next: u32, payload: &[u8]) -> Vec<u8> {
    let mut bytes = ((9 + payload.len()) as u16).to_le_bytes().to_vec();
    bytes.push(ROW_SEGMENT_CONTINUED);
    bytes.extend_from_slice(&next.to_le_bytes());
    bytes.extend_from_slice(&7_u16.to_le_bytes());
    bytes.extend_from_slice(payload);
    bytes
}

#[test]
fn a_written_segment_is_read_back() {
    for flags in 0..=u8::MAX {
        let continued = flags & ROW_SEGMENT_CONTINUED != 0;
        let mut bytes = vec![0, 0, flags];
        if continued {
            bytes.extend_from_slice(&[1, 2, 3, 4, 5, 6]);
        }
        bytes.extend_from_slice(&[0xaa, 0xbb]);
        let len = bytes.len();
        bytes[0] = len as u8;
        let alone = parse_row_segment(&bytes).unwrap();
        assert_eq!(alone.flags(), flags);
        assert_eq!(alone.payload(), &[0xaa, 0xbb]);
        assert_eq!(
            alone.next_target(),
            if continued { Some(ContinuationTarget::new(0x0403_0201, 0x0605)) } else { None }
        );
        let mut longer = bytes.clone();
        longer.extend_from_slice(&[9; 20]);
        assert_eq!(parse_row_segment(&longer), Ok(alone));
        assert_eq!(parse_row_segment(alone.bytes()), Ok(alone));
    }
}

#[test]
fn steps_make_up_a_walk() {
    let limits = RowSegmentChainLimits::new(3, 6);
    let first = linked(2, &[1]);
    let second = linked(3, &[2, 3]);
    let last = vec![6, 0, 0, 4, 5, 6];

    let (chain, next) =
        append_row_segment::<()>(RowSegmentChain::empty(), target(1), &first, limits).unwrap();
    assert_eq!(next, Some(target(2)));
    let (chain, next) = append_row_segment::<()>(chain, target(2), &second, limits).unwrap();
    assert_eq!(next, Some(target(3)));
    let (chain, next) = append_row_segment::<()>(chain, target(3), &last, limits).unwrap();
    assert_eq!(next, None);
    assert_eq!(chain.total_payload_bytes(), 6);

    let walked = walk_row_segment_chain(target(1), &first, limits, |wanted| {
        match wanted.resolver_key() {
            2 => Ok(second.clone()),
            3 => Ok(last.clone()),
            _ => Err("unexpected"),
        }
    });
    let targets: Vec<u32> =
        chain.segments().iter().map(|segment| segment.target().resolver_key()).collect();
    assert_eq!(targets, vec![1, 2, 3]);
    let continued: Vec<bool> = chain
        .segments()
        .iter()
        .map(|segment| segment.flags() & ROW_SEGMENT_CONTINUED != 0)
        .collect();
    assert_eq!(continued, vec![true, true, false]);
    assert_eq!(walked, Ok(chain));
}

#[test]
fn an_empty_chain_has_no_segments() {
    let chain = RowSegmentChain::empty();
    assert!(chain.is_empty());
    assert_eq!(chain.len(), 0);
    assert_eq!(chain.total_payload_bytes(), 0);
    assert!(chain.segments().is_empty());
}

#[test]
fn a_later_cycle_is_found() {
    let limits = RowSegmentChainLimits::new(9, 9);
    let result = walk_row_segment_chain(target(1), &linked(2, &[]), limits, |wanted| {
        Ok::<Vec<u8>, ()>(linked(if wanted.resolver_key() == 2 { 3 } else { 2 }, &[]))
    });
    assert_eq!(result, Err(RowSegmentChainError::Cycle { target: target(2) }));
}

#[test]
fn a_chain_may_use_up_its_limits() {
    let limits = RowSegmentChainLimits::new(2, 3);
    let result = walk_row_segment_chain(target(1), &linked(2, &[1]), limits, |_| {
        Ok::<Vec<u8>, ()>(vec![5, 0, 0, 2, 3])
    });
    assert_eq!(result.unwrap().total_payload_bytes(), 3);
    let result = walk_row_segment_chain(target(1), &linked(2, &[1]), limits, |_| {
        Ok::<Vec<u8>, ()>(vec![6, 0, 0, 2, 3, 4])
    });
    assert_eq!(
        result,
        Err(RowSegmentChainError::PayloadLimit {
            max_total_payload_bytes: 3,
            attempted_total_payload_bytes: 4,
        })
    );
}
