//! Physical row segments and chains of them, told by their bytes.
//!
//! [`crate::row_segment`] says what its parser and its walker compute. Here a
//! segment is told by the bytes that spell it, and a chain by the segments that
//! arrive for it, so that both can be held against the format.
use vstd::prelude::*;

use crate::row_segment;
use crate::row_segment::{
    ChainSegmentView, ContinuationTarget, RowSegmentChainError, RowSegmentChainLimits,
    RowSegmentError,
};

verus! {

// ---------------------------------------------------------------------------
// Segments
// ---------------------------------------------------------------------------

/// Whether bytes spell a target: four bytes of key and two of record, the
/// lowest byte first in both.
pub open spec fn spells_target(piece: Seq<u8>, target: ContinuationTarget) -> bool {
    &&& piece.len() == 6
    &&& target.resolver_key == piece[0] + 0x100 * piece[1] + 0x1_0000 * piece[2] + 0x100_0000
        * piece[3]
    &&& target.record_id == piece[4] + 0x100 * piece[5]
}

/// Whether bytes are one physical segment with these flags, this target of the
/// next segment and this payload.
pub open spec fn spells_segment(
    segment: Seq<u8>,
    flags: u8,
    next: Option<ContinuationTarget>,
    payload: Seq<u8>,
) -> bool {
    &&& segment.len() >= 3
    &&& segment[0] + 0x100 * segment[1] == segment.len()
    &&& segment[2] == flags
    &&& match next {
        None => flags & 0x04 == 0 && segment.skip(3) == payload,
        Some(target) => {
            &&& flags & 0x04 != 0
            &&& segment.len() >= 9
            &&& spells_target(segment.subrange(3, 9), target)
            &&& segment.skip(9) == payload
        },
    }
}

/// A segment is parsed from whatever begins with it, to its flags, its target
/// and its payload.
pub proof fn spelled_segments_are_parsed(
    segment: Seq<u8>,
    following: Seq<u8>,
    flags: u8,
    next: Option<ContinuationTarget>,
    payload: Seq<u8>,
)
    requires
        spells_segment(segment, flags, next, payload),
    ensures
        row_segment::first_segment(segment + following) == Ok::<Seq<u8>, RowSegmentError>(segment),
        row_segment::target_of(segment) == next,
        row_segment::payload_of(segment) == payload,
        row_segment::continued(segment[2]) <==> next is Some,
        row_segment::header_len_of(segment[2]) == segment.len() - payload.len(),
{
    let whole = segment + following;
    row_segment::continuation_is_one_flag_bit(flags);
    assert(whole[0] == segment[0] && whole[1] == segment[1] && whole[2] == segment[2]);
    assert(whole.take(segment.len() as int) =~= segment);
    if let Some(target) = next {
        let piece = segment.subrange(3, 9);
        assert(piece[0] == segment[3] && piece[1] == segment[4] && piece[2] == segment[5]
            && piece[3] == segment[6] && piece[4] == segment[7] && piece[5] == segment[8]);
        assert(row_segment::target_of(segment) == Some(target));
    }
}

/// What is parsed is the segment that the input begins with.
pub proof fn parsed_segments_are_spelled(input: Seq<u8>, segment: Seq<u8>)
    requires
        row_segment::first_segment(input) == Ok::<Seq<u8>, RowSegmentError>(segment),
    ensures
        segment.is_prefix_of(input),
        spells_segment(
            segment,
            segment[2],
            row_segment::target_of(segment),
            row_segment::payload_of(segment),
        ),
{
    row_segment::continuation_is_one_flag_bit(segment[2]);
    if row_segment::continued(segment[2]) {
        let piece = segment.subrange(3, 9);
        assert(piece[0] == segment[3] && piece[1] == segment[4] && piece[2] == segment[5]
            && piece[3] == segment[6] && piece[4] == segment[7] && piece[5] == segment[8]);
        assert(spells_target(piece, row_segment::target_of(segment)->Some_0));
    }
}

/// Input is refused exactly where it is shorter than a header, or declares a
/// length that is shorter than its header or longer than the input; the error
/// tells these lengths.
pub proof fn input_is_refused_for_its_lengths(input: Seq<u8>)
    requires
        input.len() <= usize::MAX,
    ensures
        ({
            let parsed = row_segment::first_segment(input);
            let declared = input[0] + 0x100 * input[1];
            let header_len: int = if input[2] & 0x04 != 0 {
                9
            } else {
                3
            };
            &&& input.len() < 3 <==> parsed is Err && parsed->Err_0 is MissingHeader
            &&& input.len() < 3 ==> parsed == Err::<Seq<u8>, RowSegmentError>(
                RowSegmentError::MissingHeader { available: input.len() as usize },
            )
            &&& input.len() >= 3 && !(header_len <= declared <= input.len()) <==> parsed is Err
                && parsed->Err_0 is InvalidLength
            &&& input.len() >= 3 && !(header_len <= declared <= input.len()) ==> parsed == Err::<
                Seq<u8>,
                RowSegmentError,
            >(
                RowSegmentError::InvalidLength {
                    declared: declared as usize,
                    header_len: header_len as usize,
                    available: input.len() as usize,
                },
            )
        }),
{
    if input.len() >= 3 {
        row_segment::continuation_is_one_flag_bit(input[2]);
    }
}

// ---------------------------------------------------------------------------
// Steps of a chain
// ---------------------------------------------------------------------------

/// Combined payload length of chain segments.
pub open spec fn payload_bytes(segments: Seq<ChainSegmentView>) -> int {
    segments.fold_left(0, |sum: int, segment: ChainSegmentView| sum + segment.payload.len())
}

/// The combined payload length is the sum over the segments.
pub proof fn payload_lengths_are_summed(segments: Seq<ChainSegmentView>)
    ensures
        row_segment::total_payload(segments) == payload_bytes(segments),
    decreases segments.len(),
{
    reveal(Seq::fold_left);
    if segments.len() > 0 {
        payload_lengths_are_summed(segments.drop_last());
    }
}

/// A count that a machine integer can hold, or the largest that it can.
pub open spec fn reported(count: int) -> usize {
    if count <= usize::MAX {
        count as usize
    } else {
        usize::MAX
    }
}

/// Whether a segment was requested under this key together with this record.
pub open spec fn was_requested(
    segments: Seq<ChainSegmentView>,
    resolver_key: u32,
    record_id: u16,
) -> bool {
    exists|i: int|
        {
            &&& 0 <= i < segments.len()
            &&& (#[trigger] segments[i]).target.resolver_key == resolver_key
            &&& segments[i].target.record_id == record_id
        }
}

/// Where a chain stands after one exact segment has arrived for `target`.
///
/// The segment is appended as it is spelled. It is refused if the payloads
/// together are over their limit; otherwise a segment without a next target
/// ends the chain. A next target is a cycle exactly where some segment so far,
/// the new one included, was requested under the same key and the same record;
/// a target that differs from each of them in the key or in the record is asked
/// for, if the number of segments allows it.
pub proof fn arrived_segments_are_appended<E>(
    segments: Seq<ChainSegmentView>,
    target: ContinuationTarget,
    input: Seq<u8>,
    limits: RowSegmentChainLimits,
    flags: u8,
    next: Option<ContinuationTarget>,
    payload: Seq<u8>,
)
    requires
        segments.len() < limits.max_segments,
        spells_segment(input, flags, next, payload),
    ensures
        ({
            let longer = segments.push(
                ChainSegmentView { target, flags, declared_len: input.len() as int, payload },
            );
            let bytes = payload_bytes(segments) + payload.len();
            let step = row_segment::chain_step::<E>(segments, target, input, limits);
            let refused = |error: RowSegmentChainError<E>|
                step == Err::<
                    (Seq<ChainSegmentView>, Option<ContinuationTarget>),
                    RowSegmentChainError<E>,
                >(error);
            let reached = |pending: Option<ContinuationTarget>|
                step == Ok::<
                    (Seq<ChainSegmentView>, Option<ContinuationTarget>),
                    RowSegmentChainError<E>,
                >((longer, pending));
            if bytes > limits.max_total_payload_bytes {
                refused(
                    RowSegmentChainError::PayloadLimit {
                        max_total_payload_bytes: limits.max_total_payload_bytes,
                        attempted_total_payload_bytes: reported(bytes),
                    },
                )
            } else {
                match next {
                    None => reached(None),
                    Some(named) => {
                        let repeated = (named.resolver_key == target.resolver_key
                            && named.record_id == target.record_id) || was_requested(
                            segments,
                            named.resolver_key,
                            named.record_id,
                        );
                        &&& repeated ==> refused(RowSegmentChainError::Cycle { target: named })
                        &&& !repeated && segments.len() + 1 == limits.max_segments ==> refused(
                            RowSegmentChainError::SegmentLimit {
                                max_segments: limits.max_segments,
                                attempted_segments: reported(segments.len() + 2int),
                            },
                        )
                        &&& !repeated && segments.len() + 1 < limits.max_segments ==> reached(
                            Some(named),
                        )
                    },
                }
            }
        }),
{
    let added = ChainSegmentView { target, flags, declared_len: input.len() as int, payload };
    let longer = segments.push(added);
    reveal(row_segment::chain_step);
    spelled_segments_are_parsed(input, Seq::empty(), flags, next, payload);
    assert(input + Seq::<u8>::empty() =~= input);
    assert(row_segment::chain_segment(target, input) =~= added);
    assert(longer.drop_last() =~= segments);
    payload_lengths_are_summed(segments);
    assert(row_segment::total_payload(longer) == payload_bytes(segments) + payload.len());
    if let Some(named) = next {
        if row_segment::visits(longer, named) {
            let i = choose|i: int|
                0 <= i < longer.len() && #[trigger] longer[i].target == named;
            if i < segments.len() {
                assert(segments[i] == longer[i]);
            }
        }
        if was_requested(segments, named.resolver_key, named.record_id) {
            let i = choose|i: int|
                {
                    &&& 0 <= i < segments.len()
                    &&& (#[trigger] segments[i]).target.resolver_key == named.resolver_key
                    &&& segments[i].target.record_id == named.record_id
                };
            assert(longer[i].target == named);
        }
        if named.resolver_key == target.resolver_key && named.record_id == target.record_id {
            assert(longer[segments.len() as int].target == named);
        }
    }
}

/// A cycle is reported only where some segment was requested under the very
/// target that is reported, both its key and its record: a segment so far, or
/// the one that names it.
pub proof fn reported_cycles_repeat_a_target<E>(
    segments: Seq<ChainSegmentView>,
    target: ContinuationTarget,
    input: Seq<u8>,
    limits: RowSegmentChainLimits,
    named: ContinuationTarget,
)
    requires
        row_segment::chain_step::<E>(segments, target, input, limits) == Err::<
            (Seq<ChainSegmentView>, Option<ContinuationTarget>),
            RowSegmentChainError<E>,
        >(RowSegmentChainError::Cycle { target: named }),
    ensures
        ({
            ||| named.resolver_key == target.resolver_key && named.record_id == target.record_id
            ||| was_requested(segments, named.resolver_key, named.record_id)
        }),
{
    reveal(row_segment::chain_step);
    let segment = row_segment::first_segment(input)->Ok_0;
    let longer = segments.push(row_segment::chain_segment(target, segment));
    let i = choose|i: int| 0 <= i < longer.len() && #[trigger] longer[i].target == named;
    if i < segments.len() {
        assert(segments[i] == longer[i]);
    }
}

/// A step without room for another segment, on input that is no segment, or on
/// input with bytes after its segment is refused as such.
pub proof fn other_arrivals_are_refused<E>(
    segments: Seq<ChainSegmentView>,
    target: ContinuationTarget,
    segment: Seq<u8>,
    following: Seq<u8>,
    limits: RowSegmentChainLimits,
)
    ensures
        ({
            let input = segment + following;
            let refused = |error: RowSegmentChainError<E>|
                row_segment::chain_step::<E>(segments, target, input, limits) == Err::<
                    (Seq<ChainSegmentView>, Option<ContinuationTarget>),
                    RowSegmentChainError<E>,
                >(error);
            if segments.len() >= limits.max_segments {
                refused(
                    RowSegmentChainError::SegmentLimit {
                        max_segments: limits.max_segments,
                        attempted_segments: reported(segments.len() + 1int),
                    },
                )
            } else {
                match row_segment::first_segment(input) {
                    Err(source) => refused(
                        RowSegmentChainError::InvalidSegment {
                            target,
                            segment_index: segments.len() as usize,
                            source,
                        },
                    ),
                    Ok(first) => first == segment && following.len() > 0 ==> refused(
                        RowSegmentChainError::TrailingBytes {
                            target,
                            segment_index: segments.len() as usize,
                            declared_len: segment.len() as usize,
                            available: (segment.len() + following.len()) as usize,
                        },
                    ),
                }
            }
        }),
{
    reveal(row_segment::chain_step);
}

// ---------------------------------------------------------------------------
// Walks
// ---------------------------------------------------------------------------

/// Whether the first `n` of `parts` spell the first `n` segments of a chain:
/// each names the target of the one after it, and no two were requested under
/// the same key and record.
pub open spec fn spells_chain(
    parts: Seq<Seq<u8>>,
    chain: Seq<ChainSegmentView>,
    names: Seq<Option<ContinuationTarget>>,
    n: int,
) -> bool {
    &&& 1 <= n <= chain.len()
    &&& parts.len() >= n
    &&& names.len() >= n
    &&& forall|i: int|
        0 <= i < n ==> {
            &&& spells_segment(#[trigger] parts[i], chain[i].flags, names[i], chain[i].payload)
            &&& chain[i].declared_len == parts[i].len()
        }
    &&& forall|i: int|
        0 <= i < n - 1 ==> {
            &&& (#[trigger] names[i]) is Some
            &&& names[i]->Some_0.resolver_key == chain[i + 1].target.resolver_key
            &&& names[i]->Some_0.record_id == chain[i + 1].target.record_id
        }
    &&& forall|i: int, j: int|
        0 <= i < j < n ==> {
            ||| (#[trigger] chain[i]).target.resolver_key != (
            #[trigger] chain[j]).target.resolver_key
            ||| chain[i].target.record_id != chain[j].target.record_id
        }
}

proof fn lemma_payload_grows(chain: Seq<ChainSegmentView>, n: int)
    requires
        0 <= n < chain.len(),
    ensures
        payload_bytes(chain.take(n + 1)) == payload_bytes(chain.take(n)) + chain[n].payload.len(),
        chain.take(n + 1) == chain.take(n).push(chain[n]),
{
    reveal(Seq::fold_left);
    assert(chain.take(n + 1).drop_last() =~= chain.take(n));
    assert(chain.take(n + 1) =~= chain.take(n).push(chain[n]));
}

proof fn lemma_payload_of_prefix(chain: Seq<ChainSegmentView>, m: int, n: int)
    requires
        0 <= m <= n <= chain.len(),
    ensures
        payload_bytes(chain.take(m)) <= payload_bytes(chain.take(n)),
    decreases n,
{
    if m < n {
        lemma_payload_of_prefix(chain, m, n - 1);
        lemma_payload_grows(chain, n - 1);
    }
}

/// Segments that name one another, with no target twice and within both
/// limits, are walked from the first to the last: the chain is what they spell,
/// and the last tells whether the walk goes on.
pub proof fn spelled_chains_are_walked<E>(
    limits: RowSegmentChainLimits,
    parts: Seq<Seq<u8>>,
    chain: Seq<ChainSegmentView>,
    names: Seq<Option<ContinuationTarget>>,
    replies: Seq<Result<Vec<u8>, E>>,
)
    requires
        spells_chain(parts, chain, names, replies.len() + 1int),
        payload_bytes(chain.take(replies.len() + 1int)) <= limits.max_total_payload_bytes,
        replies.len() + 1 <= limits.max_segments,
        forall|i: int|
            #![trigger replies[i]]
            0 <= i < replies.len() ==> replies[i] is Ok && replies[i]->Ok_0@ == parts[i + 1],
        names[replies.len() as int] matches Some(named) ==> {
            &&& replies.len() + 1 < limits.max_segments
            &&& !was_requested(
                chain.take(replies.len() + 1int),
                named.resolver_key,
                named.record_id,
            )
        },
    ensures
        row_segment::walk_state(chain[0].target, parts[0], limits, replies) == Ok::<
            (Seq<ChainSegmentView>, Option<ContinuationTarget>),
            RowSegmentChainError<E>,
        >((chain.take(replies.len() + 1int), names[replies.len() as int])),
    decreases replies.len(),
{
    let n = replies.len() as int;
    let before = chain.take(n);
    let bytes = parts[n];
    reveal(Seq::fold_left);
    lemma_payload_grows(chain, n);
    assert(chain[n] == ChainSegmentView {
        target: chain[n].target,
        flags: chain[n].flags,
        declared_len: bytes.len() as int,
        payload: chain[n].payload,
    });
    arrived_segments_are_appended::<E>(
        before,
        chain[n].target,
        bytes,
        limits,
        chain[n].flags,
        names[n],
        chain[n].payload,
    );
    if let Some(named) = names[n] {
        let longer = chain.take(n + 1);
        if was_requested(before, named.resolver_key, named.record_id) {
            let i = choose|i: int|
                {
                    &&& 0 <= i < before.len()
                    &&& (#[trigger] before[i]).target.resolver_key == named.resolver_key
                    &&& before[i].target.record_id == named.record_id
                };
            assert(longer[i] == before[i]);
            assert(was_requested(longer, named.resolver_key, named.record_id));
        }
        if named.resolver_key == chain[n].target.resolver_key && named.record_id
            == chain[n].target.record_id {
            assert(longer[n].target.resolver_key == named.resolver_key);
            assert(was_requested(longer, named.resolver_key, named.record_id));
        }
    }
    if n == 0 {
        assert(before =~= Seq::<ChainSegmentView>::empty());
    } else {
        let fewer = replies.drop_last();
        assert forall|i: int| #![trigger fewer[i]] 0 <= i < fewer.len() implies fewer[i] is Ok
            && fewer[i]->Ok_0@ == parts[i + 1] by {
            assert(replies[i] == fewer[i]);
        }
        lemma_payload_of_prefix(chain, n, n + 1);
        assert(names[n - 1] is Some);
        let named = names[n - 1]->Some_0;
        if was_requested(before, named.resolver_key, named.record_id) {
            let i = choose|i: int|
                {
                    &&& 0 <= i < before.len()
                    &&& (#[trigger] before[i]).target.resolver_key == named.resolver_key
                    &&& before[i].target.record_id == named.record_id
                };
            assert(chain[i] == before[i]);
            assert(false);
        }
        spelled_chains_are_walked::<E>(limits, parts, chain, names, fewer);
        assert(replies[n - 1] is Ok);
        assert(named == chain[n].target);
    }
}

/// A resolver that fails ends the walk with its failure, under the target that
/// was asked for; and a walk that has ended stays as it is.
pub proof fn ended_walks_stay_ended<E>(
    initial_target: ContinuationTarget,
    initial_bytes: Seq<u8>,
    limits: RowSegmentChainLimits,
    replies: Seq<Result<Vec<u8>, E>>,
    reply: Result<Vec<u8>, E>,
)
    ensures
        ({
            let before = row_segment::walk_state(initial_target, initial_bytes, limits, replies);
            let after = row_segment::walk_state(
                initial_target,
                initial_bytes,
                limits,
                replies.push(reply),
            );
            match before {
                Ok((segments, Some(asked))) => reply matches Err(source) ==> after == Err::<
                    (Seq<ChainSegmentView>, Option<ContinuationTarget>),
                    RowSegmentChainError<E>,
                >(RowSegmentChainError::Resolver { target: asked, source }),
                _ => after == before,
            }
        }),
{
    assert(replies.push(reply).drop_last() =~= replies);
}

/// A walk begins with the step on the initial segment, and each reply that
/// brings bytes for the target asked for makes the next step with them.
pub proof fn walks_go_step_by_step<E>(
    initial_target: ContinuationTarget,
    initial_bytes: Seq<u8>,
    limits: RowSegmentChainLimits,
    replies: Seq<Result<Vec<u8>, E>>,
    resolved: Vec<u8>,
)
    ensures
        row_segment::walk_state(
            initial_target,
            initial_bytes,
            limits,
            Seq::<Result<Vec<u8>, E>>::empty(),
        ) == row_segment::chain_step::<E>(Seq::empty(), initial_target, initial_bytes, limits),
        row_segment::walk_state(initial_target, initial_bytes, limits, replies) matches Ok(
            (segments, Some(asked)),
        ) ==> row_segment::walk_state(
            initial_target,
            initial_bytes,
            limits,
            replies.push(Ok(resolved)),
        ) == row_segment::chain_step::<E>(segments, asked, resolved@, limits),
{
    assert(replies.push(Ok(resolved)).drop_last() =~= replies);
}

/// Each reply of a resolver is one that it gives for the target that the walk
/// asks for at that point, with all replies before it and no others.
pub proof fn replies_answer_what_is_asked<
    E,
    F: FnMut(ContinuationTarget) -> Result<Vec<u8>, E>,
>(
    initial_target: ContinuationTarget,
    initial_bytes: Seq<u8>,
    limits: RowSegmentChainLimits,
    resolve: F,
    replies: Seq<Result<Vec<u8>, E>>,
    i: int,
)
    requires
        row_segment::replies_of(initial_target, initial_bytes, limits, resolve, replies),
        0 <= i < replies.len(),
    ensures
        row_segment::walk_state(
            initial_target,
            initial_bytes,
            limits,
            replies.take(i),
        ) matches Ok((_, Some(asked))) && call_ensures(resolve, (asked,), replies[i]),
{
    reveal(row_segment::walk_request);
    let reply = replies[i];
    assert(row_segment::is_reply(
        row_segment::walk_request(initial_target, initial_bytes, limits, replies.take(i)),
        resolve,
        reply,
    ));
}

} // verus!
