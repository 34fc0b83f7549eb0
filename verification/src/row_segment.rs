//! Bounded parser for SA17 physical row-segment headers.
//!
//! A row segment begins with a little-endian `u16` segment length and a
//! flag byte.  The `0x04` flag bit changes the header from three bytes to
//! nine bytes and adds a six-byte continuation target: a four-byte resolver
//! key followed by a two-byte record identifier. The parser reads one segment
//! only: resolving either field requires independent evidence.
//! [`walk_row_segment_chain`] adds a bounded walker, but still requires its
//! caller to supply both the initial target and every target resolution in an
//! explicit caller-owned file/context.
use vstd::prelude::*;
use vstd::slice;

use crate::bytes;
use crate::text;

verus! {

/// The flag bit that marks a segment as continued.
pub const ROW_SEGMENT_CONTINUED: u8 = 0x04;

/// Header length for a segment without [`ROW_SEGMENT_CONTINUED`].
pub const ROW_SEGMENT_HEADER_LEN: usize = 3;

/// Header length for a segment with [`ROW_SEGMENT_CONTINUED`].
pub const CONTINUED_ROW_SEGMENT_HEADER_LEN: usize = 9;

/// The on-disk continuation target stored in a physical SQL Anywhere row
/// segment header.
///
/// The six bytes encode `{ resolver_key: u32, record_id: u16 }`, both
/// little-endian: bytes `3..7` are the resolver key and bytes `7..9` the record
/// identifier. `record_id` is consumed as an index into a materialized
/// owner-local directory; it is not a physical page number. `resolver_key` is
/// intentionally neutral: resolving it requires caller-owned context that is
/// not stored in this header.
#[derive(Debug, Clone, Copy, PartialEq, Eq, PartialOrd, Ord, Hash, Structural)]
pub struct ContinuationTarget {
    /// Four-byte little-endian resolver key.
    pub resolver_key: u32,
    /// Two-byte little-endian record identifier.
    pub record_id: u16,
}

impl ContinuationTarget {
    /// Construct a raw continuation target.
    pub fn new(resolver_key: u32, record_id: u16) -> (target: Self)
        ensures
            target == (ContinuationTarget { resolver_key, record_id }),
    {
        ContinuationTarget { resolver_key, record_id }
    }

    /// Four-byte little-endian resolver key.
    ///
    /// This is not proven to be a raw page number, byte offset, or standalone
    /// row identity.
    pub fn resolver_key(self) -> (key: u32)
        ensures
            key == self.resolver_key,
    {
        self.resolver_key
    }

    /// Two-byte little-endian record identifier within the resolved owner's
    /// materialized directory. It is not a physical page number.
    pub fn record_id(self) -> (id: u16)
        ensures
            id == self.record_id,
    {
        self.record_id
    }

    /// The target encoded by the six bytes from `at` on.
    pub open spec fn at(input: Seq<u8>, at: int) -> Self {
        ContinuationTarget {
            resolver_key: bytes::le32(input, at) as u32,
            record_id: bytes::le16(input, at + 4) as u16,
        }
    }

    /// Read the target encoded by the six bytes from `at` on.
    fn read(input: &[u8], at: usize) -> (target: Self)
        requires
            at + 6 <= input@.len(),
        ensures
            target == Self::at(input@, at as int),
    {
        assert(input@.len() == input.len());
        ContinuationTarget::new(bytes::read_le32(input, at), bytes::read_le16(input, at + 4))
    }

    /// What [`Self::to_string`] renders.
    pub open spec fn text(self) -> Seq<char> {
        "resolver_key=0x"@ + text::hex_text(self.resolver_key as nat, 8, true) + ", record_id=0x"@
            + text::hex_text(self.record_id as nat, 4, true)
    }

    /// Append the rendering of [`Self::to_string`].
    fn append_to(self, out: &mut String)
        ensures
            final(out)@ == old(out)@ + self.text(),
    {
        out.append("resolver_key=0x");
        text::append_hex(out, self.resolver_key, 8, true);
        out.append(", record_id=0x");
        text::append_hex(out, self.record_id as u32, 4, true);
        assert(out@ =~= old(out)@ + self.text());
    }

    /// Both components in hexadecimal.
    pub fn to_string(&self) -> (out: String)
        ensures
            out@ == self.text(),
    {
        let mut out: String = String::new();
        self.append_to(&mut out);
        assert(out@ =~= self.text());
        out
    }
}

// ---------------------------------------------------------------------------
// The segment grammar
// ---------------------------------------------------------------------------

/// Whether flags mark a segment as continued.
pub open spec fn continued(flags: u8) -> bool {
    (flags / ROW_SEGMENT_CONTINUED) % 2 == 1
}

/// Header length selected by the continuation bit.
pub open spec fn header_len_of(flags: u8) -> int {
    if continued(flags) {
        CONTINUED_ROW_SEGMENT_HEADER_LEN as int
    } else {
        ROW_SEGMENT_HEADER_LEN as int
    }
}

/// Whether `segment` is exactly one physical segment.
pub open spec fn is_segment(segment: Seq<u8>) -> bool {
    &&& segment.len() >= ROW_SEGMENT_HEADER_LEN
    &&& segment.len() >= header_len_of(segment[2])
    &&& bytes::le16(segment, 0) == segment.len()
}

/// The continuation target of a segment.
pub open spec fn target_of(segment: Seq<u8>) -> Option<ContinuationTarget> {
    if continued(segment[2]) {
        Some(ContinuationTarget::at(segment, 3))
    } else {
        None
    }
}

/// The bytes of a segment after its header.
pub open spec fn payload_of(segment: Seq<u8>) -> Seq<u8> {
    segment.skip(header_len_of(segment[2]))
}

/// The first complete segment of `input`, or why there is none.
pub open spec fn first_segment(input: Seq<u8>) -> Result<Seq<u8>, RowSegmentError> {
    if input.len() < ROW_SEGMENT_HEADER_LEN {
        Err(RowSegmentError::MissingHeader { available: input.len() as usize })
    } else {
        let declared = bytes::le16(input, 0);
        let header_len = header_len_of(input[2]);
        if declared < header_len || declared > input.len() {
            Err(
                RowSegmentError::InvalidLength {
                    declared: declared as usize,
                    header_len: header_len as usize,
                    available: input.len() as usize,
                },
            )
        } else {
            Ok(input.take(declared))
        }
    }
}

/// The bytes of a parsed segment, or the error.
pub open spec fn parsed(result: Result<RowSegment<'_>, RowSegmentError>) -> Result<
    Seq<u8>,
    RowSegmentError,
> {
    match result {
        Ok(segment) => Ok(segment@),
        Err(error) => Err(error),
    }
}

/// A checked physical row segment borrowed from its containing row area.
#[derive(Debug, Clone, Copy, PartialEq, Eq)]
pub struct RowSegment<'a> {
    declared_len: usize,
    flags: u8,
    next_target: Option<ContinuationTarget>,
    bytes: &'a [u8],
}

impl<'a> View for RowSegment<'a> {
    type V = Seq<u8>;

    closed spec fn view(&self) -> Seq<u8> {
        self.bytes@
    }
}

impl<'a> RowSegment<'a> {
    #[verifier::type_invariant]
    spec fn well_formed(self) -> bool {
        &&& is_segment(self.bytes@)
        &&& self.declared_len == self.bytes@.len()
        &&& self.flags == self.bytes@[2]
        &&& self.next_target == target_of(self.bytes@)
    }

    /// Parse the first complete segment in `input`.
    ///
    /// `input` may include following row-area bytes.  This method returns a
    /// slice exactly bounded by the header's declared segment length and
    /// never interprets following bytes as a continuation target.
    pub fn parse(input: &'a [u8]) -> (result: Result<Self, RowSegmentError>)
        ensures
            parsed(result) == first_segment(input@),
    {
        parse_row_segment(input)
    }

    /// Declared total length of the header and payload, in bytes.
    pub fn declared_len(self) -> (len: usize)
        ensures
            len == self@.len(),
            is_segment(self@),
    {
        proof {
            use_type_invariant(&self);
        }
        self.declared_len
    }

    /// Raw header flags, retained without assigning meaning to unproven bits.
    pub fn flags(self) -> (flags: u8)
        ensures
            flags == self@[2],
            is_segment(self@),
    {
        proof {
            use_type_invariant(&self);
        }
        self.flags
    }

    /// Whether the proven continuation bit is set.
    pub fn is_continued(self) -> (r: bool)
        ensures
            r == continued(self@[2]),
            is_segment(self@),
    {
        proof {
            use_type_invariant(&self);
        }
        self.next_target.is_some()
    }

    /// Header length selected by the continuation bit.
    pub fn header_len(self) -> (len: usize)
        ensures
            len == header_len_of(self@[2]),
            is_segment(self@),
    {
        if self.is_continued() {
            CONTINUED_ROW_SEGMENT_HEADER_LEN
        } else {
            ROW_SEGMENT_HEADER_LEN
        }
    }

    /// Raw target of the next segment, only for a continued segment.
    ///
    /// Resolving this target additionally needs caller-owned context that is
    /// not represented in this header.
    pub fn next_target(self) -> (target: Option<ContinuationTarget>)
        ensures
            target == target_of(self@),
            is_segment(self@),
    {
        proof {
            use_type_invariant(&self);
        }
        self.next_target
    }

    /// Full, checked segment bytes, including the header.
    pub fn bytes(self) -> (bytes: &'a [u8])
        ensures
            bytes@ == self@,
            is_segment(self@),
    {
        proof {
            use_type_invariant(&self);
        }
        self.bytes
    }

    /// Checked payload bytes after the selected header.
    pub fn payload(self) -> (payload: &'a [u8])
        ensures
            payload@ == payload_of(self@),
            is_segment(self@),
    {
        proof {
            use_type_invariant(&self);
        }
        slice::slice_subrange(self.bytes, self.header_len(), self.bytes.len())
    }
}

/// Failure while validating a physical row-segment boundary.
#[derive(Debug, Clone, Copy, PartialEq, Eq, Structural)]
pub enum RowSegmentError {
    /// The slice does not contain the fixed three-byte header.
    MissingHeader {
        /// Bytes supplied by the caller.
        available: usize,
    },
    /// The declared length cannot contain the selected header or extends
    /// beyond the caller's trusted containing row area.
    InvalidLength {
        /// u16 length decoded from the first two bytes.
        declared: usize,
        /// Header length selected solely by the continuation bit.
        header_len: usize,
        /// Bytes supplied by the caller.
        available: usize,
    },
}

impl RowSegmentError {
    /// What [`Self::to_string`] renders.
    pub open spec fn text(self) -> Seq<char> {
        match self {
            RowSegmentError::MissingHeader { available } => {
                "row segment needs a three-byte header but only "@ + text::decimal_text(
                    available as nat,
                ) + " bytes are available"@
            },
            RowSegmentError::InvalidLength { declared, header_len, available } => {
                "row segment declares "@ + text::decimal_text(declared as nat)
                    + " bytes; it needs at least its "@ + text::decimal_text(header_len as nat)
                    + "-byte header and has "@ + text::decimal_text(available as nat)
                    + " bytes available"@
            },
        }
    }

    /// Append the rendering of [`Self::to_string`].
    fn append_to(&self, out: &mut String)
        ensures
            final(out)@ == old(out)@ + self.text(),
    {
        match self {
            RowSegmentError::MissingHeader { available } => {
                out.append("row segment needs a three-byte header but only ");
                text::append_decimal(out, *available as u64);
                out.append(" bytes are available");
            },
            RowSegmentError::InvalidLength { declared, header_len, available } => {
                out.append("row segment declares ");
                text::append_decimal(out, *declared as u64);
                out.append(" bytes; it needs at least its ");
                text::append_decimal(out, *header_len as u64);
                out.append("-byte header and has ");
                text::append_decimal(out, *available as u64);
                out.append(" bytes available");
            },
        }
        assert(out@ =~= old(out)@ + self.text());
    }

    /// A description of the failure.
    pub fn to_string(&self) -> (out: String)
        ensures
            out@ == self.text(),
    {
        let mut out: String = String::new();
        self.append_to(&mut out);
        assert(out@ =~= self.text());
        out
    }
}

/// Parse the first complete SA17 physical row segment in `input`.
///
/// The returned segment is fail-closed: its declared length must fit entirely
/// inside `input` and must contain the header selected by `flags & 0x04`.
/// This is a header parser, not a continuation-chain walker.
pub fn parse_row_segment<'a>(input: &'a [u8]) -> (result: Result<RowSegment<'a>, RowSegmentError>)
    ensures
        parsed(result) == first_segment(input@),
{
    if input.len() < ROW_SEGMENT_HEADER_LEN {
        return Err(RowSegmentError::MissingHeader { available: input.len() });
    }
    let declared_len: usize = bytes::read_le16(input, 0) as usize;
    let flags: u8 = input[2];
    let is_continued: bool = (flags / ROW_SEGMENT_CONTINUED) % 2 == 1;
    let header_len: usize = if is_continued {
        CONTINUED_ROW_SEGMENT_HEADER_LEN
    } else {
        ROW_SEGMENT_HEADER_LEN
    };
    if declared_len < header_len || declared_len > input.len() {
        return Err(
            RowSegmentError::InvalidLength {
                declared: declared_len,
                header_len,
                available: input.len(),
            },
        );
    }
    let segment: &'a [u8] = slice::slice_subrange(input, 0, declared_len);
    assert(segment@ =~= input@.take(declared_len as int));
    let next_target: Option<ContinuationTarget> = if is_continued {
        Some(ContinuationTarget::read(segment, 3))
    } else {
        None
    };
    Ok(RowSegment { declared_len, flags, next_target, bytes: segment })
}

// ---------------------------------------------------------------------------
// Chains
// ---------------------------------------------------------------------------

/// Caller-selected resource limits for [`walk_row_segment_chain`].
///
/// These are limits on parsed physical segments, not on pages, rows, files,
/// or database objects.  The caller owns all of those mappings.
#[derive(Debug, Clone, Copy, PartialEq, Eq, Structural)]
pub struct RowSegmentChainLimits {
    /// Maximum number of segments, including the caller-supplied initial one.
    pub max_segments: usize,
    /// Maximum combined payload length across all segments.
    pub max_total_payload_bytes: usize,
}

impl RowSegmentChainLimits {
    /// Construct explicit chain-walk limits.
    pub fn new(max_segments: usize, max_total_payload_bytes: usize) -> (limits: Self)
        ensures
            limits == (RowSegmentChainLimits { max_segments, max_total_payload_bytes }),
    {
        RowSegmentChainLimits { max_segments, max_total_payload_bytes }
    }
}

/// One fully bounded segment returned by [`walk_row_segment_chain`].
///
/// `target` is the caller-supplied identity used to request this segment from
/// its resolver.  It is not sufficient to identify a file by itself.
#[derive(Debug, PartialEq, Eq)]
pub struct RowSegmentChainSegment {
    target: ContinuationTarget,
    flags: u8,
    declared_len: usize,
    payload: Vec<u8>,
}

/// What a chain segment says.
#[verifier::ext_equal]
pub ghost struct ChainSegmentView {
    pub target: ContinuationTarget,
    pub flags: u8,
    pub declared_len: int,
    pub payload: Seq<u8>,
}

impl View for RowSegmentChainSegment {
    type V = ChainSegmentView;

    closed spec fn view(&self) -> ChainSegmentView {
        ChainSegmentView {
            target: self.target,
            flags: self.flags,
            declared_len: self.declared_len as int,
            payload: self.payload@,
        }
    }
}

impl Clone for RowSegmentChainSegment {
    fn clone(&self) -> (copy: Self)
        ensures
            copy@ == self@,
    {
        RowSegmentChainSegment {
            target: self.target,
            flags: self.flags,
            declared_len: self.declared_len,
            payload: bytes::copy_bytes(self.payload.as_slice()),
        }
    }
}

impl RowSegmentChainSegment {
    /// Caller-supplied identity of this segment in its resolver context.
    pub fn target(&self) -> (target: ContinuationTarget)
        ensures
            target == self@.target,
    {
        self.target
    }

    /// Raw physical header flags.
    pub fn flags(&self) -> (flags: u8)
        ensures
            flags == self@.flags,
    {
        self.flags
    }

    /// Checked total segment length, including its header.
    pub fn declared_len(&self) -> (len: usize)
        ensures
            len == self@.declared_len,
    {
        self.declared_len
    }

    /// Checked payload after this segment's selected header.
    pub fn payload(&self) -> (payload: &[u8])
        ensures
            payload@ == self@.payload,
    {
        self.payload.as_slice()
    }
}

/// Combined payload length of chain segments.
pub open spec fn total_payload(segments: Seq<ChainSegmentView>) -> int
    decreases segments.len(),
{
    if segments.len() == 0 {
        0
    } else {
        total_payload(segments.drop_last()) + segments.last().payload.len()
    }
}

/// What each of several chain segments says.
pub open spec fn segment_views(segments: Seq<RowSegmentChainSegment>) -> Seq<ChainSegmentView> {
    Seq::new(segments.len(), |i: int| segments[i]@)
}

/// A bounded, ownership-neutral physical row continuation chain.
///
/// The segments are ordered from the caller-supplied initial segment through
/// each continuation.  Payloads are copied so they remain valid after the
/// caller's resolver returns; no page, file, or database owner is retained.
#[derive(Debug, PartialEq, Eq)]
pub struct RowSegmentChain {
    segments: Vec<RowSegmentChainSegment>,
    total_payload_bytes: usize,
}

impl View for RowSegmentChain {
    type V = Seq<ChainSegmentView>;

    closed spec fn view(&self) -> Seq<ChainSegmentView> {
        segment_views(self.segments@)
    }
}

impl Clone for RowSegmentChain {
    fn clone(&self) -> (copy: Self)
        ensures
            copy@ == self@,
    {
        let mut segments: Vec<RowSegmentChainSegment> = Vec::new();
        let mut i: usize = 0;
        while i < self.segments.len()
            invariant
                i <= self.segments@.len(),
                segments@.len() == i,
                forall|j: int| 0 <= j < i ==> (#[trigger] segments@[j])@ == self.segments@[j]@,
            decreases self.segments@.len() - i,
        {
            segments.push(self.segments[i].clone());
            i = i + 1;
        }
        assert(segment_views(segments@) =~= segment_views(self.segments@));
        proof {
            use_type_invariant(self);
        }
        RowSegmentChain { segments, total_payload_bytes: self.total_payload_bytes }
    }
}

impl RowSegmentChain {
    #[verifier::type_invariant]
    spec fn well_formed(self) -> bool {
        self.total_payload_bytes == total_payload(segment_views(self.segments@))
    }

    /// Segments in physical continuation order.
    pub fn segments(&self) -> (segments: &[RowSegmentChainSegment])
        ensures
            segment_views(segments@) == self@,
    {
        self.segments.as_slice()
    }

    /// Number of parsed segments, including the initial segment.
    pub fn len(&self) -> (len: usize)
        ensures
            len == self@.len(),
    {
        self.segments.len()
    }

    /// Whether this chain contains no segments.
    ///
    /// A successful walk always has an initial segment, so this is normally
    /// false; it is provided for collection-style callers.
    pub fn is_empty(&self) -> (r: bool)
        ensures
            r == (self@.len() == 0),
    {
        self.segments.len() == 0
    }

    /// Sum of all checked payload byte lengths.
    pub fn total_payload_bytes(&self) -> (total: usize)
        ensures
            total == total_payload(self@),
    {
        proof {
            use_type_invariant(self);
        }
        self.total_payload_bytes
    }

    /// A chain without segments, from which a walk starts.
    pub fn empty() -> (chain: Self)
        ensures
            chain@ == Seq::<ChainSegmentView>::empty(),
    {
        let segments: Vec<RowSegmentChainSegment> = Vec::new();
        assert(segment_views(segments@) =~= Seq::empty());
        RowSegmentChain { segments, total_payload_bytes: 0 }
    }
}

/// Failure while walking a caller-resolved continuation chain.
#[derive(Debug, Clone, PartialEq, Eq)]
pub enum RowSegmentChainError<E> {
    /// A segment could not be parsed within the exact bytes supplied by the
    /// caller's resolver.
    InvalidSegment {
        /// Caller-supplied target for the malformed segment.
        target: ContinuationTarget,
        /// Zero-based position in the chain.
        segment_index: usize,
        /// Boundary validation failure.
        source: RowSegmentError,
    },
    /// A supplied initial or resolved slice contains bytes after its one
    /// declared physical segment.
    TrailingBytes {
        /// Caller-local target for the segment.
        target: ContinuationTarget,
        /// Zero-based position in the chain.
        segment_index: usize,
        /// Checked segment length declared by its header.
        declared_len: usize,
        /// Total bytes supplied for that segment.
        available: usize,
    },
    /// The caller's explicit target resolver declined or failed to resolve a
    /// continuation.  The walker never falls back to another file or page.
    Resolver {
        /// Target the resolver was asked to resolve.
        target: ContinuationTarget,
        /// Resolver-provided failure.
        source: E,
    },
    /// Following another continuation would exceed `max_segments`.
    SegmentLimit {
        /// Configured maximum number of segments.
        max_segments: usize,
        /// Number that would have been required.
        attempted_segments: usize,
    },
    /// Adding a checked payload would exceed `max_total_payload_bytes`.
    PayloadLimit {
        /// Configured maximum combined payload length.
        max_total_payload_bytes: usize,
        /// Combined length that would have been required.
        attempted_total_payload_bytes: usize,
    },
    /// A continuation target was encountered more than once, including a
    /// continuation back to the caller-supplied initial target.
    Cycle {
        /// Repeated target.
        target: ContinuationTarget,
    },
}

/// A sum that stops at the largest machine integer.
pub open spec fn saturating(sum: int) -> usize {
    if sum > usize::MAX {
        usize::MAX
    } else {
        sum as usize
    }
}

/// Whether some segment of the chain was requested under `target`.
pub open spec fn visits(segments: Seq<ChainSegmentView>, target: ContinuationTarget) -> bool {
    exists|i: int| 0 <= i < segments.len() && #[trigger] segments[i].target == target
}

/// The chain segment made of one exact physical segment.
pub open spec fn chain_segment(target: ContinuationTarget, segment: Seq<u8>) -> ChainSegmentView {
    ChainSegmentView {
        target,
        flags: segment[2],
        declared_len: segment.len() as int,
        payload: payload_of(segment),
    }
}

/// The chain after the segment requested under `target` has arrived as
/// `input`, with the target to ask for next, or the failure.
#[verifier::opaque]
pub open spec fn chain_step<E>(
    segments: Seq<ChainSegmentView>,
    target: ContinuationTarget,
    input: Seq<u8>,
    limits: RowSegmentChainLimits,
) -> Result<(Seq<ChainSegmentView>, Option<ContinuationTarget>), RowSegmentChainError<E>> {
    let limit_reached = |count: int|
        RowSegmentChainError::SegmentLimit {
            max_segments: limits.max_segments,
            attempted_segments: saturating(count + 1),
        };
    if segments.len() >= limits.max_segments {
        Err(limit_reached(segments.len() as int))
    } else {
        match first_segment(input) {
            Err(source) => Err(
                RowSegmentChainError::InvalidSegment {
                    target,
                    segment_index: segments.len() as usize,
                    source,
                },
            ),
            Ok(segment) => if segment.len() != input.len() {
                Err(
                    RowSegmentChainError::TrailingBytes {
                        target,
                        segment_index: segments.len() as usize,
                        declared_len: segment.len() as usize,
                        available: input.len() as usize,
                    },
                )
            } else {
                let longer = segments.push(chain_segment(target, segment));
                if total_payload(longer) > limits.max_total_payload_bytes {
                    Err(
                        RowSegmentChainError::PayloadLimit {
                            max_total_payload_bytes: limits.max_total_payload_bytes,
                            attempted_total_payload_bytes: saturating(total_payload(longer)),
                        },
                    )
                } else {
                    match target_of(segment) {
                        None => Ok((longer, None)),
                        Some(next) => if visits(longer, next) {
                            Err(RowSegmentChainError::Cycle { target: next })
                        } else if longer.len() >= limits.max_segments {
                            Err(limit_reached(longer.len() as int))
                        } else {
                            Ok((longer, Some(next)))
                        },
                    }
                }
            },
        }
    }
}

/// What a chain with the target to ask for next says, or the failure.
pub open spec fn step_view<E>(
    result: Result<(RowSegmentChain, Option<ContinuationTarget>), RowSegmentChainError<E>>,
) -> Result<(Seq<ChainSegmentView>, Option<ContinuationTarget>), RowSegmentChainError<E>> {
    match result {
        Ok((chain, next)) => Ok((chain@, next)),
        Err(error) => Err(error),
    }
}

/// Whether some segment was requested under `target`.
fn visits_target(segments: &Vec<RowSegmentChainSegment>, target: ContinuationTarget) -> (r: bool)
    ensures
        r == visits(segment_views(segments@), target),
{
    let ghost views = segment_views(segments@);
    let mut i: usize = 0;
    while i < segments.len()
        invariant
            i <= segments@.len(),
            views == segment_views(segments@),
            forall|j: int| 0 <= j < i ==> (#[trigger] views[j]).target != target,
        decreases segments@.len() - i,
    {
        if segments[i].target == target {
            assert(views[i as int].target == target);
            return true;
        }
        i = i + 1;
    }
    false
}

/// Append to `chain` the segment that was requested under `target` and has
/// arrived as `input`, and say which target to ask for next.
///
/// This is one step of [`walk_row_segment_chain`], for callers that resolve
/// targets themselves.
pub fn append_row_segment<E>(
    chain: RowSegmentChain,
    target: ContinuationTarget,
    input: &[u8],
    limits: RowSegmentChainLimits,
) -> (result: Result<(RowSegmentChain, Option<ContinuationTarget>), RowSegmentChainError<E>>)
    ensures
        step_view(result) == chain_step::<E>(chain@, target, input@, limits),
{
    proof {
        use_type_invariant(&chain);
        reveal(chain_step);
    }
    let mut segments: Vec<RowSegmentChainSegment> = chain.segments;
    let total: usize = chain.total_payload_bytes;
    let segment_index: usize = segments.len();
    if segment_index >= limits.max_segments {
        return Err(
            RowSegmentChainError::SegmentLimit {
                max_segments: limits.max_segments,
                attempted_segments: segment_index.saturating_add(1),
            },
        );
    }
    let segment: RowSegment<'_> = match parse_row_segment(input) {
        Ok(segment) => segment,
        Err(source) => {
            return Err(RowSegmentChainError::InvalidSegment { target, segment_index, source });
        },
    };
    if segment.declared_len() != input.len() {
        return Err(
            RowSegmentChainError::TrailingBytes {
                target,
                segment_index,
                declared_len: segment.declared_len(),
                available: input.len(),
            },
        );
    }
    let payload: &[u8] = segment.payload();
    let ghost before = segment_views(segments@);
    let added = RowSegmentChainSegment {
        target,
        flags: segment.flags(),
        declared_len: segment.declared_len(),
        payload: bytes::copy_bytes(payload),
    };
    let ghost longer = before.push(chain_segment(target, segment@));
    proof {
        assert(added@ == chain_segment(target, segment@));
        assert(longer.drop_last() =~= before);
        assert(total_payload(longer) == total + payload@.len());
    }
    if total > limits.max_total_payload_bytes || payload.len() > limits.max_total_payload_bytes
        - total {
        return Err(
            RowSegmentChainError::PayloadLimit {
                max_total_payload_bytes: limits.max_total_payload_bytes,
                attempted_total_payload_bytes: total.saturating_add(payload.len()),
            },
        );
    }
    segments.push(added);
    assert(segment_views(segments@) =~= longer);
    if let Some(next) = segment.next_target() {
        if visits_target(&segments, next) {
            return Err(RowSegmentChainError::Cycle { target: next });
        }
        if segments.len() >= limits.max_segments {
            return Err(
                RowSegmentChainError::SegmentLimit {
                    max_segments: limits.max_segments,
                    attempted_segments: segments.len().saturating_add(1),
                },
            );
        }
    }
    Ok((
        RowSegmentChain { segments, total_payload_bytes: total + payload.len() },
        segment.next_target(),
    ))
}

/// Where a walk stands once the resolver has given `replies`, in order: the
/// chain so far with the target to ask for next, the whole chain, or the
/// failure.
pub open spec fn walk_state<E>(
    initial_target: ContinuationTarget,
    initial_bytes: Seq<u8>,
    limits: RowSegmentChainLimits,
    replies: Seq<Result<Vec<u8>, E>>,
) -> Result<(Seq<ChainSegmentView>, Option<ContinuationTarget>), RowSegmentChainError<E>>
    decreases replies.len(),
{
    if replies.len() == 0 {
        chain_step::<E>(Seq::empty(), initial_target, initial_bytes, limits)
    } else {
        match walk_state(initial_target, initial_bytes, limits, replies.drop_last()) {
            Ok((segments, Some(next))) => match replies.last() {
                Ok(resolved) => chain_step::<E>(segments, next, resolved@, limits),
                Err(source) => Err(RowSegmentChainError::Resolver { target: next, source }),
            },
            other => other,
        }
    }
}

/// The target that a walk asks for once the resolver has given `replies`.
#[verifier::opaque]
pub open spec fn walk_request<E>(
    initial_target: ContinuationTarget,
    initial_bytes: Seq<u8>,
    limits: RowSegmentChainLimits,
    replies: Seq<Result<Vec<u8>, E>>,
) -> Option<ContinuationTarget> {
    match walk_state(initial_target, initial_bytes, limits, replies) {
        Ok((_, next)) => next,
        Err(_) => None,
    }
}

/// Whether `resolve` may have given `replies` to the requests of a walk, one
/// reply to each request.
pub open spec fn replies_of<E, F: FnMut(ContinuationTarget) -> Result<Vec<u8>, E>>(
    initial_target: ContinuationTarget,
    initial_bytes: Seq<u8>,
    limits: RowSegmentChainLimits,
    resolve: F,
    replies: Seq<Result<Vec<u8>, E>>,
) -> bool {
    forall|i: int|
        #![trigger replies[i]]
        0 <= i < replies.len() ==> is_reply(
            walk_request(initial_target, initial_bytes, limits, replies.take(i)),
            resolve,
            replies[i],
        )
}

/// Whether there is a request and `resolve` may have given `reply` to it.
pub open spec fn is_reply<E, F: FnMut(ContinuationTarget) -> Result<Vec<u8>, E>>(
    request: Option<ContinuationTarget>,
    resolve: F,
    reply: Result<Vec<u8>, E>,
) -> bool {
    request matches Some(target) && call_ensures(resolve, (target,), reply)
}

/// How one more reply moves a walk on.
proof fn lemma_next_state<E>(
    initial_target: ContinuationTarget,
    initial_bytes: Seq<u8>,
    limits: RowSegmentChainLimits,
    replies: Seq<Result<Vec<u8>, E>>,
    segments: Seq<ChainSegmentView>,
    next: ContinuationTarget,
    reply: Result<Vec<u8>, E>,
)
    requires
        walk_state(initial_target, initial_bytes, limits, replies) == Ok::<
            (Seq<ChainSegmentView>, Option<ContinuationTarget>),
            RowSegmentChainError<E>,
        >((segments, Some(next))),
    ensures
        walk_state(initial_target, initial_bytes, limits, replies.push(reply)) == match reply {
            Ok(resolved) => chain_step::<E>(segments, next, resolved@, limits),
            Err(source) => Err(RowSegmentChainError::Resolver { target: next, source }),
        },
{
    assert(replies.push(reply).drop_last() =~= replies);
}

/// A reply to the pending request extends the replies of a walk.
proof fn lemma_reply<E, F: FnMut(ContinuationTarget) -> Result<Vec<u8>, E>>(
    initial_target: ContinuationTarget,
    initial_bytes: Seq<u8>,
    limits: RowSegmentChainLimits,
    resolve: F,
    replies: Seq<Result<Vec<u8>, E>>,
    next: ContinuationTarget,
    reply: Result<Vec<u8>, E>,
)
    requires
        replies_of(initial_target, initial_bytes, limits, resolve, replies),
        walk_request(initial_target, initial_bytes, limits, replies) == Some(next),
        call_ensures(resolve, (next,), reply),
    ensures
        replies_of(initial_target, initial_bytes, limits, resolve, replies.push(reply)),
{
    let longer = replies.push(reply);
    assert forall|i: int|
        #![trigger longer[i]]
        0 <= i < longer.len() implies is_reply(
        walk_request(initial_target, initial_bytes, limits, longer.take(i)),
        resolve,
        longer[i],
    ) by {
        if i < replies.len() {
            assert(longer.take(i) =~= replies.take(i));
            assert(longer[i] == replies[i]);
        } else {
            assert(longer.take(i) =~= replies);
        }
    }
}

/// A step appends one segment within the limit, and asks for another only
/// below it.
proof fn lemma_step_grows<E>(
    segments: Seq<ChainSegmentView>,
    target: ContinuationTarget,
    input: Seq<u8>,
    limits: RowSegmentChainLimits,
)
    ensures
        chain_step::<E>(segments, target, input, limits) matches Ok((longer, next)) ==> {
            &&& longer.len() == segments.len() + 1
            &&& longer.len() <= limits.max_segments
            &&& next is Some ==> longer.len() < limits.max_segments
        },
{
    reveal(chain_step);
}

/// What a finished walk says.
pub open spec fn walk_view<E>(
    result: Result<RowSegmentChain, RowSegmentChainError<E>>,
) -> Result<(Seq<ChainSegmentView>, Option<ContinuationTarget>), RowSegmentChainError<E>> {
    match result {
        Ok(chain) => Ok((chain@, None)),
        Err(error) => Err(error),
    }
}

/// Walk a physical row continuation chain through an explicit caller resolver.
///
/// `initial_target` is deliberately required: the row-segment format has no
/// complete resolver context, so only the caller can state the identity of
/// the first segment in its resolver context. `resolve` is called only for
/// later targets and must resolve every target in that one fixed context for
/// the entire walk. Cycle detection uses the raw [`ContinuationTarget`] values,
/// so changing the resolver context during a walk is unsupported. This function
/// does not select a file, find a page, infer a slot, or assign a table owner.
///
/// `initial_bytes` and every resolver result must contain exactly one declared
/// segment. The resolver returns owned bytes so it can make the file/page
/// ownership boundary fully explicit and may safely reuse transient buffers.
/// The walker copies only each checked payload into its result, checks
/// resource limits before adding it, and terminates on malformed data,
/// trailing bytes, resolver failures, repeated targets, or a limit rather
/// than making a best-effort recovery.
pub fn walk_row_segment_chain<E, F: FnMut(ContinuationTarget) -> Result<Vec<u8>, E>>(
    initial_target: ContinuationTarget,
    initial_bytes: &[u8],
    limits: RowSegmentChainLimits,
    resolve: F,
) -> (result: Result<RowSegmentChain, RowSegmentChainError<E>>)
    requires
        forall|target: ContinuationTarget| call_requires(resolve, (target,)),
    ensures
        exists|replies: Seq<Result<Vec<u8>, E>>|
            {
                &&& replies_of(initial_target, initial_bytes@, limits, resolve, replies)
                &&& walk_view(result) == #[trigger] walk_state(
                    initial_target,
                    initial_bytes@,
                    limits,
                    replies,
                )
            },
{
    let mut resolver: F = resolve;
    let ghost mut replies: Seq<Result<Vec<u8>, E>> = Seq::empty();
    let (mut chain, mut pending): (RowSegmentChain, Option<ContinuationTarget>) =
        match append_row_segment::<E>(RowSegmentChain::empty(), initial_target, initial_bytes, limits) {
        Ok(step) => step,
        Err(error) => {
            assert(walk_state(initial_target, initial_bytes@, limits, replies) == Err::<
                (Seq<ChainSegmentView>, Option<ContinuationTarget>),
                RowSegmentChainError<E>,
            >(error));
            return Err(error);
        },
    };
    proof {
        lemma_step_grows::<E>(Seq::empty(), initial_target, initial_bytes@, limits);
    }
    loop
        invariant
            resolver == resolve,
            forall|target: ContinuationTarget| call_requires(resolve, (target,)),
            replies_of(initial_target, initial_bytes@, limits, resolve, replies),
            walk_state(initial_target, initial_bytes@, limits, replies) == Ok::<
                (Seq<ChainSegmentView>, Option<ContinuationTarget>),
                RowSegmentChainError<E>,
            >((chain@, pending)),
            pending is Some ==> chain@.len() < limits.max_segments,
        decreases limits.max_segments - chain@.len(),
    {
        let next: ContinuationTarget = match pending {
            Some(next) => next,
            None => {
                return Ok(chain);
            },
        };
        let reply: Result<Vec<u8>, E> = resolver(next);
        proof {
            assert(walk_request(initial_target, initial_bytes@, limits, replies) == Some(next)) by {
                reveal(walk_request);
            }
            lemma_reply(initial_target, initial_bytes@, limits, resolve, replies, next, reply);
            lemma_next_state(
                initial_target,
                initial_bytes@,
                limits,
                replies,
                chain@,
                next,
                reply,
            );
            replies = replies.push(reply);
        }
        let resolved: Vec<u8> = match reply {
            Ok(resolved) => resolved,
            Err(source) => {
                return Err(RowSegmentChainError::Resolver { target: next, source });
            },
        };
        proof {
            lemma_step_grows::<E>(chain@, next, resolved@, limits);
        }
        let step: (RowSegmentChain, Option<ContinuationTarget>) = match append_row_segment::<E>(
            chain,
            next,
            resolved.as_slice(),
            limits,
        ) {
            Ok(step) => step,
            Err(error) => {
                return Err(error);
            },
        };
        chain = step.0;
        pending = step.1;
    }
}

impl<E> RowSegmentChainError<E> {
    /// What [`Self::to_string`] renders when a resolver failure reads as
    /// `resolver_text`.
    pub open spec fn text(self, resolver_text: Seq<char>) -> Seq<char> {
        match self {
            RowSegmentChainError::InvalidSegment { target, segment_index, source } => {
                "row segment "@ + text::decimal_text(segment_index as nat) + " at "@ + target.text()
                    + " is invalid: "@ + source.text()
            },
            RowSegmentChainError::TrailingBytes {
                target,
                segment_index,
                declared_len,
                available,
            } => {
                "row segment "@ + text::decimal_text(segment_index as nat) + " at "@ + target.text()
                    + " declares "@ + text::decimal_text(declared_len as nat)
                    + " bytes, but its resolver supplied "@ + text::decimal_text(available as nat)
                    + " bytes"@
            },
            RowSegmentChainError::Resolver { target, source } => {
                "could not resolve row continuation target "@ + target.text() + ": "@
                    + resolver_text
            },
            RowSegmentChainError::SegmentLimit { max_segments, attempted_segments } => {
                "row continuation chain needs "@ + text::decimal_text(attempted_segments as nat)
                    + " segments, exceeding its "@ + text::decimal_text(max_segments as nat)
                    + "-segment limit"@
            },
            RowSegmentChainError::PayloadLimit {
                max_total_payload_bytes,
                attempted_total_payload_bytes,
            } => {
                "row continuation chain needs "@ + text::decimal_text(
                    attempted_total_payload_bytes as nat,
                ) + " payload bytes, exceeding its "@ + text::decimal_text(
                    max_total_payload_bytes as nat,
                ) + "-byte limit"@
            },
            RowSegmentChainError::Cycle { target } => {
                "row continuation chain cycles at "@ + target.text()
            },
        }
    }

    /// A description of the failure. `resolver_text` is how a failure of the
    /// resolver reads; it is used for [`Self::Resolver`] alone.
    pub fn to_string(&self, resolver_text: &str) -> (out: String)
        ensures
            out@ == self.text(resolver_text@),
    {
        let mut out: String = String::new();
        match self {
            RowSegmentChainError::InvalidSegment { target, segment_index, source } => {
                out.append("row segment ");
                text::append_decimal(&mut out, *segment_index as u64);
                out.append(" at ");
                target.append_to(&mut out);
                out.append(" is invalid: ");
                source.append_to(&mut out);
            },
            RowSegmentChainError::TrailingBytes {
                target,
                segment_index,
                declared_len,
                available,
            } => {
                out.append("row segment ");
                text::append_decimal(&mut out, *segment_index as u64);
                out.append(" at ");
                target.append_to(&mut out);
                out.append(" declares ");
                text::append_decimal(&mut out, *declared_len as u64);
                out.append(" bytes, but its resolver supplied ");
                text::append_decimal(&mut out, *available as u64);
                out.append(" bytes");
            },
            RowSegmentChainError::Resolver { target, source: _ } => {
                out.append("could not resolve row continuation target ");
                target.append_to(&mut out);
                out.append(": ");
                out.append(resolver_text);
            },
            RowSegmentChainError::SegmentLimit { max_segments, attempted_segments } => {
                out.append("row continuation chain needs ");
                text::append_decimal(&mut out, *attempted_segments as u64);
                out.append(" segments, exceeding its ");
                text::append_decimal(&mut out, *max_segments as u64);
                out.append("-segment limit");
            },
            RowSegmentChainError::PayloadLimit {
                max_total_payload_bytes,
                attempted_total_payload_bytes,
            } => {
                out.append("row continuation chain needs ");
                text::append_decimal(&mut out, *attempted_total_payload_bytes as u64);
                out.append(" payload bytes, exceeding its ");
                text::append_decimal(&mut out, *max_total_payload_bytes as u64);
                out.append("-byte limit");
            },
            RowSegmentChainError::Cycle { target } => {
                out.append("row continuation chain cycles at ");
                target.append_to(&mut out);
            },
        }
        assert(out@ =~= self.text(resolver_text@));
        out
    }
}

// ---------------------------------------------------------------------------
// Laws
// ---------------------------------------------------------------------------

/// The continuation bit is the one that the mask selects.
pub proof fn continuation_is_one_flag_bit(flags: u8)
    ensures
        continued(flags) <==> flags & ROW_SEGMENT_CONTINUED != 0,
{
    assert((flags / 4) % 2 == 1 <==> flags & 4 != 0) by (bit_vector);
}

/// Bytes after a complete segment never change what is parsed.
pub proof fn following_bytes_are_ignored(input: Seq<u8>, following: Seq<u8>)
    requires
        first_segment(input) is Ok,
    ensures
        first_segment(input + following) == first_segment(input),
{
    let declared = bytes::le16(input, 0);
    assert((input + following).take(declared) =~= input.take(declared));
}

/// What is parsed is exactly one segment, and parsing it again gives it back.
pub proof fn a_parsed_segment_stands_alone(input: Seq<u8>)
    requires
        first_segment(input) is Ok,
    ensures
        is_segment(first_segment(input)->Ok_0),
        first_segment(input)->Ok_0.is_prefix_of(input),
        first_segment(first_segment(input)->Ok_0) == first_segment(input),
{
    let segment = first_segment(input)->Ok_0;
    assert(segment.take(segment.len() as int) =~= segment);
}

/// The physical segment with these flags, this target and this payload.
pub open spec fn segment_bytes(
    flags: u8,
    target: ContinuationTarget,
    payload: Seq<u8>,
) -> Seq<u8> {
    let len = header_len_of(flags) + payload.len();
    let fixed = seq![(len % 256) as u8, (len / 256) as u8, flags];
    if continued(flags) {
        fixed + seq![
            (target.resolver_key as int % 256) as u8,
            (target.resolver_key as int / 0x100 % 256) as u8,
            (target.resolver_key as int / 0x1_0000 % 256) as u8,
            (target.resolver_key as int / 0x100_0000) as u8,
            (target.record_id as int % 256) as u8,
            (target.record_id as int / 256) as u8,
        ] + payload
    } else {
        fixed + payload
    }
}

proof fn lemma_key_bytes(key: u32)
    ensures
        key as int == key as int % 256 + 0x100 * (key as int / 0x100 % 256) + 0x1_0000 * (key as int
            / 0x1_0000 % 256) + 0x100_0000 * (key as int / 0x100_0000),
        key as int / 0x100_0000 < 256,
{
}

/// A segment written with some flags, target and payload is parsed back to
/// just these; the target is read only under the continuation bit.
pub proof fn written_segments_are_read_back(
    flags: u8,
    target: ContinuationTarget,
    payload: Seq<u8>,
)
    requires
        header_len_of(flags) + payload.len() <= u16::MAX,
    ensures
        ({
            let segment = segment_bytes(flags, target, payload);
            &&& first_segment(segment) == Ok::<Seq<u8>, RowSegmentError>(segment)
            &&& segment[2] == flags
            &&& payload_of(segment) == payload
            &&& target_of(segment) == if continued(flags) {
                Some(target)
            } else {
                None
            }
        }),
{
    let segment = segment_bytes(flags, target, payload);
    assert(segment.take(segment.len() as int) =~= segment);
    assert(payload_of(segment) =~= payload);
    if continued(flags) {
        lemma_key_bytes(target.resolver_key);
        assert(bytes::le32(segment, 3) == target.resolver_key);
        assert(bytes::le16(segment, 7) == target.record_id);
    }
}

/// Whether no two segments were requested under the same target.
pub open spec fn targets_are_distinct(segments: Seq<ChainSegmentView>) -> bool {
    forall|i: int, j: int|
        0 <= i < j < segments.len() ==> (#[trigger] segments[i]).target != (#[trigger] segments[j]).target
}

/// The bytes that arrived for the segment at `index` of a chain.
pub open spec fn arrived<E>(
    initial_bytes: Seq<u8>,
    replies: Seq<Result<Vec<u8>, E>>,
    index: int,
) -> Seq<u8> {
    if index == 0 {
        initial_bytes
    } else {
        replies[index - 1]->Ok_0@
    }
}

/// Whether every segment is made of the bytes that arrived for it, and its
/// header names the target of the following segment, or `next` after the last.
pub open spec fn is_linked<E>(
    segments: Seq<ChainSegmentView>,
    next: Option<ContinuationTarget>,
    initial_bytes: Seq<u8>,
    replies: Seq<Result<Vec<u8>, E>>,
) -> bool {
    &&& segments.len() <= replies.len() + 1
    &&& forall|i: int|
        0 <= i < segments.len() ==> {
            let bytes = arrived(initial_bytes, replies, i);
            &&& #[trigger] segments[i] == chain_segment(segments[i].target, bytes)
            &&& target_of(bytes) == if i + 1 < segments.len() {
                Some(segments[i + 1].target)
            } else {
                next
            }
            &&& continued(segments[i].flags) <==> i + 1 < segments.len() || next is Some
        }
}

/// What a step appends, and what it asks for next.
proof fn lemma_step_links<E>(
    segments: Seq<ChainSegmentView>,
    target: ContinuationTarget,
    input: Seq<u8>,
    limits: RowSegmentChainLimits,
)
    ensures
        chain_step::<E>(segments, target, input, limits) matches Ok((longer, next)) ==> {
            &&& longer == segments.push(chain_segment(target, input))
            &&& next == target_of(input)
        },
{
    reveal(chain_step);
    if input.len() >= ROW_SEGMENT_HEADER_LEN {
        assert(input.take(input.len() as int) =~= input);
    }
}

proof fn lemma_chains_are_linked<E>(
    initial_target: ContinuationTarget,
    initial_bytes: Seq<u8>,
    limits: RowSegmentChainLimits,
    replies: Seq<Result<Vec<u8>, E>>,
)
    ensures
        walk_state(initial_target, initial_bytes, limits, replies) matches Ok((segments, next))
            ==> {
            &&& is_linked(segments, next, initial_bytes, replies)
            &&& next is Some ==> segments.len() == replies.len() + 1
        },
    decreases replies.len(),
{
    if replies.len() == 0 {
        lemma_step_links::<E>(Seq::empty(), initial_target, initial_bytes, limits);
    } else {
        let fewer = replies.drop_last();
        lemma_chains_are_linked(initial_target, initial_bytes, limits, fewer);
        if let Ok((shorter, pending)) = walk_state(initial_target, initial_bytes, limits, fewer) {
            assert forall|i: int| 0 <= i < shorter.len() implies #[trigger] arrived(
                initial_bytes,
                replies,
                i,
            ) == arrived(initial_bytes, fewer, i) by {}
            if let (Some(target), Ok(resolved)) = (pending, replies.last()) {
                lemma_step_links::<E>(shorter, target, resolved@, limits);
                if let Ok((segments, next)) = walk_state(
                    initial_target,
                    initial_bytes,
                    limits,
                    replies,
                ) {
                    assert forall|i: int| 0 <= i < segments.len() implies {
                        let bytes = arrived(initial_bytes, replies, i);
                        &&& #[trigger] segments[i] == chain_segment(segments[i].target, bytes)
                        &&& target_of(bytes) == if i + 1 < segments.len() {
                            Some(segments[i + 1].target)
                        } else {
                            next
                        }
                        &&& continued(segments[i].flags) <==> i + 1 < segments.len()
                            || next is Some
                    } by {
                        if i < shorter.len() {
                            assert(segments[i] == shorter[i]);
                            if i + 1 < shorter.len() {
                                assert(segments[i + 1] == shorter[i + 1]);
                            }
                        }
                    }
                }
            } else if pending is None {
                assert forall|i: int| 0 <= i < shorter.len() implies {
                    let bytes = arrived(initial_bytes, replies, i);
                    &&& #[trigger] shorter[i] == chain_segment(shorter[i].target, bytes)
                    &&& target_of(bytes) == if i + 1 < shorter.len() {
                        Some(shorter[i + 1].target)
                    } else {
                        pending
                    }
                    &&& continued(shorter[i].flags) <==> i + 1 < shorter.len() || pending is Some
                } by {
                    assert(arrived(initial_bytes, replies, i) == arrived(initial_bytes, fewer, i));
                }
            }
        }
    }
}

/// Whatever the resolver replies, a chain begins with the initial target, is
/// within both limits and never visits a target twice; nor is a target asked
/// for that it has visited.
///
/// Each segment but the last is continued, the last exactly where a target is
/// still to be asked for, and each is requested under the target that the
/// header before it names.
pub proof fn chains_are_bounded_and_free_of_cycles<E>(
    initial_target: ContinuationTarget,
    initial_bytes: Seq<u8>,
    limits: RowSegmentChainLimits,
    replies: Seq<Result<Vec<u8>, E>>,
)
    ensures
        walk_state(initial_target, initial_bytes, limits, replies) matches Ok((segments, next))
            ==> {
            &&& 1 <= segments.len() <= limits.max_segments
            &&& total_payload(segments) <= limits.max_total_payload_bytes
            &&& segments[0].target == initial_target
            &&& targets_are_distinct(segments)
            &&& next matches Some(target) ==> !visits(segments, target)
            &&& is_linked(segments, next, initial_bytes, replies)
            &&& next is Some ==> segments.len() == replies.len() + 1
        },
    decreases replies.len(),
{
    lemma_chains_are_linked(initial_target, initial_bytes, limits, replies);
    reveal(chain_step);
    if replies.len() > 0 {
        chains_are_bounded_and_free_of_cycles(
            initial_target,
            initial_bytes,
            limits,
            replies.drop_last(),
        );
    }
}

/// Whether `replies` are what a table answers to all requests of a walk, up to
/// its end.
pub open spec fn answered_by<E>(
    initial_target: ContinuationTarget,
    initial_bytes: Seq<u8>,
    limits: RowSegmentChainLimits,
    table: spec_fn(ContinuationTarget) -> Result<Vec<u8>, E>,
    replies: Seq<Result<Vec<u8>, E>>,
) -> bool {
    &&& walk_request(initial_target, initial_bytes, limits, replies) is None
    &&& forall|i: int|
        #![trigger replies[i]]
        0 <= i < replies.len() ==> {
            &&& walk_request(initial_target, initial_bytes, limits, replies.take(i)) matches Some(
                target,
            )
            &&& replies[i] == table(target)
        }
}

/// A resolver that answers from a table leaves only one walk: it gets the same
/// requests and gives the same replies, so that the walk ends alike.
pub proof fn walks_are_determined<E>(
    initial_target: ContinuationTarget,
    initial_bytes: Seq<u8>,
    limits: RowSegmentChainLimits,
    table: spec_fn(ContinuationTarget) -> Result<Vec<u8>, E>,
    first: Seq<Result<Vec<u8>, E>>,
    second: Seq<Result<Vec<u8>, E>>,
)
    requires
        answered_by(initial_target, initial_bytes, limits, table, first),
        answered_by(initial_target, initial_bytes, limits, table, second),
    ensures
        first == second,
{
    if first.len() <= second.len() {
        lemma_shorter_replies(initial_target, initial_bytes, limits, table, first, second);
    } else {
        lemma_shorter_replies(initial_target, initial_bytes, limits, table, second, first);
    }
}

proof fn lemma_shorter_replies<E>(
    initial_target: ContinuationTarget,
    initial_bytes: Seq<u8>,
    limits: RowSegmentChainLimits,
    table: spec_fn(ContinuationTarget) -> Result<Vec<u8>, E>,
    short: Seq<Result<Vec<u8>, E>>,
    long: Seq<Result<Vec<u8>, E>>,
)
    requires
        answered_by(initial_target, initial_bytes, limits, table, short),
        answered_by(initial_target, initial_bytes, limits, table, long),
        short.len() <= long.len(),
    ensures
        short == long,
{
    let n = short.len() as int;
    lemma_common_replies(initial_target, initial_bytes, limits, table, short, long, n);
    assert(short.take(n) =~= short);
    if n < long.len() {
        let reply = long[n];
        assert(walk_request(initial_target, initial_bytes, limits, long.take(n)) is Some);
        assert(false);
    }
    assert(long.take(n) =~= long);
}

proof fn lemma_common_replies<E>(
    initial_target: ContinuationTarget,
    initial_bytes: Seq<u8>,
    limits: RowSegmentChainLimits,
    table: spec_fn(ContinuationTarget) -> Result<Vec<u8>, E>,
    first: Seq<Result<Vec<u8>, E>>,
    second: Seq<Result<Vec<u8>, E>>,
    n: int,
)
    requires
        answered_by(initial_target, initial_bytes, limits, table, first),
        answered_by(initial_target, initial_bytes, limits, table, second),
        0 <= n <= first.len(),
        n <= second.len(),
    ensures
        first.take(n) == second.take(n),
    decreases n,
{
    if n > 0 {
        lemma_common_replies(initial_target, initial_bytes, limits, table, first, second, n - 1);
        assert(first[n - 1] == second[n - 1]);
        assert(first.take(n) =~= first.take(n - 1).push(first[n - 1]));
        assert(second.take(n) =~= second.take(n - 1).push(second[n - 1]));
    } else {
        assert(first.take(0) =~= second.take(0));
    }
}

} // verus!
