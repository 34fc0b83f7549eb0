//! Slotted-page directory parser.
//!
//! SA17 catalog and data pages use the classic slotted-page layout: a
//! header region at the start of the page, row bodies growing down from
//! near the page end, and a descending array of u16 row offsets that points
//! at each row body. Both little-endian and big-endian arrays occur in
//! QuickBooks Enterprise 24 files.
//!
//! Observed quirks:
//!
//! * the slot array may start on either byte alignment,
//! * a leading `0x0000` word may precede the first live offset,
//! * deleted slots appear as interior zero words,
//! * the bytes immediately before the array contain the minimum row
//!   offset and the slot count, but other fields are per-type.
use vstd::prelude::*;
use vstd::slice;

use crate::bytes;
use crate::page::{Page, PageView};

verus! {

/// Where the page trailer begins, and the last row ends.
pub const TRAILER_START: usize = 0xff0;

/// Where the search for a slot array ends.
pub const SEARCH_LIMIT: usize = 0x300;

/// The least row offset.
pub const SLOT_OFFSET_MIN: u16 = 0x20;

/// What every row offset is below.
pub const SLOT_OFFSET_MAX: u16 = 0xff0;

/// Number of live slots from which a directory is plausible.
pub const MIN_LIVE_SLOTS: usize = 8;

// ---------------------------------------------------------------------------
// Directories
// ---------------------------------------------------------------------------

/// Decoded slot directory.
#[derive(Debug, Clone)]
pub struct SlotDirectory {
    /// Byte offset at which scanning started (may be a sentinel).
    pub scan_start: usize,
    /// Byte offset of the first actual slot entry.
    pub array_start: usize,
    /// Byte offset immediately after the last slot entry.
    pub end: usize,
    /// All u16 slot entries, in array order. Zero entries represent
    /// deleted slots.
    pub slots: Vec<u16>,
    /// `true` iff a `0x0000` sentinel word preceded the array.
    pub leading_zero: bool,
    /// `true` when the slot words were stored in big-endian byte order.
    pub big_endian: bool,
}

/// What a slot directory says.
#[verifier::ext_equal]
pub ghost struct SlotDirectoryView {
    pub scan_start: int,
    pub array_start: int,
    pub end: int,
    pub slots: Seq<u16>,
    pub leading_zero: bool,
    pub big_endian: bool,
}

impl View for SlotDirectory {
    type V = SlotDirectoryView;

    open spec fn view(&self) -> SlotDirectoryView {
        SlotDirectoryView {
            scan_start: self.scan_start as int,
            array_start: self.array_start as int,
            end: self.end as int,
            slots: self.slots@,
            leading_zero: self.leading_zero,
            big_endian: self.big_endian,
        }
    }
}

/// The live slots of an array, in order.
pub open spec fn live(slots: Seq<u16>) -> Seq<u16> {
    slots.filter(|slot: u16| slot != 0)
}

/// Whether the slot at `k` is deleted: a zero between live slots.
pub open spec fn deleted(slots: Seq<u16>, k: int) -> bool {
    &&& slots[k] == 0
    &&& exists|i: int| 0 <= i < k && #[trigger] slots[i] != 0
    &&& exists|j: int| k < j < slots.len() && #[trigger] slots[j] != 0
}

/// The indices below `n` of deleted slots, in order.
pub open spec fn deleted_below(slots: Seq<u16>, n: int) -> Seq<int> {
    Seq::new(n as nat, |k: int| k).filter(|k: int| deleted(slots, k))
}

impl SlotDirectory {
    /// Live (non-deleted) row offsets.
    pub fn live_slots(&self) -> (offsets: Vec<u16>)
        ensures
            offsets@ == live(self@.slots),
    {
        let mut offsets: Vec<u16> = Vec::new();
        let mut index: usize = 0;
        proof {
            reveal(Seq::filter);
            assert(self.slots@.take(0) =~= Seq::empty());
        }
        while index < self.slots.len()
            invariant
                index <= self.slots@.len(),
                offsets@ == live(self.slots@.take(index as int)),
            decreases self.slots@.len() - index,
        {
            proof {
                lemma_live_push(self.slots@, index as int);
            }
            if self.slots[index] != 0 {
                offsets.push(self.slots[index]);
            }
            index = index + 1;
        }
        assert(self.slots@.take(index as int) =~= self.slots@);
        offsets
    }

    /// Number of live slots.
    pub fn live_count(&self) -> (count: usize)
        ensures
            count == live(self@.slots).len(),
            count <= self@.slots.len(),
    {
        let mut count: usize = 0;
        let mut index: usize = 0;
        proof {
            reveal(Seq::filter);
            assert(self.slots@.take(0) =~= Seq::empty());
        }
        while index < self.slots.len()
            invariant
                index <= self.slots@.len(),
                count <= index,
                count == live(self.slots@.take(index as int)).len(),
            decreases self.slots@.len() - index,
        {
            proof {
                lemma_live_push(self.slots@, index as int);
            }
            if self.slots[index] != 0 {
                count = count + 1;
            }
            index = index + 1;
        }
        assert(self.slots@.take(index as int) =~= self.slots@);
        count
    }

    /// Number of deleted (zero) slots between live entries.
    pub fn deleted_count(&self) -> (count: usize)
        ensures
            count == deleted_below(self@.slots, self@.slots.len() as int).len(),
    {
        let last_live: usize = self.last_live_index();
        let mut seen_live: bool = false;
        let mut count: usize = 0;
        let mut index: usize = 0;
        proof {
            reveal(Seq::filter);
        }
        while index < self.slots.len()
            invariant
                index <= self.slots@.len(),
                last_live > 0 ==> last_live < self.slots@.len() && self.slots@[last_live as int]
                    != 0,
                forall|j: int|
                    last_live < j < self.slots@.len() ==> #[trigger] self.slots@[j] == 0,
                seen_live <==> exists|i: int| 0 <= i < index && #[trigger] self.slots@[i] != 0,
                count <= index,
                count == deleted_below(self.slots@, index as int).len(),
            decreases self.slots@.len() - index,
        {
            proof {
                lemma_deleted_below(self.slots@, index as int);
            }
            if self.slots[index] != 0 {
                seen_live = true;
            } else if seen_live && index < last_live {
                count = count + 1;
            }
            index = index + 1;
        }
        count
    }

    /// Index of the last live slot, or zero where there is none.
    fn last_live_index(&self) -> (last: usize)
        ensures
            last > 0 ==> last < self@.slots.len() && self@.slots[last as int] != 0,
            forall|j: int| last < j < self@.slots.len() ==> #[trigger] self@.slots[j] == 0,
    {
        let mut last: usize = 0;
        let mut index: usize = 0;
        while index < self.slots.len()
            invariant
                index <= self.slots@.len(),
                last > 0 ==> last < index && self.slots@[last as int] != 0,
                forall|j: int| last < j < index ==> #[trigger] self.slots@[j] == 0,
            decreases self.slots@.len() - index,
        {
            if self.slots[index] != 0 {
                last = index;
            }
            index = index + 1;
        }
        last
    }

    /// Minimum live row offset, if any.
    pub fn min_offset(&self) -> (offset: Option<u16>)
        ensures
            match offset {
                Some(least) => least != 0 && self@.slots.contains(least) && forall|i: int|
                    0 <= i < self@.slots.len() && self@.slots[i] != 0 ==> least
                        <= #[trigger] self@.slots[i],
                None => forall|i: int|
                    0 <= i < self@.slots.len() ==> #[trigger] self@.slots[i] == 0,
            },
    {
        let mut least: Option<u16> = None;
        let mut index: usize = 0;
        while index < self.slots.len()
            invariant
                index <= self.slots@.len(),
                match least {
                    Some(least) => least != 0 && self.slots@.contains(least) && forall|i: int|
                        0 <= i < index && self.slots@[i] != 0 ==> least
                            <= #[trigger] self.slots@[i],
                    None => forall|i: int| 0 <= i < index ==> #[trigger] self.slots@[i] == 0,
                },
            decreases self.slots@.len() - index,
        {
            let slot: u16 = self.slots[index];
            if slot != 0 {
                least = match least {
                    Some(least) => if slot < least {
                        Some(slot)
                    } else {
                        Some(least)
                    },
                    None => Some(slot),
                };
            }
            index = index + 1;
        }
        least
    }
}

/// How one more slot changes the live ones.
pub(crate) proof fn lemma_live_push(slots: Seq<u16>, n: int)
    requires
        0 <= n < slots.len(),
    ensures
        live(slots.take(n + 1)) == if slots[n] != 0 {
            live(slots.take(n)).push(slots[n])
        } else {
            live(slots.take(n))
        },
{
    reveal(Seq::filter);
    assert(slots.take(n + 1).drop_last() =~= slots.take(n));
}

/// How one more slot changes the deleted ones.
pub(crate) proof fn lemma_deleted_below(slots: Seq<u16>, n: int)
    requires
        0 <= n,
    ensures
        deleted_below(slots, n + 1) == if deleted(slots, n) {
            deleted_below(slots, n).push(n)
        } else {
            deleted_below(slots, n)
        },
{
    reveal(Seq::filter);
    assert(Seq::new((n + 1) as nat, |k: int| k).drop_last() =~= Seq::new(n as nat, |k: int| k));
}

/// Some slot is live where there are live slots.
proof fn lemma_live_exists(slots: Seq<u16>)
    requires
        live(slots).len() > 0,
    ensures
        exists|i: int| 0 <= i < slots.len() && #[trigger] slots[i] != 0,
    decreases slots.len(),
{
    reveal(Seq::filter);
    if slots.len() > 0 {
        if slots.last() == 0 {
            lemma_live_exists(slots.drop_last());
            let i = choose|i: int| 0 <= i < slots.len() - 1 && slots.drop_last()[i] != 0;
            assert(slots[i] != 0);
        } else {
            assert(slots[slots.len() - 1] != 0);
        }
    }
}

// ---------------------------------------------------------------------------
// Scanning
// ---------------------------------------------------------------------------

/// The word at `at` in the given byte order.
pub open spec fn word_at(plain: Seq<u8>, at: int, big_endian: bool) -> u16 {
    if big_endian {
        bytes::be16(plain, at) as u16
    } else {
        bytes::le16(plain, at) as u16
    }
}

/// Whether a word can be a row offset.
pub open spec fn slot_offset(value: u16) -> bool {
    SLOT_OFFSET_MIN <= value < SLOT_OFFSET_MAX
}

/// Whether `value` continues an array of `slots`: a zero after some live slot,
/// or a row offset below every live slot.
pub open spec fn continues(slots: Seq<u16>, value: u16) -> bool {
    if value == 0 {
        exists|i: int| 0 <= i < slots.len() && #[trigger] slots[i] != 0
    } else {
        slot_offset(value) && forall|i: int|
            0 <= i < slots.len() && #[trigger] slots[i] != 0 ==> value < slots[i]
    }
}

/// The array that begins at `at` with `slots`: these and all words that
/// continue it in turn.
pub open spec fn slot_run(plain: Seq<u8>, at: int, big_endian: bool, slots: Seq<u16>) -> Seq<u16>
    decreases SEARCH_LIMIT - at - 2 * slots.len(),
{
    let position = at + 2 * slots.len();
    let value = word_at(plain, position, big_endian);
    if position + 1 < SEARCH_LIMIT && continues(slots, value) {
        slot_run(plain, at, big_endian, slots.push(value))
    } else {
        slots
    }
}

/// Whether a zero word at `start` precedes a row offset.
pub open spec fn has_leading_zero(plain: Seq<u8>, start: int, big_endian: bool) -> bool {
    &&& start + 3 < SEARCH_LIMIT
    &&& word_at(plain, start, big_endian) == 0
    &&& slot_offset(word_at(plain, start + 2, big_endian))
}

/// Whether some live slot points before `end`.
pub open spec fn overlaps(slots: Seq<u16>, end: int) -> bool {
    exists|i: int| 0 <= i < slots.len() && #[trigger] slots[i] != 0 && slots[i] < end
}

/// The directory that scanning from `start` finds, if it is plausible: it has
/// enough live slots, and none of them points into the directory or before it.
pub open spec fn directory_at(plain: Seq<u8>, start: int, big_endian: bool) -> Option<
    SlotDirectoryView,
> {
    let leading_zero = has_leading_zero(plain, start, big_endian);
    let array_start = if leading_zero {
        start + 2
    } else {
        start
    };
    let slots = slot_run(plain, array_start, big_endian, Seq::empty());
    let end = array_start + 2 * slots.len();
    if live(slots).len() < MIN_LIVE_SLOTS || overlaps(slots, end) {
        None
    } else {
        Some(
            SlotDirectoryView {
                scan_start: start,
                array_start,
                end,
                slots,
                leading_zero,
                big_endian,
            },
        )
    }
}

/// A directory as a specification sees it.
pub open spec fn directory_view(directory: Option<SlotDirectory>) -> Option<SlotDirectoryView> {
    match directory {
        Some(directory) => Some(directory@),
        None => None,
    }
}

fn read_word(plain: &[u8], at: usize, big_endian: bool) -> (value: u16)
    requires
        at + 1 < plain@.len(),
    ensures
        value == word_at(plain@, at as int, big_endian),
{
    if big_endian {
        bytes::read_be16(plain, at)
    } else {
        bytes::read_le16(plain, at)
    }
}

fn is_slot_offset(value: u16) -> (r: bool)
    ensures
        r == slot_offset(value),
{
    SLOT_OFFSET_MIN <= value && value < SLOT_OFFSET_MAX
}

/// Scan for a slot directory that begins at `start`.
pub fn scan_from(plain: &[u8], start: usize, big_endian: bool) -> (directory: Option<SlotDirectory>)
    requires
        SEARCH_LIMIT <= plain@.len(),
        start <= usize::MAX - 3,
    ensures
        directory_view(directory) == directory_at(plain@, start as int, big_endian),
{
    let leading_zero: bool = start + 3 < SEARCH_LIMIT && read_word(plain, start, big_endian) == 0
        && is_slot_offset(read_word(plain, start + 2, big_endian));
    let array_start: usize = if leading_zero {
        start + 2
    } else {
        start
    };
    let ghost run = slot_run(plain@, array_start as int, big_endian, Seq::empty());
    let mut slots: Vec<u16> = Vec::new();
    let mut position: usize = array_start;
    let mut previous: u32 = 0x10000;
    let mut seen_live: bool = false;
    let ghost mut last_live: int = 0;
    while position + 1 < SEARCH_LIMIT
        invariant
            SEARCH_LIMIT <= plain@.len(),
            position < usize::MAX,
            position == array_start + 2 * slots@.len(),
            run == slot_run(plain@, array_start as int, big_endian, slots@),
            !seen_live ==> slots@.len() == 0 && previous == 0x10000,
            seen_live ==> 0 <= last_live < slots@.len() && slots@[last_live] == previous
                && previous != 0,
            forall|i: int|
                0 <= i < slots@.len() && #[trigger] slots@[i] != 0 ==> previous <= slots@[i],
        ensures
            run == slots@,
        decreases SEARCH_LIMIT - position,
    {
        let value: u16 = read_word(plain, position, big_endian);
        if value == 0 && seen_live {
            slots.push(0);
            position = position + 2;
        } else if is_slot_offset(value) && (value as u32) < previous {
            slots.push(value);
            previous = value as u32;
            seen_live = true;
            position = position + 2;
            proof {
                last_live = slots@.len() - 1;
            }
        } else {
            break ;
        }
    }
    let directory: SlotDirectory = SlotDirectory {
        scan_start: start,
        array_start,
        end: position,
        slots,
        leading_zero,
        big_endian,
    };
    if directory.live_count() < MIN_LIVE_SLOTS {
        return None;
    }
    proof {
        lemma_live_exists(directory.slots@);
    }
    // A slot directory lives before the row bodies it describes.  Without
    // this check, arbitrary low-valued u16 sequences can look like a valid
    // descending directory even though the directory itself overwrites the
    // first purported row.
    match directory.min_offset() {
        Some(least) => if position > least as usize {
            proof {
                let i = choose|i: int| 0 <= i < run.len() && run[i] == least;
                assert(run[i] != 0 && run[i] < position);
                assert(overlaps(run, position as int));
            }
            None
        } else {
            assert(directory@ =~= directory_at(plain@, start as int, big_endian)->Some_0);
            Some(directory)
        },
        None => None,
    }
}

// ---------------------------------------------------------------------------
// Choosing a directory
// ---------------------------------------------------------------------------

/// Number of candidates: each start in both byte orders.
pub open spec fn candidate_count() -> int {
    2 * SEARCH_LIMIT
}

/// The candidate with the given number: starts ascend, and little-endian comes
/// before big-endian.
pub open spec fn candidate(plain: Seq<u8>, number: int) -> Option<SlotDirectoryView> {
    directory_at(plain, number / 2, number % 2 == 1)
}

/// Whether a directory has more live slots, or as many and more slots.
pub open spec fn better(a: SlotDirectoryView, b: SlotDirectoryView) -> bool {
    let live_a = live(a.slots).len();
    let live_b = live(b.slots).len();
    live_a > live_b || (live_a == live_b && a.slots.len() > b.slots.len())
}

/// Whether the candidate with the given number exists, is better than every
/// earlier candidate and no later one is better.
pub open spec fn is_best(plain: Seq<u8>, number: int, count: int) -> bool {
    &&& 0 <= number < count
    &&& candidate(plain, number) is Some
    &&& forall|i: int|
        0 <= i < number ==> (#[trigger] candidate(plain, i) matches Some(other) ==> better(
            candidate(plain, number)->Some_0,
            other,
        ))
    &&& forall|i: int|
        number < i < count ==> (#[trigger] candidate(plain, i) matches Some(other) ==> !better(
            other,
            candidate(plain, number)->Some_0,
        ))
}

/// Whether `found` is the first of the best among the first `count` candidates,
/// or there is none.
pub open spec fn is_best_directory(
    plain: Seq<u8>,
    found: Option<SlotDirectoryView>,
    count: int,
) -> bool {
    match found {
        Some(directory) => exists|number: int|
            #[trigger] is_best(plain, number, count) && candidate(plain, number) == Some(directory),
        None => forall|number: int|
            0 <= number < count ==> #[trigger] candidate(plain, number) is None,
    }
}

/// Find the best plausible slot directory of a plaintext page.
pub fn find_slot_directory(plain: &[u8]) -> (found: Option<SlotDirectory>)
    requires
        SEARCH_LIMIT <= plain@.len(),
    ensures
        is_best_directory(plain@, directory_view(found), candidate_count()),
{
    let mut best: Option<SlotDirectory> = None;
    let mut number: usize = 0;
    while number < 2 * SEARCH_LIMIT
        invariant
            SEARCH_LIMIT <= plain@.len(),
            number <= 2 * SEARCH_LIMIT,
            is_best_directory(plain@, directory_view(best), number as int),
        decreases 2 * SEARCH_LIMIT - number,
    {
        let ghost before = directory_view(best);
        // Little-endian comes first, so that it wins on pages where both
        // interpretations are equally plausible.
        let scanned: Option<SlotDirectory> = scan_from(plain, number / 2, number % 2 == 1);
        let ghost found = candidate(plain@, number as int);
        assert(directory_view(scanned) == found);
        best = match (scanned, best) {
            (None, best) => best,
            (Some(directory), None) => Some(directory),
            (Some(directory), Some(other)) => {
                let live_count: usize = directory.live_count();
                let other_live_count: usize = other.live_count();
                if live_count > other_live_count || (live_count == other_live_count
                    && directory.slots.len() > other.slots.len()) {
                    Some(directory)
                } else {
                    Some(other)
                }
            },
        };
        proof {
            lemma_next_candidate(plain@, before, directory_view(best), number as int);
        }
        number = number + 1;
    }
    best
}

/// How one more candidate changes the best one.
proof fn lemma_next_candidate(
    plain: Seq<u8>,
    before: Option<SlotDirectoryView>,
    after: Option<SlotDirectoryView>,
    count: int,
)
    requires
        0 <= count,
        is_best_directory(plain, before, count),
        after == match (candidate(plain, count), before) {
            (None, before) => before,
            (Some(directory), None) => Some(directory),
            (Some(directory), Some(other)) => if better(directory, other) {
                Some(directory)
            } else {
                Some(other)
            },
        },
    ensures
        is_best_directory(plain, after, count + 1),
{
    match (candidate(plain, count), before) {
        (Some(directory), Some(other)) => {
            let number = choose|number: int| #[trigger]
                is_best(plain, number, count) && candidate(plain, number) == Some(other);
            if better(directory, other) {
                assert(is_best(plain, count, count + 1));
            } else {
                assert(is_best(plain, number, count + 1));
            }
        },
        (None, Some(other)) => {
            let number = choose|number: int| #[trigger]
                is_best(plain, number, count) && candidate(plain, number) == Some(other);
            assert(is_best(plain, number, count + 1));
        },
        (Some(_), None) => {
            assert(is_best(plain, count, count + 1));
        },
        (None, None) => {},
    }
}

// ---------------------------------------------------------------------------
// Rows
// ---------------------------------------------------------------------------

/// A page that has been parsed for its slotted-directory layout.
#[derive(Debug, Clone)]
pub struct SlottedPage<'a> {
    /// The underlying page.
    pub page: Page<'a>,
    /// The directory, if one was found.
    pub directory: Option<SlotDirectory>,
}

/// What a slotted page says.
#[verifier::ext_equal]
pub ghost struct SlottedPageView {
    pub page: PageView,
    pub directory: Option<SlotDirectoryView>,
}

impl<'a> View for SlottedPage<'a> {
    type V = SlottedPageView;

    open spec fn view(&self) -> SlottedPageView {
        SlottedPageView { page: self.page@, directory: directory_view(self.directory) }
    }
}

/// The least of the first `n` slots above an offset.
pub open spec fn next_above(slots: Seq<u16>, offset: u16, n: int) -> Option<u16>
    decreases n,
{
    if n <= 0 {
        None
    } else {
        let slot = slots[n - 1];
        match next_above(slots, offset, n - 1) {
            None => if slot > offset {
                Some(slot)
            } else {
                None
            },
            Some(least) => if offset < slot < least {
                Some(slot)
            } else {
                Some(least)
            },
        }
    }
}

/// Where the row at an offset ends: at the next row, or at the trailer.
pub open spec fn row_end(slots: Seq<u16>, offset: u16) -> int {
    match next_above(slots, offset, slots.len() as int) {
        Some(next) => next as int,
        None => TRAILER_START as int,
    }
}

/// Whether the row at an offset is not empty and ends before the trailer.
pub open spec fn has_row(slots: Seq<u16>, offset: u16) -> bool {
    offset < row_end(slots, offset) <= TRAILER_START
}

/// The live rows of the first `n` slots: directory index, offset and bytes.
pub open spec fn rows_of(page: Seq<u8>, slots: Seq<u16>, n: int) -> Seq<(int, u16, Seq<u8>)>
    decreases n,
{
    if n <= 0 {
        Seq::empty()
    } else {
        let before = rows_of(page, slots, n - 1);
        let offset = slots[n - 1];
        if offset != 0 && has_row(slots, offset) {
            before.push((n - 1, offset, page.subrange(offset as int, row_end(slots, offset))))
        } else {
            before
        }
    }
}

/// All live rows of a slotted page.
pub open spec fn all_rows(page: SlottedPageView) -> Seq<(int, u16, Seq<u8>)> {
    match page.directory {
        Some(directory) => rows_of(
            page.page.bytes,
            directory.slots,
            directory.slots.len() as int,
        ),
        None => Seq::empty(),
    }
}

/// Rows with their directory index as a specification sees them.
pub open spec fn row_slot_views(rows: Seq<(usize, u16, &[u8])>) -> Seq<(int, u16, Seq<u8>)> {
    Seq::new(rows.len(), |i: int| (rows[i].0 as int, rows[i].1, rows[i].2@))
}

/// Rows as a specification sees them.
pub open spec fn row_views(rows: Seq<(u16, &[u8])>) -> Seq<(u16, Seq<u8>)> {
    Seq::new(rows.len(), |i: int| (rows[i].0, rows[i].1@))
}

/// The bytes before the directory of a slotted page, unless all are zero.
pub open spec fn prefix_of(page: SlottedPageView) -> Option<Seq<u8>> {
    match page.directory {
        None => None,
        Some(directory) => {
            let prefix = page.page.bytes.take(directory.array_start);
            if forall|i: int| 0 <= i < prefix.len() ==> #[trigger] prefix[i] == 0 {
                None
            } else {
                Some(prefix)
            }
        },
    }
}

/// Optional bytes as a specification sees them.
pub open spec fn bytes_view(bytes: Option<&[u8]>) -> Option<Seq<u8>> {
    match bytes {
        Some(bytes) => Some(bytes@),
        None => None,
    }
}

/// Where the row at an offset ends.
fn find_row_end(slots: &Vec<u16>, offset: u16) -> (end: usize)
    ensures
        end == row_end(slots@, offset),
{
    let mut least: Option<u16> = None;
    let mut index: usize = 0;
    while index < slots.len()
        invariant
            index <= slots@.len(),
            least == next_above(slots@, offset, index as int),
        decreases slots@.len() - index,
    {
        let slot: u16 = slots[index];
        if slot > offset {
            least = match least {
                None => Some(slot),
                Some(least) => if slot < least {
                    Some(slot)
                } else {
                    Some(least)
                },
            };
        }
        index = index + 1;
    }
    match least {
        Some(next) => next as usize,
        None => TRAILER_START,
    }
}

impl<'a> SlottedPage<'a> {
    /// Scan `page` for a plausible descending slot directory. The page
    /// contents must already be plaintext (any QBW-style obfuscation must
    /// be removed by the caller).
    pub fn parse(page: Page<'a>) -> (slotted: Self)
        ensures
            slotted@.page == page@,
            is_best_directory(page@.bytes, slotted@.directory, candidate_count()),
            slotted@.directory matches Some(directory) ==> directory.array_start <= SEARCH_LIMIT
                <= slotted@.page.bytes.len(),
    {
        let directory: Option<SlotDirectory> = find_slot_directory(page.bytes());
        SlottedPage { page, directory }
    }

    /// Return the raw row bytes for each live slot, in array order.
    ///
    /// Row boundaries are inferred from the (descending) offsets of the
    /// neighbouring slot and the start of the trailer. This is a
    /// best-effort slicing - it does not yet decode any row header.
    pub fn row_bytes(&self) -> (rows: Vec<(u16, &'a [u8])>)
        ensures
            row_views(rows@) == all_rows(self@).map_values(
                |row: (int, u16, Seq<u8>)| (row.1, row.2),
            ),
    {
        let slots: Vec<(usize, u16, &'a [u8])> = self.row_slots();
        let mut rows: Vec<(u16, &'a [u8])> = Vec::new();
        let mut index: usize = 0;
        while index < slots.len()
            invariant
                index <= slots@.len(),
                rows@.len() == index,
                forall|i: int|
                    0 <= i < index ==> (#[trigger] rows@[i]).0 == slots@[i].1 && rows@[i].1
                        == slots@[i].2,
            decreases slots@.len() - index,
        {
            let (_, offset, bytes): (usize, u16, &'a [u8]) = slots[index];
            rows.push((offset, bytes));
            index = index + 1;
        }
        proof {
            let all = all_rows(self@);
            assert forall|i: int| 0 <= i < rows@.len() implies #[trigger] row_views(rows@)[i] == (
                all[i].1,
                all[i].2,
            ) by {
                assert(row_slot_views(slots@)[i] == all[i]);
            }
            assert(row_slot_views(slots@).len() == all.len());
            assert(row_views(rows@) =~= all.map_values(
                |row: (int, u16, Seq<u8>)| (row.1, row.2),
            ));
        }
        rows
    }

    /// Return each live row with its original zero-based directory index,
    /// offset, and bytes in slot-array order.
    ///
    /// This is the diagnostic-safe variant of [`Self::row_bytes`]: deleted
    /// zero entries are omitted from its results but still count toward later
    /// `slot_index` values.
    pub fn row_slots(&self) -> (rows: Vec<(usize, u16, &'a [u8])>)
        ensures
            row_slot_views(rows@) == all_rows(self@),
    {
        let mut rows: Vec<(usize, u16, &'a [u8])> = Vec::new();
        assert(row_slot_views(rows@) =~= Seq::empty());
        let bytes: &'a [u8] = self.page.bytes();
        if let Some(directory) = &self.directory {
            let mut index: usize = 0;
            while index < directory.slots.len()
                invariant
                    index <= directory.slots@.len(),
                    bytes@ == self@.page.bytes,
                    TRAILER_START <= bytes@.len(),
                    row_slot_views(rows@) == rows_of(bytes@, directory.slots@, index as int),
                decreases directory.slots@.len() - index,
            {
                let ghost before = row_slot_views(rows@);
                let offset: u16 = directory.slots[index];
                let end: usize = find_row_end(&directory.slots, offset);
                let start: usize = offset as usize;
                if offset != 0 && start < end && end <= TRAILER_START {
                    let row: &'a [u8] = slice::slice_subrange(bytes, start, end);
                    rows.push((index, offset, row));
                    assert(row_slot_views(rows@) =~= before.push((index as int, offset, row@)));
                }
                index = index + 1;
            }
        }
        rows
    }

    /// Return the non-zero page prefix before the slot directory, if present.
    ///
    /// This region can contain ordinary page header or prelude metadata. The
    /// presence of non-zero bytes alone is not evidence of a row continuation,
    /// and callers must retain it as unclassified physical structure unless an
    /// independent format witness establishes stronger semantics. No slot
    /// points to this region, so it is invisible to [`SlottedPage::row_bytes`].
    ///
    /// Returns `Some(bytes)` when the bytes before the slot directory are
    /// non-zero. Returns `None` when there is no slot directory or the prefix
    /// region is all zeros.
    pub fn unclassified_prefix(&self) -> (prefix: Option<&'a [u8]>)
        requires
            self@.directory matches Some(directory) ==> directory.array_start
                <= self@.page.bytes.len(),
        ensures
            bytes_view(prefix) == prefix_of(self@),
    {
        let bytes: &'a [u8] = self.page.bytes();
        match &self.directory {
            None => None,
            Some(directory) => {
                let end: usize = directory.array_start;
                let prefix: &'a [u8] = slice::slice_subrange(bytes, 0, end);
                assert(prefix@ =~= bytes@.take(end as int));
                let mut index: usize = 0;
                while index < end
                    invariant
                        index <= end,
                        end == prefix@.len(),
                        prefix@ == self@.page.bytes.take(end as int),
                        self@.directory matches Some(directory) && directory.array_start == end,
                        forall|i: int| 0 <= i < index ==> #[trigger] prefix@[i] == 0,
                    decreases end - index,
                {
                    if prefix[index] != 0 {
                        return Some(prefix);
                    }
                    index = index + 1;
                }
                None
            },
        }
    }

    /// Another name for [`Self::unclassified_prefix`].
    ///
    /// Non-zero prefix bytes are not, by themselves, continuation evidence.
    pub fn overflow_prefix(&self) -> (prefix: Option<&'a [u8]>)
        requires
            self@.directory matches Some(directory) ==> directory.array_start
                <= self@.page.bytes.len(),
        ensures
            bytes_view(prefix) == prefix_of(self@),
    {
        self.unclassified_prefix()
    }
}

// ---------------------------------------------------------------------------
// Laws
// ---------------------------------------------------------------------------

/// Whether `slots` are the words from `at` on and each continues those before
/// it.
pub open spec fn is_run(plain: Seq<u8>, at: int, big_endian: bool, slots: Seq<u16>) -> bool {
    forall|i: int|
        0 <= i < slots.len() ==> {
            &&& #[trigger] slots[i] == word_at(plain, at + 2 * i, big_endian)
            &&& continues(slots.take(i), slots[i])
            &&& at + 2 * i + 1 < SEARCH_LIMIT
        }
}

pub(crate) proof fn lemma_slot_run(plain: Seq<u8>, at: int, big_endian: bool, slots: Seq<u16>)
    requires
        is_run(plain, at, big_endian, slots),
    ensures
        is_run(plain, at, big_endian, slot_run(plain, at, big_endian, slots)),
    decreases SEARCH_LIMIT - at - 2 * slots.len(),
{
    let position = at + 2 * slots.len();
    let value = word_at(plain, position, big_endian);
    if position + 1 < SEARCH_LIMIT && continues(slots, value) {
        let longer = slots.push(value);
        assert forall|i: int| 0 <= i < longer.len() implies {
            &&& #[trigger] longer[i] == word_at(plain, at + 2 * i, big_endian)
            &&& continues(longer.take(i), longer[i])
            &&& at + 2 * i + 1 < SEARCH_LIMIT
        } by {
            assert(longer.take(i) =~= slots.take(i));
            assert(slots.take(slots.len() as int) =~= slots);
            if i < slots.len() {
                assert(longer[i] == slots[i]);
            }
        }
        lemma_slot_run(plain, at, big_endian, longer);
    }
}

/// A found directory consists of the words between its bounds; its live slots
/// descend, are row offsets, are enough, and point after the directory.
pub proof fn directories_descend_and_precede_their_rows(
    plain: Seq<u8>,
    start: int,
    big_endian: bool,
)
    requires
        0 <= start < SEARCH_LIMIT,
        directory_at(plain, start, big_endian) is Some,
    ensures
        ({
            let directory = directory_at(plain, start, big_endian)->Some_0;
            let slots = directory.slots;
            &&& directory.end == directory.array_start + 2 * slots.len()
            &&& directory.end <= SEARCH_LIMIT
            &&& live(slots).len() >= MIN_LIVE_SLOTS
            &&& forall|i: int|
                0 <= i < slots.len() ==> #[trigger] slots[i] == word_at(
                    plain,
                    directory.array_start + 2 * i,
                    big_endian,
                )
            &&& forall|i: int|
                0 <= i < slots.len() && #[trigger] slots[i] != 0 ==> slot_offset(slots[i])
                    && directory.end <= slots[i]
            &&& forall|i: int, j: int|
                0 <= i < j < slots.len() && #[trigger] slots[i] != 0 && #[trigger] slots[j] != 0
                    ==> slots[i] > slots[j]
            &&& slots[0] != 0
        }),
{
    let directory = directory_at(plain, start, big_endian)->Some_0;
    let slots = directory.slots;
    lemma_slot_run(plain, directory.array_start, big_endian, Seq::empty());
    assert(slots.len() > 0) by {
        reveal(Seq::filter);
    }
    assert forall|i: int, j: int|
        0 <= i < j < slots.len() && #[trigger] slots[i] != 0 && #[trigger] slots[j] != 0 implies
        slots[i] > slots[j] by {
        assert(continues(slots.take(j), slots[j]));
        assert(slots.take(j)[i] == slots[i]);
    }
    assert(slots[slots.len() - 1] == word_at(
        plain,
        directory.array_start + 2 * (slots.len() - 1),
        big_endian,
    ));
    assert(continues(slots.take(0), slots[0]));
}

pub(crate) proof fn lemma_next_above(slots: Seq<u16>, offset: u16, n: int)
    requires
        0 <= n <= slots.len(),
    ensures
        match next_above(slots, offset, n) {
            Some(least) => {
                &&& least > offset
                &&& exists|i: int| 0 <= i < n && #[trigger] slots[i] == least
                &&& forall|i: int|
                    0 <= i < n && #[trigger] slots[i] > offset ==> least <= slots[i]
            },
            None => forall|i: int| 0 <= i < n ==> #[trigger] slots[i] <= offset,
        },
    decreases n,
{
    if n > 0 {
        lemma_next_above(slots, offset, n - 1);
        assert(slots[n - 1] == slots[n - 1]);
    }
}

/// Every live slot of a found directory has a row. It begins at the slot's
/// offset, after the directory, and ends before the row of any earlier live
/// slot and before the trailer.
pub proof fn rows_follow_the_directory_and_are_disjoint(
    plain: Seq<u8>,
    start: int,
    big_endian: bool,
    index: int,
)
    requires
        0 <= start < SEARCH_LIMIT,
        directory_at(plain, start, big_endian) is Some,
        0 <= index < directory_at(plain, start, big_endian)->Some_0.slots.len(),
        directory_at(plain, start, big_endian)->Some_0.slots[index] != 0,
    ensures
        ({
            let directory = directory_at(plain, start, big_endian)->Some_0;
            let slots = directory.slots;
            &&& has_row(slots, slots[index])
            &&& directory.end <= slots[index] < row_end(slots, slots[index]) <= TRAILER_START
            &&& forall|i: int|
                0 <= i < index && #[trigger] slots[i] != 0 ==> row_end(slots, slots[index])
                    <= slots[i]
        }),
{
    let slots = directory_at(plain, start, big_endian)->Some_0.slots;
    directories_descend_and_precede_their_rows(plain, start, big_endian);
    lemma_next_above(slots, slots[index], slots.len() as int);
}

/// The rows of a found directory are those of its live slots, in array order.
pub proof fn every_live_slot_has_its_row(plain: Seq<u8>, start: int, big_endian: bool)
    requires
        0 <= start < SEARCH_LIMIT,
        directory_at(plain, start, big_endian) is Some,
    ensures
        ({
            let slots = directory_at(plain, start, big_endian)->Some_0.slots;
            rows_of(plain, slots, slots.len() as int).map_values(
                |row: (int, u16, Seq<u8>)| row.1,
            ) == live(slots)
        }),
{
    let slots = directory_at(plain, start, big_endian)->Some_0.slots;
    assert forall|i: int| 0 <= i < slots.len() && #[trigger] slots[i] != 0 implies has_row(
        slots,
        slots[i],
    ) by {
        rows_follow_the_directory_and_are_disjoint(plain, start, big_endian, i);
    }
    lemma_row_offsets(plain, slots, slots.len() as int);
    assert(slots.take(slots.len() as int) =~= slots);
}

proof fn lemma_row_offsets(plain: Seq<u8>, slots: Seq<u16>, n: int)
    requires
        0 <= n <= slots.len(),
        forall|i: int|
            0 <= i < slots.len() && #[trigger] slots[i] != 0 ==> has_row(slots, slots[i]),
    ensures
        rows_of(plain, slots, n).map_values(|row: (int, u16, Seq<u8>)| row.1) == live(
            slots.take(n),
        ),
    decreases n,
{
    let offset_of = |row: (int, u16, Seq<u8>)| row.1;
    if n > 0 {
        lemma_row_offsets(plain, slots, n - 1);
        lemma_live_push(slots, n - 1);
        let before = rows_of(plain, slots, n - 1);
        if slots[n - 1] != 0 {
            assert(rows_of(plain, slots, n).map_values(offset_of) =~= before.map_values(
                offset_of,
            ).push(slots[n - 1]));
        }
    } else {
        reveal(Seq::filter);
        assert(rows_of(plain, slots, n).map_values(offset_of) =~= live(slots.take(n)));
    }
}

} // verus!
