//! Slot directories and rows, told by the words of a page.
//!
//! [`crate::slotted`] says how a directory is scanned for. Here a directory is
//! told by what its words must be and by where it must end, the chosen one by
//! what no other directory exceeds, and the rows by the slots around them.
use vstd::prelude::*;

use crate::slotted;
use crate::slotted::{SlotDirectoryView, SlottedPageView};

verus! {

// ---------------------------------------------------------------------------
// Arrays
// ---------------------------------------------------------------------------

/// The number that two bytes spell in either byte order.
pub open spec fn spelled_word(plain: Seq<u8>, at: int, big_endian: bool) -> int {
    if big_endian {
        0x100 * plain[at] + plain[at + 1]
    } else {
        plain[at] + 0x100 * plain[at + 1]
    }
}

/// Whether a number can be the offset of a row.
pub open spec fn is_row_offset(value: int) -> bool {
    0x20 <= value < 0xff0
}

/// Whether `slots` stand one after another from `at` on in the search area,
/// begin with a live slot, and the live ones are row offsets that descend.
pub open spec fn is_array(plain: Seq<u8>, at: int, big_endian: bool, slots: Seq<u16>) -> bool {
    &&& forall|i: int|
        0 <= i < slots.len() ==> {
            &&& #[trigger] slots[i] == spelled_word(plain, at + 2 * i, big_endian)
            &&& at + 2 * i + 1 < 0x300
            &&& slots[i] != 0 ==> is_row_offset(slots[i] as int)
        }
    &&& slots.len() > 0 ==> slots[0] != 0
    &&& forall|i: int, j: int|
        0 <= i < j < slots.len() && #[trigger] slots[i] != 0 && #[trigger] slots[j] != 0
            ==> slots[i] > slots[j]
}

/// Whether an array cannot go on after `slots`: the search area ends, or the
/// next word is not zero and is no row offset or not below some live slot. An
/// array that has not begun cannot begin with zero either.
pub open spec fn ends_there(plain: Seq<u8>, at: int, big_endian: bool, slots: Seq<u16>) -> bool {
    let end = at + 2 * slots.len();
    let word = spelled_word(plain, end, big_endian);
    ||| end + 1 >= 0x300
    ||| slots.len() == 0 && !is_row_offset(word)
    ||| slots.len() > 0 && word != 0 && !is_row_offset(word)
    ||| word != 0 && exists|i: int|
        0 <= i < slots.len() && #[trigger] slots[i] != 0 && slots[i] <= word
}

proof fn lemma_word(plain: Seq<u8>, at: int, big_endian: bool)
    ensures
        slotted::word_at(plain, at, big_endian) == spelled_word(plain, at, big_endian),
{
}

proof fn lemma_runs_are_arrays(plain: Seq<u8>, at: int, big_endian: bool, slots: Seq<u16>)
    requires
        slotted::is_run(plain, at, big_endian, slots),
    ensures
        is_array(plain, at, big_endian, slots),
{
    assert forall|i: int| 0 <= i < slots.len() implies {
        &&& #[trigger] slots[i] == spelled_word(plain, at + 2 * i, big_endian)
        &&& at + 2 * i + 1 < 0x300
        &&& slots[i] != 0 ==> is_row_offset(slots[i] as int)
    } by {
        let word = slots[i];
        assert(slotted::continues(slots.take(i), word));
        assert(word == slotted::word_at(plain, at + 2 * i, big_endian));
        lemma_word(plain, at + 2 * i, big_endian);
    }
    if slots.len() > 0 {
        assert(slotted::continues(slots.take(0), slots[0]));
    }
    assert forall|i: int, j: int|
        0 <= i < j < slots.len() && #[trigger] slots[i] != 0 && #[trigger] slots[j] != 0 implies
        slots[i] > slots[j] by {
        assert(slotted::continues(slots.take(j), slots[j]));
        assert(slots.take(j)[i] == slots[i]);
    }
}

proof fn lemma_runs_end(plain: Seq<u8>, at: int, big_endian: bool, slots: Seq<u16>)
    requires
        slots.len() > 0 ==> slots[0] != 0,
    ensures
        ends_there(
            plain,
            at,
            big_endian,
            slotted::slot_run(plain, at, big_endian, slots),
        ),
    decreases 0x300 - at - 2 * slots.len(),
{
    let position = at + 2 * slots.len();
    let value = slotted::word_at(plain, position, big_endian);
    lemma_word(plain, position, big_endian);
    if position + 1 < 0x300 && slotted::continues(slots, value) {
        if slots.len() == 0 && value == 0 {
            assert(false);
        }
        lemma_runs_end(plain, at, big_endian, slots.push(value));
    } else if position + 1 < 0x300 && slots.len() > 0 {
        assert(slots[0] != 0);
    }
}

proof fn lemma_arrays_are_scanned(
    plain: Seq<u8>,
    at: int,
    big_endian: bool,
    slots: Seq<u16>,
    n: int,
)
    requires
        is_array(plain, at, big_endian, slots),
        ends_there(plain, at, big_endian, slots),
        0 <= n <= slots.len(),
    ensures
        slotted::slot_run(plain, at, big_endian, slots.take(n)) == slots,
    decreases slots.len() - n,
{
    let begun = slots.take(n);
    let position = at + 2 * n;
    lemma_word(plain, position, big_endian);
    if n < slots.len() {
        lemma_arrays_are_scanned(plain, at, big_endian, slots, n + 1);
        assert(slots.take(n + 1) =~= begun.push(slots[n]));
        if slots[n] == 0 {
            assert(begun[0] == slots[0]);
        } else {
            assert forall|i: int| 0 <= i < begun.len() && #[trigger] begun[i] != 0 implies slots[n]
                < begun[i] by {
                assert(slots[i] == begun[i]);
            }
        }
        assert(slotted::continues(begun, slots[n]));
    } else {
        assert(begun =~= slots);
    }
}

/// A scanned array is the one array from its start on that cannot go on: after
/// a live slot every zero belongs to it, however many there are, and so does
/// every row offset below all its live slots; and nothing else does.
pub proof fn scanned_arrays_are_maximal(
    plain: Seq<u8>,
    at: int,
    big_endian: bool,
    slots: Seq<u16>,
)
    ensures
        slotted::slot_run(plain, at, big_endian, Seq::empty()) == slots <==> is_array(
            plain,
            at,
            big_endian,
            slots,
        ) && ends_there(plain, at, big_endian, slots),
{
    let run = slotted::slot_run(plain, at, big_endian, Seq::empty());
    slotted::lemma_slot_run(plain, at, big_endian, Seq::empty());
    lemma_runs_are_arrays(plain, at, big_endian, run);
    lemma_runs_end(plain, at, big_endian, Seq::empty());
    if is_array(plain, at, big_endian, slots) && ends_there(plain, at, big_endian, slots) {
        lemma_arrays_are_scanned(plain, at, big_endian, slots, 0);
        assert(slots.take(0) =~= Seq::<u16>::empty());
    }
}

// ---------------------------------------------------------------------------
// Directories
// ---------------------------------------------------------------------------

/// Number of live slots.
pub open spec fn live_len(slots: Seq<u16>) -> int {
    slots.filter(|slot: u16| slot > 0).len() as int
}

/// Whether a directory begins where scanning starts: an array that cannot go
/// on, behind the zero word before it if there is one, with eight live slots or
/// more, none of which points before its end.
pub open spec fn is_directory(
    plain: Seq<u8>,
    start: int,
    big_endian: bool,
    directory: SlotDirectoryView,
) -> bool {
    let slots = directory.slots;
    &&& directory.scan_start == start
    &&& directory.big_endian == big_endian
    &&& directory.leading_zero <==> start + 4 <= 0x300 && spelled_word(plain, start, big_endian)
        == 0 && is_row_offset(spelled_word(plain, start + 2, big_endian))
    &&& directory.array_start == if directory.leading_zero {
        start + 2
    } else {
        start
    }
    &&& directory.end == directory.array_start + 2 * slots.len()
    &&& is_array(plain, directory.array_start, big_endian, slots)
    &&& ends_there(plain, directory.array_start, big_endian, slots)
    &&& live_len(slots) >= 8
    &&& forall|i: int|
        0 <= i < slots.len() && #[trigger] slots[i] != 0 ==> directory.end <= slots[i]
}

proof fn lemma_live_len(slots: Seq<u16>)
    ensures
        live_len(slots) == slotted::live(slots).len(),
        0 <= live_len(slots) <= slots.len(),
    decreases slots.len(),
{
    reveal(Seq::filter);
    if slots.len() > 0 {
        lemma_live_len(slots.drop_last());
    }
}

/// Scanning finds exactly the directory that begins there.
pub proof fn scanning_finds_exactly_the_directories(
    plain: Seq<u8>,
    start: int,
    big_endian: bool,
    directory: SlotDirectoryView,
)
    ensures
        slotted::directory_at(plain, start, big_endian) == Some(directory) <==> is_directory(
            plain,
            start,
            big_endian,
            directory,
        ),
{
    let leading_zero = slotted::has_leading_zero(plain, start, big_endian);
    let array_start = if leading_zero {
        start + 2
    } else {
        start
    };
    let run = slotted::slot_run(plain, array_start, big_endian, Seq::empty());
    lemma_word(plain, start, big_endian);
    lemma_word(plain, start + 2, big_endian);
    scanned_arrays_are_maximal(plain, array_start, big_endian, run);
    scanned_arrays_are_maximal(plain, array_start, big_endian, directory.slots);
    lemma_live_len(run);
    if is_directory(plain, start, big_endian, directory) {
        assert(directory.leading_zero == leading_zero);
        assert(directory.slots == run);
        assert(!slotted::overlaps(run, directory.end));
        assert(slotted::directory_at(plain, start, big_endian)->Some_0 =~= directory);
    }
    if slotted::directory_at(plain, start, big_endian) == Some(directory) {
        assert forall|i: int| 0 <= i < run.len() && #[trigger] run[i] != 0 implies directory.end
            <= run[i] by {}
    }
}

/// After a live slot the word at the end of a found directory is out of the
/// search area, or is nonzero and is no row offset or not below the last live
/// slot.
pub proof fn found_directories_are_maximal(
    plain: Seq<u8>,
    start: int,
    big_endian: bool,
    last: int,
)
    requires
        slotted::directory_at(plain, start, big_endian) is Some,
        ({
            let slots = slotted::directory_at(plain, start, big_endian)->Some_0.slots;
            &&& 0 <= last < slots.len()
            &&& slots[last] != 0
            &&& forall|i: int| last < i < slots.len() ==> #[trigger] slots[i] == 0
        }),
    ensures
        ({
            let directory = slotted::directory_at(plain, start, big_endian)->Some_0;
            let word = spelled_word(plain, directory.end, big_endian);
            ||| directory.end + 1 >= 0x300
            ||| word != 0 && (!is_row_offset(word) || directory.slots[last] <= word)
        }),
{
    let directory = slotted::directory_at(plain, start, big_endian)->Some_0;
    let slots = directory.slots;
    scanning_finds_exactly_the_directories(plain, start, big_endian, directory);
    let word = spelled_word(plain, directory.end, big_endian);
    if directory.end + 1 < 0x300 && is_row_offset(word) {
        let i = choose|i: int|
            0 <= i < slots.len() && #[trigger] slots[i] != 0 && slots[i] <= word;
        if i < last {
            assert(slots[i] > slots[last]);
        }
    }
}

// ---------------------------------------------------------------------------
// The chosen directory
// ---------------------------------------------------------------------------

/// Whether one directory is to be preferred to another: it has more live slots,
/// or as many of them and more slots.
pub open spec fn outweighs(one: SlotDirectoryView, other: SlotDirectoryView) -> bool {
    ||| live_len(one.slots) > live_len(other.slots)
    ||| live_len(one.slots) == live_len(other.slots) && one.slots.len() > other.slots.len()
}

/// Whether one place is tried before another: starts ascend, and at each start
/// little-endian words are tried first.
pub open spec fn is_tried_before(one: (int, bool), other: (int, bool)) -> bool {
    one.0 < other.0 || one.0 == other.0 && !one.1 && other.1
}

/// Whether the directory at a place in the search area is the chosen one: it
/// outweighs every directory at a place that is tried before, and no directory
/// at a later place outweighs it.
pub open spec fn is_chosen(
    plain: Seq<u8>,
    place: (int, bool),
    directory: SlotDirectoryView,
) -> bool {
    &&& 0 <= place.0 < 0x300
    &&& is_directory(plain, place.0, place.1, directory)
    &&& forall|start: int, big_endian: bool, other: SlotDirectoryView|
        0 <= start < 0x300 && #[trigger] is_directory(plain, start, big_endian, other) ==> {
            &&& is_tried_before((start, big_endian), place) ==> outweighs(directory, other)
            &&& is_tried_before(place, (start, big_endian)) ==> !outweighs(other, directory)
        }
}

/// The chosen directory of a page is the first of the best, and there is none
/// only where no place of the search area has a directory.
pub proof fn the_first_of_the_best_is_chosen(plain: Seq<u8>, found: Option<SlotDirectoryView>)
    requires
        slotted::is_best_directory(plain, found, slotted::candidate_count()),
    ensures
        match found {
            Some(directory) => is_chosen(
                plain,
                (directory.scan_start, directory.big_endian),
                directory,
            ),
            None => forall|start: int, big_endian: bool, other: SlotDirectoryView|
                0 <= start < 0x300 ==> !(#[trigger] is_directory(
                    plain,
                    start,
                    big_endian,
                    other,
                )),
        },
{
    let count = slotted::candidate_count();
    match found {
        Some(directory) => {
            let number = choose|number: int| #[trigger]
                slotted::is_best(plain, number, count) && slotted::candidate(plain, number)
                    == Some(directory);
            let place = (number / 2, number % 2 == 1);
            scanning_finds_exactly_the_directories(plain, place.0, place.1, directory);
            lemma_live_len(directory.slots);
            assert forall|start: int, big_endian: bool, other: SlotDirectoryView|
                0 <= start < 0x300 && #[trigger] is_directory(
                    plain,
                    start,
                    big_endian,
                    other,
                ) implies {
                &&& is_tried_before((start, big_endian), place) ==> outweighs(directory, other)
                &&& is_tried_before(place, (start, big_endian)) ==> !outweighs(other, directory)
            } by {
                lemma_candidate(plain, start, big_endian, other);
                lemma_live_len(other.slots);
                let tried = number_of(start, big_endian);
                assert(slotted::candidate(plain, tried) == Some(other));
            }
        },
        None => {
            assert forall|start: int, big_endian: bool, other: SlotDirectoryView|
                0 <= start < 0x300 implies !(#[trigger] is_directory(
                plain,
                start,
                big_endian,
                other,
            )) by {
                if is_directory(plain, start, big_endian, other) {
                    lemma_candidate(plain, start, big_endian, other);
                    let tried = number_of(start, big_endian);
                    assert(slotted::candidate(plain, tried) is None);
                }
            }
        },
    }
}

spec fn number_of(start: int, big_endian: bool) -> int {
    if big_endian {
        2 * start + 1
    } else {
        2 * start
    }
}

proof fn lemma_candidate(
    plain: Seq<u8>,
    start: int,
    big_endian: bool,
    directory: SlotDirectoryView,
)
    requires
        0 <= start < 0x300,
        is_directory(plain, start, big_endian, directory),
    ensures
        slotted::candidate(plain, number_of(start, big_endian)) == Some(directory),
        0 <= number_of(start, big_endian) < slotted::candidate_count(),
{
    let number = number_of(start, big_endian);
    assert(number / 2 == start && (number % 2 == 1) == big_endian);
    scanning_finds_exactly_the_directories(plain, start, big_endian, directory);
}

/// Only one directory can be chosen in a page.
pub proof fn one_directory_is_chosen(
    plain: Seq<u8>,
    one: Option<SlotDirectoryView>,
    other: Option<SlotDirectoryView>,
)
    requires
        slotted::is_best_directory(plain, one, slotted::candidate_count()),
        slotted::is_best_directory(plain, other, slotted::candidate_count()),
    ensures
        one == other,
{
    the_first_of_the_best_is_chosen(plain, one);
    the_first_of_the_best_is_chosen(plain, other);
    if let (Some(a), Some(b)) = (one, other) {
        assert(is_directory(plain, a.scan_start, a.big_endian, a));
        assert(is_directory(plain, b.scan_start, b.big_endian, b));
        scanning_finds_exactly_the_directories(plain, a.scan_start, a.big_endian, a);
        scanning_finds_exactly_the_directories(plain, b.scan_start, b.big_endian, b);
    } else if let Some(a) = one {
        assert(is_directory(plain, a.scan_start, a.big_endian, a));
    } else if let Some(b) = other {
        assert(is_directory(plain, b.scan_start, b.big_endian, b));
    }
}

// ---------------------------------------------------------------------------
// Counts
// ---------------------------------------------------------------------------

/// The live slots are the nonzero ones, in order: each occurs as often as it
/// does in the array, and zero not at all.
pub proof fn live_slots_are_the_nonzero_ones(slots: Seq<u16>)
    ensures
        slotted::live(slots) == slots.filter(|slot: u16| slot > 0),
        !slotted::live(slots).contains(0),
    decreases slots.len(),
{
    reveal(Seq::filter);
    if slots.len() > 0 {
        live_slots_are_the_nonzero_ones(slots.drop_last());
        let before = slotted::live(slots.drop_last());
        if slots.last() != 0 {
            assert forall|i: int| 0 <= i < before.len() + 1 implies before.push(
                slots.last(),
            )[i] != 0 by {
                if i < before.len() {
                    assert(before.contains(before[i]));
                }
            }
        }
    }
}

/// From the first live slot to the last, every slot is live or deleted, and no
/// slot outside is deleted.
pub proof fn live_and_deleted_slots_fill_the_span(slots: Seq<u16>, first: int, last: int)
    requires
        0 <= first <= last < slots.len(),
        slots[first] != 0,
        slots[last] != 0,
        forall|i: int| 0 <= i < first ==> #[trigger] slots[i] == 0,
        forall|i: int| last < i < slots.len() ==> #[trigger] slots[i] == 0,
    ensures
        slotted::deleted_below(slots, slots.len() as int).len() + slotted::live(slots).len() == last
            - first + 1,
{
    lemma_span(slots, first, last, slots.len() as int);
    assert(slots.take(slots.len() as int) =~= slots);
}

proof fn lemma_span(slots: Seq<u16>, first: int, last: int, n: int)
    requires
        0 <= first <= last < slots.len(),
        slots[first] != 0,
        slots[last] != 0,
        forall|i: int| 0 <= i < first ==> #[trigger] slots[i] == 0,
        forall|i: int| last < i < slots.len() ==> #[trigger] slots[i] == 0,
        0 <= n <= slots.len(),
    ensures
        slotted::deleted_below(slots, n).len() + slotted::live(slots.take(n)).len() == if n
            <= first {
            0
        } else if n <= last {
            n - first
        } else {
            last - first + 1
        },
    decreases n,
{
    if n > 0 {
        lemma_span(slots, first, last, n - 1);
        slotted::lemma_deleted_below(slots, n - 1);
        slotted::lemma_live_push(slots, n - 1);
        if first < n - 1 < last && slots[n - 1] == 0 {
            assert(slotted::deleted(slots, n - 1));
        }
    } else {
        reveal(Seq::filter);
        assert(slots.take(0) =~= Seq::<u16>::empty());
    }
}

/// Slots that are all zero count neither as live nor as deleted.
pub proof fn without_live_slots_none_is_deleted(slots: Seq<u16>)
    requires
        forall|i: int| 0 <= i < slots.len() ==> #[trigger] slots[i] == 0,
    ensures
        slotted::deleted_below(slots, slots.len() as int).len() == 0,
        slotted::live(slots).len() == 0,
{
    lemma_nothing(slots, slots.len() as int);
    assert(slots.take(slots.len() as int) =~= slots);
}

proof fn lemma_nothing(slots: Seq<u16>, n: int)
    requires
        forall|i: int| 0 <= i < slots.len() ==> #[trigger] slots[i] == 0,
        0 <= n <= slots.len(),
    ensures
        slotted::deleted_below(slots, n).len() == 0,
        slotted::live(slots.take(n)).len() == 0,
    decreases n,
{
    if n > 0 {
        lemma_nothing(slots, n - 1);
        slotted::lemma_deleted_below(slots, n - 1);
        slotted::lemma_live_push(slots, n - 1);
    } else {
        reveal(Seq::filter);
        assert(slots.take(0) =~= Seq::<u16>::empty());
    }
}

// ---------------------------------------------------------------------------
// Rows
// ---------------------------------------------------------------------------

/// Whether the row at an offset ends at `end`: at the least slot above it, or
/// where the trailer begins if there is none.
pub open spec fn ends_row(slots: Seq<u16>, offset: u16, end: int) -> bool {
    ||| {
        &&& end > offset
        &&& exists|i: int| 0 <= i < slots.len() && #[trigger] slots[i] == end
        &&& forall|i: int| 0 <= i < slots.len() && #[trigger] slots[i] > offset ==> end <= slots[i]
    }
    ||| {
        &&& end == 0xff0
        &&& forall|i: int| 0 <= i < slots.len() ==> #[trigger] slots[i] <= offset
    }
}

/// Whether the slot at `index` has a row that ends at `end`: the slot is live,
/// and the row is not empty and does not reach into the trailer.
pub open spec fn has_row_to(slots: Seq<u16>, index: int, end: int) -> bool {
    &&& 0 <= index < slots.len()
    &&& slots[index] != 0
    &&& ends_row(slots, slots[index], end)
    &&& slots[index] < end <= 0xff0
}

proof fn lemma_row_end(slots: Seq<u16>, offset: u16, end: int)
    ensures
        ends_row(slots, offset, end) <==> slotted::row_end(slots, offset) == end,
{
    slotted::lemma_next_above(slots, offset, slots.len() as int);
    if let Some(least) = slotted::next_above(slots, offset, slots.len() as int) {
        let i = choose|i: int| 0 <= i < slots.len() && #[trigger] slots[i] == least;
        assert(slots[i] > offset);
        if ends_row(slots, offset, end) && end > offset && exists|j: int|
            0 <= j < slots.len() && #[trigger] slots[j] == end {
            let j = choose|j: int| 0 <= j < slots.len() && #[trigger] slots[j] == end;
            assert(slots[j] > offset);
        }
    }
}

/// Whether a row is that of the slot at its index: its offset is the slot, and
/// its bytes are those of the page from there to its end.
pub open spec fn is_row_of(page: Seq<u8>, slots: Seq<u16>, row: (int, u16, Seq<u8>)) -> bool {
    exists|end: int|
        {
            &&& #[trigger] has_row_to(slots, row.0, end)
            &&& row.1 == slots[row.0]
            &&& row.2 == page.subrange(row.1 as int, end)
        }
}

proof fn lemma_rows(page: Seq<u8>, slots: Seq<u16>, n: int, index: int, end: int)
    requires
        0 <= n <= slots.len(),
    ensures
        ({
            let rows = slotted::rows_of(page, slots, n);
            &&& forall|k: int|
                0 <= k < rows.len() ==> is_row_of(page, slots, #[trigger] rows[k]) && rows[k].0 < n
            &&& forall|k: int, l: int|
                0 <= k < l < rows.len() ==> (#[trigger] rows[k]).0 < (#[trigger] rows[l]).0
            &&& index < n && has_row_to(slots, index, end) ==> rows.contains(
                (index, slots[index], page.subrange(slots[index] as int, end)),
            )
        }),
    decreases n,
{
    if n > 0 {
        lemma_rows(page, slots, n - 1, index, end);
        let before = slotted::rows_of(page, slots, n - 1);
        let rows = slotted::rows_of(page, slots, n);
        let offset = slots[n - 1];
        let bound = slotted::row_end(slots, offset);
        lemma_row_end(slots, offset, bound);
        if offset != 0 && slotted::has_row(slots, offset) {
            assert(has_row_to(slots, n - 1, bound));
            let added = (n - 1, offset, page.subrange(offset as int, bound));
            assert(has_row_to(slots, added.0, bound));
            assert(is_row_of(page, slots, added));
            assert(rows =~= before.push(added));
            assert forall|k: int| 0 <= k < rows.len() implies is_row_of(
                page,
                slots,
                #[trigger] rows[k],
            ) && rows[k].0 < n by {
                if k < before.len() {
                    assert(rows[k] == before[k]);
                }
            }
            if index < n && has_row_to(slots, index, end) {
                let wanted = (index, slots[index], page.subrange(slots[index] as int, end));
                if index < n - 1 {
                    let k = before.index_of(wanted);
                    assert(rows[k] == wanted);
                } else {
                    lemma_row_end(slots, offset, end);
                    assert(rows[rows.len() - 1] == wanted);
                }
            }
        } else if index == n - 1 && has_row_to(slots, index, end) {
            lemma_row_end(slots, offset, end);
        }
    }
}

/// The rows of a page are those of its slots, in array order, and every slot
/// that has a row is there. Without a directory there are none.
pub proof fn rows_are_those_of_the_slots(page: SlottedPageView, index: int, end: int)
    ensures
        match page.directory {
            None => slotted::all_rows(page).len() == 0,
            Some(directory) => {
                let slots = directory.slots;
                let bytes = page.page.bytes;
                let rows = slotted::all_rows(page);
                &&& forall|k: int|
                    0 <= k < rows.len() ==> is_row_of(bytes, slots, #[trigger] rows[k])
                &&& forall|k: int, l: int|
                    0 <= k < l < rows.len() ==> (#[trigger] rows[k]).0 < (#[trigger] rows[l]).0
                &&& has_row_to(slots, index, end) ==> rows.contains(
                    (index, slots[index], bytes.subrange(slots[index] as int, end)),
                )
            },
        },
{
    if let Some(directory) = page.directory {
        lemma_rows(
            page.page.bytes,
            directory.slots,
            directory.slots.len() as int,
            index,
            end,
        );
    }
}

/// The prefix of a page is all that stands before its slot array, and is told
/// exactly where some byte of it is not zero.
pub proof fn prefixes_hold_some_nonzero_byte(page: SlottedPageView)
    requires
        page.directory matches Some(directory) ==> 0 <= directory.array_start
            <= page.page.bytes.len(),
    ensures
        match slotted::prefix_of(page) {
            Some(prefix) => {
                &&& page.directory is Some
                &&& prefix.len() == page.directory->Some_0.array_start
                &&& prefix.is_prefix_of(page.page.bytes)
                &&& exists|i: int| 0 <= i < prefix.len() && #[trigger] prefix[i] != 0
            },
            None => page.directory matches Some(directory) ==> forall|i: int|
                0 <= i < directory.array_start ==> #[trigger] page.page.bytes[i] == 0,
        },
{
    if let Some(directory) = page.directory {
        let prefix = page.page.bytes.take(directory.array_start);
        if slotted::prefix_of(page) is None {
            assert forall|i: int| 0 <= i < directory.array_start implies #[trigger]
            page.page.bytes[i] == 0 by {
                assert(prefix[i] == 0);
            }
        }
    }
}

} // verus!
