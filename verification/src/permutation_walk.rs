//! The sector permutation, told place by place.
//!
//! [`crate::page_permutation`] says what the primitive computes, by way of a
//! cycle of positions. Here each byte is told by the places of the walk: which
//! byte it is replaced by, and what is added.
use vstd::arithmetic::{div_mod, power2};
use vstd::prelude::*;

use crate::page_permutation;

verus! {

// ---------------------------------------------------------------------------
// What a key says
// ---------------------------------------------------------------------------

/// A number with its lowest bit set.
pub open spec fn with_lowest_bit(n: int) -> int {
    2 * (n / 2) + 1
}

/// A key without its sign.
pub open spec fn without_sign(key: int) -> int {
    if key >= 0 {
        key
    } else {
        -key
    }
}

/// What is added to the seed from one place to the next: the second byte of
/// the key, with its lowest bit set.
pub open spec fn seed_growth(key: int) -> int {
    with_lowest_bit(without_sign(key) / 0x100 % 0x100)
}

/// How far the walk goes at once: the upper half of the key and its lowest byte
/// together, as a word with its lowest bit set and with a sign of its own;
/// backwards for a negative key.
pub open spec fn walk_step(key: int) -> int {
    let n = without_sign(key);
    let word = with_lowest_bit((n / 0x1_0000 + n % 0x100) % 0x1_0000);
    let signed = if word >= 0x8000 {
        word - 0x1_0000
    } else {
        word
    };
    if key >= 0 {
        signed
    } else {
        -signed
    }
}

/// Whether a seed is the one that the walk begins with: the lowest byte of a
/// positive key; for a negative key, what that byte lacks to the growth taken
/// once more than there are places left out, and once more for each place of a
/// buffer of fewer than 256.
pub open spec fn is_opening_seed(seed: int, key: int, len: int, start: int, tail: int) -> bool {
    let low = without_sign(key) % 0x100;
    let left_out = start + tail;
    &&& 0 <= seed < 0x100
    &&& key >= 0 ==> seed == low
    &&& key < 0 && len >= 0x100 ==> (seed + low) % 0x100 == (seed_growth(key) * (left_out + 1))
        % 0x100
    &&& key < 0 && len < 0x100 ==> (seed + low) % 0x100 == (seed_growth(key) * (left_out + 1
        + len)) % 0x100
}

/// What a key says is what the primitive takes from it.
pub proof fn keys_are_taken_apart(key: int, len: int, start: int, tail: int)
    requires
        -0x8000_0000 <= key < 0x8000_0000,
    ensures
        page_permutation::seed_increment(key) == seed_growth(key),
        page_permutation::stride(key) == walk_step(key),
        is_opening_seed(
            page_permutation::first_seed(key, len, start, tail),
            key,
            len,
            start,
            tail,
        ),
{
    let low = without_sign(key) % 0x100;
    if key < 0 {
        let factor = page_permutation::negative_factor(len, start, tail);
        let product = seed_growth(key) * factor;
        div_mod::lemma_add_mod_noop_right(low, product - low, 256);
        div_mod::lemma_mod_bound(product - low, 256);
    }
}

// ---------------------------------------------------------------------------
// The walk
// ---------------------------------------------------------------------------

/// The place that the walk reaches after `k` steps.
pub open spec fn place(len: int, start: int, key: int, k: int) -> int {
    (start + k * walk_step(key)) % len
}

/// Whether that place is neither among the bytes left out before `start` nor
/// among the last `tail` bytes.
pub open spec fn is_taken(len: int, start: int, tail: int, key: int, k: int) -> bool {
    start <= place(len, start, key, k) && place(len, start, key, k) + tail < len
}

/// How many of the first `k` places are taken.
pub open spec fn taken_before(len: int, start: int, tail: int, key: int, k: int) -> int {
    Seq::new(k as nat, |j: int| j).filter(|j: int| is_taken(len, start, tail, key, j)).len() as int
}

/// Whether a buffer of this length can be walked: its length is a power of two,
/// and some byte is not left out.
pub open spec fn can_be_walked(len: int, start: int, tail: int) -> bool {
    power2::is_pow2(len) && 0 <= start && 0 <= tail && start + tail < len
}

proof fn lemma_taken_before(len: int, start: int, tail: int, key: int, k: int)
    requires
        page_permutation::stride(key) == walk_step(key),
        k >= 0,
    ensures
        taken_before(len, start, tail, key, k) == page_permutation::active_prefix(
            len,
            start,
            tail,
            walk_step(key),
            k as nat,
        ).len(),
    decreases k,
{
    reveal(Seq::filter);
    if k > 0 {
        lemma_taken_before(len, start, tail, key, k - 1);
        assert(Seq::new(k as nat, |j: int| j).drop_last() =~= Seq::new(
            (k - 1) as nat,
            |j: int| j,
        ));
    }
}

/// Every place that is not left out is reached by the walk, once in as many
/// steps as there are bytes.
pub proof fn every_place_is_reached_once(len: int, start: int, tail: int, key: int, position: int) -> (k:
    int)
    requires
        can_be_walked(len, start, tail),
        -0x8000_0000 <= key < 0x8000_0000,
        0 <= position < len,
    ensures
        0 <= k < len,
        place(len, start, key, k) == position,
        forall|j: int|
            0 <= j < len && #[trigger] place(len, start, key, j) == position ==> j == k,
{
    keys_are_taken_apart(key, len, start, tail);
    let step = walk_step(key);
    let k = page_permutation::lemma_residue_surjective(len, start, step, position);
    assert forall|j: int| 0 <= j < len && #[trigger] place(
        len,
        start,
        key,
        j,
    ) == position implies j == k by {
        page_permutation::lemma_residue_injective(len, start, step, j, k);
    }
    k
}

/// What the primitive leaves as it is: the length, every byte that is left out,
/// and everything under the key zero.
pub proof fn bytes_left_out_stay(
    bytes: Seq<u8>,
    start: int,
    tail: int,
    key: int,
    position: int,
)
    requires
        0 <= position < bytes.len(),
    ensures
        page_permutation::permuted(bytes, start, tail, key).len() == bytes.len(),
        key == 0 || position < start || position + tail >= bytes.len()
            ==> page_permutation::permuted(bytes, start, tail, key)[position] == bytes[position],
{
}

/// A taken byte becomes the byte at the next taken place of the walk, which
/// ends where it began, plus the opening seed grown once for each taken place
/// before.
pub proof fn bytes_move_one_place_back(
    bytes: Seq<u8>,
    start: int,
    tail: int,
    key: int,
    k: int,
    next: int,
)
    requires
        can_be_walked(bytes.len() as int, start, tail),
        -0x8000_0000 <= key < 0x8000_0000,
        key != 0,
        0 <= k < next <= bytes.len(),
        is_taken(bytes.len() as int, start, tail, key, k),
        next < bytes.len() ==> is_taken(bytes.len() as int, start, tail, key, next),
        forall|j: int|
            k < j < next ==> !(#[trigger] is_taken(bytes.len() as int, start, tail, key, j)),
    ensures
        ({
            let len = bytes.len() as int;
            let seed = page_permutation::first_seed(key, len, start, tail);
            let grown = taken_before(len, start, tail, key, k) * seed_growth(key);
            let from = place(len, start, key, k);
            let to = place(len, start, key, next);
            &&& is_opening_seed(seed, key, len, start, tail)
            &&& page_permutation::permuted(bytes, start, tail, key)[from] == (bytes[to] + seed
                + grown) % 0x100
            &&& next == len ==> to == start
        }),
{
    let len = bytes.len() as int;
    let step = walk_step(key);
    let cycle = page_permutation::active_cycle(len, start, tail, key);
    let rank = taken_before(len, start, tail, key, k);
    let from = place(len, start, key, k);
    let to = place(len, start, key, next);
    keys_are_taken_apart(key, len, start, tail);
    lemma_taken_before(len, start, tail, key, k);
    page_permutation::lemma_active_prefix(len, start, tail, step, len as nat);
    page_permutation::lemma_active_prefix_grows(
        len,
        start,
        tail,
        step,
        (k + 1) as nat,
        len as nat,
    );
    let met = page_permutation::active_prefix(len, start, tail, step, (k + 1) as nat);
    assert(met[rank] == from && met.len() == rank + 1);
    assert(cycle[rank] == from);
    assert(cycle.index_of(from) == rank) by {
        assert(cycle.contains(from));
        let i = cycle.index_of(from);
        assert(cycle[i] == from);
    }
    assert forall|j: int| k + 1 <= j < next implies !page_permutation::is_active(
        len,
        start,
        tail,
        #[trigger] page_permutation::residue(len, start, step, j),
    ) by {
        assert(!is_taken(len, start, tail, key, j));
    }
    page_permutation::lemma_active_prefix_skips(
        len,
        start,
        tail,
        step,
        (k + 1) as nat,
        next as nat,
    );
    if next < len {
        page_permutation::lemma_active_prefix_grows(
            len,
            start,
            tail,
            step,
            (next + 1) as nat,
            len as nat,
        );
        let longer = page_permutation::active_prefix(len, start, tail, step, (next + 1) as nat);
        assert(longer[rank + 1] == to);
        assert(cycle[rank + 1] == to);
        div_mod::lemma_small_mod((rank + 1) as nat, cycle.len());
    } else {
        page_permutation::lemma_return_to_start(len, start, tail, step, len);
        assert(cycle.len() == rank + 1);
        div_mod::lemma_mod_self_0(cycle.len() as int);
    }
    reveal(page_permutation::cycle_byte);
}

/// A buffer is accepted exactly where it can be walked.
pub proof fn exactly_what_can_be_walked_is_accepted(len: int, start: int, tail: int)
    ensures
        page_permutation::valid_bounds(len, start, tail) <==> can_be_walked(len, start, tail),
{
}

} // verus!
