//! Bounded in-place sector permutation primitive.
//!
//! This is only the generic byte primitive. It does not recover a key, select
//! a transform direction, swap headers, or establish a raw-file use.
//!
//! The primitive walks the residues `start, start + stride, start + 2 * stride,
//! ...` modulo the buffer length and skips those outside the active range. The
//! stride is odd and the length a power of two, so the walk meets every active
//! position exactly once before it returns to `start`: the active positions
//! form one cycle. Each active byte is replaced by its successor on the cycle
//! plus a running seed.
use vstd::arithmetic::{div_mod, power2};
use vstd::prelude::*;
use vstd::set_lib;

use crate::text;

verus! {

/// Sector length used by the observed SA17 callers.
pub const PAGE_PERMUTATION_SECTOR_LEN: usize = 512;

/// Failure while validating a permutation sector or active range.
#[derive(Debug, Clone, Copy, PartialEq, Eq)]
pub enum PagePermutationError {
    /// The generic primitive needs a nonzero power-of-two buffer length.
    NonPowerOfTwoLength {
        /// Bytes supplied by the caller.
        len: usize,
    },
    /// The sector-specific wrapper requires exactly 512 bytes.
    InvalidSectorLength {
        /// Bytes supplied by the caller.
        len: usize,
    },
    /// `start..=len-1-tail` cannot be represented as a nonempty active range.
    InvalidActiveRange {
        /// Buffer length.
        len: usize,
        /// Requested inclusive start offset.
        start: usize,
        /// Requested excluded-byte count at the end.
        tail: usize,
    },
    /// No active-cycle member was found within one complete modulus cycle.
    NoActiveCycle {
        /// Buffer length.
        len: usize,
        /// Requested inclusive start offset.
        start: usize,
        /// Requested excluded-byte count at the end.
        tail: usize,
    },
}

impl PagePermutationError {
    /// What [`Self::to_string`] renders.
    pub open spec fn text(self) -> Seq<char> {
        match self {
            PagePermutationError::NonPowerOfTwoLength { len } => {
                "permutation buffer length "@
                    + text::decimal_text(len as nat)
                    + " is not a nonzero power of two"@
            },
            PagePermutationError::InvalidSectorLength { len } => {
                "sector permutation needs exactly 512 bytes, got "@
                    + text::decimal_text(len as nat)
            },
            PagePermutationError::InvalidActiveRange { len, start, tail } => {
                "permutation range start="@
                    + text::decimal_text(start as nat)
                    + ", tail="@
                    + text::decimal_text(tail as nat)
                    + " is invalid for "@
                    + text::decimal_text(len as nat)
                    + " bytes"@
            },
            PagePermutationError::NoActiveCycle { len, start, tail } => {
                "permutation found no active cycle for start="@
                    + text::decimal_text(start as nat)
                    + ", tail="@
                    + text::decimal_text(tail as nat)
                    + " in "@
                    + text::decimal_text(len as nat)
                    + " bytes"@
            },
        }
    }

    /// A description of the failure.
    pub fn to_string(&self) -> (out: String)
        ensures
            out@ == self.text(),
    {
        let mut out: String = String::new();
        match self {
            PagePermutationError::NonPowerOfTwoLength { len } => {
                out.append("permutation buffer length ");
                text::append_decimal(&mut out, *len as u64);
                out.append(" is not a nonzero power of two");
            },
            PagePermutationError::InvalidSectorLength { len } => {
                out.append("sector permutation needs exactly 512 bytes, got ");
                text::append_decimal(&mut out, *len as u64);
            },
            PagePermutationError::InvalidActiveRange { len, start, tail } => {
                out.append("permutation range start=");
                text::append_decimal(&mut out, *start as u64);
                out.append(", tail=");
                text::append_decimal(&mut out, *tail as u64);
                out.append(" is invalid for ");
                text::append_decimal(&mut out, *len as u64);
                out.append(" bytes");
            },
            PagePermutationError::NoActiveCycle { len, start, tail } => {
                out.append("permutation found no active cycle for start=");
                text::append_decimal(&mut out, *start as u64);
                out.append(", tail=");
                text::append_decimal(&mut out, *tail as u64);
                out.append(" in ");
                text::append_decimal(&mut out, *len as u64);
                out.append(" bytes");
            },
        }
        assert(out@ =~= self.text());
        out
    }
}

// ---------------------------------------------------------------------------
// Key schedule
// ---------------------------------------------------------------------------

/// The smallest odd number that is not below `x`.
pub open spec fn odd_at_least(x: int) -> int {
    if x % 2 == 0 {
        x + 1
    } else {
        x
    }
}

/// Absolute value of a key.
pub open spec fn magnitude(key: int) -> int {
    if key < 0 {
        -key
    } else {
        key
    }
}

/// What the running seed grows by at each step.
pub open spec fn seed_increment(key: int) -> int {
    odd_at_least((magnitude(key) / 256) % 256)
}

/// Two's-complement reading of a sixteen-bit word.
pub open spec fn signed_word(word: int) -> int {
    if word < 0x8000 {
        word
    } else {
        word - 0x1_0000
    }
}

/// Distance between two consecutive residues of the walk; negative keys walk
/// in the opposite direction.
pub open spec fn stride(key: int) -> int {
    let m = magnitude(key);
    let forward = signed_word(odd_at_least((m / 0x1_0000 + m % 256) % 0x1_0000));
    if key < 0 {
        -forward
    } else {
        forward
    }
}

/// How often a negative key counts its increment into its first seed.
pub open spec fn negative_factor(len: int, start: int, tail: int) -> int {
    if len < 256 {
        start + tail + 1 + len
    } else {
        start + tail + 1
    }
}

/// Seed added at the first step.
pub open spec fn first_seed(key: int, len: int, start: int, tail: int) -> int {
    let low = magnitude(key) % 256;
    if key < 0 {
        (seed_increment(key) * negative_factor(len, start, tail) - low) % 256
    } else {
        low
    }
}

// ---------------------------------------------------------------------------
// The cycle of active positions
// ---------------------------------------------------------------------------

/// Whether `position` lies in the active range `start..=len-1-tail`.
pub open spec fn is_active(len: int, start: int, tail: int, position: int) -> bool {
    start <= position < len - tail
}

/// The `k`-th residue of the walk.
pub open spec fn residue(len: int, start: int, step: int, k: int) -> int {
    (start + k * step) % len
}

/// The active positions among the first `k` residues, in walk order.
pub open spec fn active_prefix(len: int, start: int, tail: int, step: int, k: nat) -> Seq<int>
    decreases k,
{
    if k == 0 {
        Seq::empty()
    } else {
        let earlier = active_prefix(len, start, tail, step, (k - 1) as nat);
        let position = residue(len, start, step, k - 1);
        if is_active(len, start, tail, position) {
            earlier.push(position)
        } else {
            earlier
        }
    }
}

/// The active positions in the order in which the walk meets them.
pub open spec fn active_cycle(len: int, start: int, tail: int, key: int) -> Seq<int> {
    active_prefix(len, start, tail, stride(key), len as nat)
}

/// What replaces the `i`-th byte of the cycle: its successor on the cycle plus
/// the seed that has grown for `i` steps.
#[verifier::opaque]
pub open spec fn cycle_byte(
    bytes: Seq<u8>,
    cycle: Seq<int>,
    seed: int,
    increment: int,
    i: int,
) -> u8 {
    ((bytes[cycle[(i + 1) % (cycle.len() as int)]] + seed + i * increment) % 256) as u8
}

/// The buffer after the primitive has been applied with `key`.
pub open spec fn permuted(bytes: Seq<u8>, start: int, tail: int, key: int) -> Seq<u8> {
    let len = bytes.len() as int;
    let cycle = active_cycle(len, start, tail, key);
    Seq::new(
        bytes.len(),
        |position: int|
            if key != 0 && is_active(len, start, tail, position) {
                cycle_byte(
                    bytes,
                    cycle,
                    first_seed(key, len, start, tail),
                    seed_increment(key),
                    cycle.index_of(position),
                )
            } else {
                bytes[position]
            },
    )
}

/// Whether `start` and `tail` leave a nonempty active range in a buffer of
/// power-of-two length `len`.
pub open spec fn valid_bounds(len: int, start: int, tail: int) -> bool {
    power2::is_pow2(len) && 0 <= start && 0 <= tail && start + tail < len
}

// ---------------------------------------------------------------------------
// The walk visits every residue once
// ---------------------------------------------------------------------------

/// An odd number is invertible modulo a power of two.
proof fn lemma_odd_inverse(n: int, s: int) -> (r: (int, int))
    requires
        power2::is_pow2(n),
        s % 2 == 1,
    ensures
        r.0 * s == 1 + n * r.1,
    decreases n,
{
    reveal(power2::is_pow2);
    if n == 1 {
        (0int, -1int)
    } else {
        let half = n / 2;
        let (t, q) = lemma_odd_inverse(half, s);
        assert(n == 2 * half);
        if q % 2 == 0 {
            let p = q / 2;
            assert(half * q == n * p) by (nonlinear_arith)
                requires
                    q == 2 * p,
                    n == 2 * half,
            ;
            (t, p)
        } else {
            let p = (q + s) / 2;
            assert((t + half) * s == 1 + n * p) by (nonlinear_arith)
                requires
                    q + s == 2 * p,
                    n == 2 * half,
                    t * s == 1 + half * q,
            ;
            (t + half, p)
        }
    }
}

/// Two walk indices with the same residue differ by a multiple of the length.
pub(crate) proof fn lemma_residue_injective(len: int, start: int, step: int, a: int, b: int)
    requires
        power2::is_pow2(len),
        step % 2 == 1,
        0 <= a < len,
        0 <= b < len,
        residue(len, start, step, a) == residue(len, start, step, b),
    ensures
        a == b,
{
    reveal(power2::is_pow2);
    let (t, q) = lemma_odd_inverse(len, step);
    let x = start + a * step;
    let y = start + b * step;
    div_mod::lemma_fundamental_div_mod(x, len);
    div_mod::lemma_fundamental_div_mod(y, len);
    let d = x / len - y / len;
    assert((a - b) * step == len * d) by (nonlinear_arith)
        requires
            x == start + a * step,
            y == start + b * step,
            x == len * (x / len) + x % len,
            y == len * (y / len) + y % len,
            x % len == y % len,
            d == x / len - y / len,
    ;
    // Multiplying by the inverse: (a - b) * (1 + len * q) == len * d * t.
    let e = d * t - (a - b) * q;
    assert(a - b == len * e) by (nonlinear_arith)
        requires
            (a - b) * step == len * d,
            t * step == 1 + len * q,
            e == d * t - (a - b) * q,
    ;
    assert(e == 0) by (nonlinear_arith)
        requires
            a - b == len * e,
            -len < a - b < len,
            len > 0,
    ;
}

/// Every position is met by the walk.
pub(crate) proof fn lemma_residue_surjective(len: int, start: int, step: int, position: int) -> (k: int)
    requires
        power2::is_pow2(len),
        step % 2 == 1,
        0 <= position < len,
    ensures
        0 <= k < len,
        residue(len, start, step, k) == position,
{
    reveal(power2::is_pow2);
    let (t, q) = lemma_odd_inverse(len, step);
    let want = (position - start) * t;
    let k = want % len;
    let w = want / len;
    div_mod::lemma_fundamental_div_mod(want, len);
    div_mod::lemma_mod_bound(want, len);
    let m = (position - start) * q - w * step;
    assert(start + k * step == len * m + position) by (nonlinear_arith)
        requires
            want == (position - start) * t,
            want == len * w + k,
            t * step == 1 + len * q,
            m == (position - start) * q - w * step,
    ;
    div_mod::lemma_fundamental_div_mod_converse(
        start + k * step,
        len,
        m,
        position,
    );
    k
}

// ---------------------------------------------------------------------------
// The active positions form one cycle
// ---------------------------------------------------------------------------

/// What a prefix of the cycle holds: exactly the active residues met so far,
/// each once, beginning at `start`.
pub(crate) proof fn lemma_active_prefix(len: int, start: int, tail: int, step: int, k: nat)
    requires
        valid_bounds(len, start, tail),
        step % 2 == 1,
        k <= len,
    ensures
        active_prefix(len, start, tail, step, k).no_duplicates(),
        forall|i: int|
            0 <= i < active_prefix(len, start, tail, step, k).len() ==> is_active(
                len,
                start,
                tail,
                #[trigger] active_prefix(len, start, tail, step, k)[i],
            ) && exists|j: int|
                0 <= j < k && active_prefix(len, start, tail, step, k)[i] == #[trigger] residue(
                    len,
                    start,
                    step,
                    j,
                ),
        forall|j: int|
            #![trigger residue(len, start, step, j)]
            0 <= j < k && is_active(len, start, tail, residue(len, start, step, j))
                ==> active_prefix(len, start, tail, step, k).contains(
                residue(len, start, step, j),
            ),
        k > 0 ==> active_prefix(len, start, tail, step, k).len() > 0 && active_prefix(
            len,
            start,
            tail,
            step,
            k,
        )[0] == start,
    decreases k,
{
    if k > 0 {
        let earlier = active_prefix(len, start, tail, step, (k - 1) as nat);
        let full = active_prefix(len, start, tail, step, k);
        let position = residue(len, start, step, k - 1);
        lemma_active_prefix(len, start, tail, step, (k - 1) as nat);
        if k == 1 {
            div_mod::lemma_small_mod(start as nat, len as nat);
            assert(0 * step == 0);
            assert(position == start);
        }
        if is_active(len, start, tail, position) {
            assert forall|i: int| 0 <= i < earlier.len() implies earlier[i] != position by {
                let j = choose|j: int|
                    0 <= j < k - 1 && earlier[i] == #[trigger] residue(len, start, step, j);
                if earlier[i] == position {
                    lemma_residue_injective(len, start, step, j, k - 1);
                }
            }
            assert forall|i: int| 0 <= i < full.len() implies is_active(
                len,
                start,
                tail,
                #[trigger] full[i],
            ) && exists|j: int|
                0 <= j < k && full[i] == #[trigger] residue(len, start, step, j) by {
                if i < earlier.len() {
                    assert(full[i] == earlier[i]);
                } else {
                    assert(full[i] == residue(len, start, step, k - 1));
                }
            }
            assert forall|j: int|
                #![trigger residue(len, start, step, j)]
                0 <= j < k && is_active(
                    len,
                    start,
                    tail,
                    residue(len, start, step, j),
                ) implies full.contains(residue(len, start, step, j)) by {
                if j < k - 1 {
                    let i = choose|i: int|
                        0 <= i < earlier.len() && earlier[i] == residue(len, start, step, j);
                    assert(full[i] == residue(len, start, step, j));
                } else {
                    assert(full[full.len() - 1] == position);
                }
            }
        }
    }
}

/// A shorter prefix of the cycle is a prefix of a longer one.
pub(crate) proof fn lemma_active_prefix_grows(
    len: int,
    start: int,
    tail: int,
    step: int,
    short: nat,
    long: nat,
)
    requires
        short <= long,
    ensures
        active_prefix(len, start, tail, step, short).is_prefix_of(
            active_prefix(len, start, tail, step, long),
        ),
    decreases long,
{
    if short < long {
        lemma_active_prefix_grows(len, start, tail, step, short, (long - 1) as nat);
        assert(active_prefix(len, start, tail, step, (long - 1) as nat).is_prefix_of(
            active_prefix(len, start, tail, step, long),
        ));
    }
}

/// Residues that are not active leave the prefix as it is.
pub(crate) proof fn lemma_active_prefix_skips(
    len: int,
    start: int,
    tail: int,
    step: int,
    short: nat,
    long: nat,
)
    requires
        short <= long,
        forall|j: int|
            short <= j < long ==> !is_active(
                len,
                start,
                tail,
                #[trigger] residue(len, start, step, j),
            ),
    ensures
        active_prefix(len, start, tail, step, short) == active_prefix(
            len,
            start,
            tail,
            step,
            long,
        ),
    decreases long,
{
    if short < long {
        lemma_active_prefix_skips(len, start, tail, step, short, (long - 1) as nat);
        assert(!is_active(len, start, tail, residue(len, start, step, long - 1)));
    }
}

/// The walk is back at `start` after `len` residues and not before.
pub(crate) proof fn lemma_return_to_start(len: int, start: int, tail: int, step: int, k: int)
    requires
        valid_bounds(len, start, tail),
        step % 2 == 1,
        0 < k <= len,
    ensures
        residue(len, start, step, k) == start <==> k == len,
{
    div_mod::lemma_small_mod(start as nat, len as nat);
    assert(residue(len, start, step, 0) == start) by {
        assert(0 * step == 0);
    }
    if k < len {
        if residue(len, start, step, k) == start {
            lemma_residue_injective(len, start, step, 0, k);
        }
    } else {
        div_mod::lemma_mod_multiples_vanish(step, start, len);
        assert(len * step + start == start + k * step) by (nonlinear_arith)
            requires
                k == len,
        ;
    }
}

/// One step of the walk, from residue `k` to residue `k + 1`.
proof fn lemma_residue_step(len: int, start: int, step: int, k: int)
    requires
        len > 0,
    ensures
        residue(len, start, step, k + 1) == (residue(len, start, step, k) + step) % len,
        0 <= residue(len, start, step, k) < len,
{
    div_mod::lemma_add_mod_noop(start + k * step, step, len);
    div_mod::lemma_add_mod_noop(residue(len, start, step, k), step, len);
    div_mod::lemma_mod_twice(start + k * step, len);
    div_mod::lemma_mod_bound(start + k * step, len);
    assert(start + (k + 1) * step == start + k * step + step) by (nonlinear_arith);
}

// ---------------------------------------------------------------------------
// The primitive
// ---------------------------------------------------------------------------

/// Whether `len` is a power of two.
fn is_power_of_two(len: usize) -> (r: bool)
    ensures
        r == power2::is_pow2(len as int),
{
    let mut x: usize = len;
    proof {
        reveal(power2::is_pow2);
    }
    while x != 0 && x % 2 == 0
        invariant
            power2::is_pow2(x as int) == power2::is_pow2(len as int),
        decreases x,
    {
        proof {
            reveal(power2::is_pow2);
        }
        x = x / 2;
    }
    x == 1
}

fn validate_bounds(len: usize, start: usize, tail: usize) -> (r: Result<(), PagePermutationError>)
    ensures
        match r {
            Ok(_) => valid_bounds(len as int, start as int, tail as int),
            Err(PagePermutationError::NonPowerOfTwoLength { len: l }) => l == len && !power2::is_pow2(
                len as int,
            ),
            Err(PagePermutationError::InvalidActiveRange { len: l, start: s, tail: t }) => l == len
                && s == start && t == tail && power2::is_pow2(len as int) && start + tail >= len,
            Err(_) => false,
        },
{
    proof {
        reveal(power2::is_pow2);
    }
    if !is_power_of_two(len) {
        return Err(PagePermutationError::NonPowerOfTwoLength { len });
    }
    if start >= len || tail >= len - start {
        return Err(PagePermutationError::InvalidActiveRange { len, start, tail });
    }
    Ok(())
}

/// `base` moved on by `stride` modulo `len`.
fn step_modulo(base: usize, stride: i16, len: usize) -> (r: usize)
    requires
        base < len,
    ensures
        r == (base + stride) % (len as int),
        r < len,
{
    if stride >= 0 {
        let forward: usize = stride as usize % len;
        proof {
            div_mod::lemma_add_mod_noop(base as int, stride as int, len as int);
            div_mod::lemma_add_mod_noop(base as int, forward as int, len as int);
            div_mod::lemma_mod_twice(stride as int, len as int);
        }
        if base >= len - forward {
            proof {
                div_mod::lemma_fundamental_div_mod_converse(
                    base + forward,
                    len as int,
                    1,
                    base + forward - len,
                );
            }
            base - (len - forward)
        } else {
            proof {
                div_mod::lemma_small_mod((base + forward) as nat, len as nat);
            }
            base + forward
        }
    } else {
        let distance: usize = (-(stride as i32)) as usize;
        let backward: usize = distance % len;
        proof {
            div_mod::lemma_sub_mod_noop(
                base as int,
                distance as int,
                len as int,
            );
            div_mod::lemma_sub_mod_noop(
                base as int,
                backward as int,
                len as int,
            );
            div_mod::lemma_mod_twice(distance as int, len as int);
        }
        if base >= backward {
            proof {
                div_mod::lemma_small_mod((base - backward) as nat, len as nat);
            }
            base - backward
        } else {
            proof {
                div_mod::lemma_fundamental_div_mod_converse(
                    base - backward,
                    len as int,
                    -1,
                    base - backward + len,
                );
            }
            len - (backward - base)
        }
    }
}

/// The first active position after `current` on the walk.
fn next_in_active_range(
    current: usize,
    stride: i16,
    len: usize,
    start: usize,
    end: usize,
) -> (r: Result<usize, PagePermutationError>)
    requires
        start <= current <= end < len,
    ensures
        r is Ok,
        start <= r->Ok_0 <= end,
        exists|j: int|
            0 < j <= len && r->Ok_0 == #[trigger] residue(
                len as int,
                current as int,
                stride as int,
                j,
            ) && forall|i: int|
                0 < i < j ==> !is_active(
                    len as int,
                    start as int,
                    len - 1 - end,
                    #[trigger] residue(len as int, current as int, stride as int, i),
                ),
{
    let mut candidate: usize = step_modulo(current, stride, len);
    let mut steps: usize = 0;
    proof {
        lemma_residue_step(len as int, current as int, stride as int, 0);
        div_mod::lemma_small_mod(current as nat, len as nat);
        assert(0 * stride == 0);
    }
    while steps < len
        invariant
            start <= current <= end < len,
            candidate < len,
            steps <= len,
            candidate == residue(len as int, current as int, stride as int, steps + 1),
            forall|i: int|
                0 < i <= steps ==> !is_active(
                    len as int,
                    start as int,
                    len - 1 - end,
                    #[trigger] residue(len as int, current as int, stride as int, i),
                ),
        decreases len - steps,
    {
        if start <= candidate && candidate <= end {
            return Ok(candidate);
        }
        proof {
            lemma_residue_step(len as int, current as int, stride as int, steps + 1);
        }
        candidate = step_modulo(candidate, stride, len);
        steps = steps + 1;
    }
    // One whole modulus cycle leads back to `current`, which is active.
    proof {
        let full = residue(len as int, current as int, stride as int, len as int);
        div_mod::lemma_mod_multiples_vanish(
            stride as int,
            current as int,
            len as int,
        );
        div_mod::lemma_small_mod(current as nat, len as nat);
        assert(len * stride + current == current + (len as int) * (stride as int));
        assert(full == current);
        assert(false);
    }
    Err(PagePermutationError::NoActiveCycle { len, start, tail: len - 1 - end })
}

/// Seed of a negative key.
fn negative_seed(len: usize, start: usize, tail: usize, increment: u8, low8: u8) -> (r: u8)
    requires
        start + tail < len,
    ensures
        r == (increment * negative_factor(len as int, start as int, tail as int) - low8) % 256,
{
    let boundary: usize = start + tail;
    let factor: u8 = if len < 256 {
        ((boundary + 1 + len) % 256) as u8
    } else {
        ((boundary + 1) % 256) as u8
    };
    let ghost exact = negative_factor(len as int, start as int, tail as int);
    assert(increment * factor <= 255 * 255) by (nonlinear_arith)
        requires
            increment <= 255,
            factor <= 255,
    ;
    let product: u32 = increment as u32 * factor as u32;
    proof {
        div_mod::lemma_mul_mod_noop_right(increment as int, exact, 256);
        lemma_difference_mod(product as int, increment * exact, low8 as int);
    }
    ((product % 256 + 256 - low8 as u32) % 256) as u8
}

proof fn lemma_difference_mod(product: int, exact: int, low: int)
    requires
        product % 256 == exact % 256,
    ensures
        (product % 256 + 256 - low) % 256 == (exact - low) % 256,
{
}

/// Seed increment of a key with the given magnitude.
fn increment_of(size: u32) -> (increment: u8)
    ensures
        increment == odd_at_least((size as int / 256) % 256),
{
    let second: u8 = ((size / 256) % 256) as u8;
    if second % 2 == 0 {
        second + 1
    } else {
        second
    }
}

/// Stride of a positive key with the given magnitude.
fn forward_stride(size: u32) -> (forward: i32)
    ensures
        forward == signed_word(odd_at_least((size as int / 0x1_0000 + size as int % 256) % 0x1_0000)),
        -0x8000 < forward < 0x8000,
        forward as int % 2 == 1,
{
    let word: u32 = (size / 0x1_0000 + size % 256) % 0x1_0000;
    let odd: u32 = if word % 2 == 0 {
        word + 1
    } else {
        word
    };
    if odd < 0x8000 {
        odd as i32
    } else {
        odd as i32 - 0x1_0000
    }
}

/// `key` split into its magnitude, seed increment and stride.
fn key_schedule(key: i32) -> (r: (u32, u8, i16))
    ensures
        r.0 == magnitude(key as int),
        r.1 == seed_increment(key as int),
        r.2 == stride(key as int),
        (r.2 as int) % 2 == 1,
{
    let size: u32 = if key < 0 {
        (-(key as i64)) as u32
    } else {
        key as u32
    };
    let forward: i32 = forward_stride(size);
    let signed: i32 = if key < 0 {
        -forward
    } else {
        forward
    };
    (size, increment_of(size), signed as i16)
}

/// Where the walk goes next, told in terms of the cycle: from the `i`-th
/// active position at residue `k` either to the next one at a later residue,
/// or back to `start` when no active residue is left.
proof fn lemma_next_on_cycle(
    len: int,
    start: int,
    tail: int,
    step: int,
    k: int,
    next: int,
) -> (r: int)
    requires
        valid_bounds(len, start, tail),
        step % 2 == 1,
        0 <= k < len,
        is_active(len, start, tail, residue(len, start, step, k)),
        exists|j: int|
            0 < j <= len && next == #[trigger] residue(
                len,
                residue(len, start, step, k),
                step,
                j,
            ) && forall|i: int|
                0 < i < j ==> !is_active(
                    len,
                    start,
                    tail,
                    #[trigger] residue(len, residue(len, start, step, k), step, i),
                ),
        is_active(len, start, tail, next),
    ensures
        k < r <= len,
        next == start <==> r == len,
        next == residue(len, start, step, r),
        active_prefix(len, start, tail, step, (k + 1) as nat) == active_prefix(
            len,
            start,
            tail,
            step,
            r as nat,
        ),
{
    let current = residue(len, start, step, k);
    let j = choose|j: int|
        0 < j <= len && next == #[trigger] residue(len, current, step, j) && forall|i: int|
            0 < i < j ==> !is_active(
                len,
                start,
                tail,
                #[trigger] residue(len, current, step, i),
            );
    assert forall|i: int| residue(len, current, step, i) == #[trigger] residue(
        len,
        start,
        step,
        k + i,
    ) by {
        div_mod::lemma_add_mod_noop(start + k * step, i * step, len);
        div_mod::lemma_add_mod_noop(current, i * step, len);
        div_mod::lemma_mod_twice(start + k * step, len);
        assert(start + (k + i) * step == start + k * step + i * step) by (nonlinear_arith);
    }
    assert(residue(len, current, step, j) == residue(len, start, step, k + j));
    lemma_return_to_start(len, start, tail, step, len);
    if k + j > len {
        let i = len - k;
        assert(residue(len, current, step, i) == residue(len, start, step, k + i));
        assert(!is_active(len, start, tail, residue(len, current, step, i)));
    }
    lemma_return_to_start(len, start, tail, step, k + j);
    assert forall|m: int| k + 1 <= m < k + j implies !is_active(
        len,
        start,
        tail,
        #[trigger] residue(len, start, step, m),
    ) by {
        assert(residue(len, current, step, m - k) == residue(len, start, step, k + (m - k)));
    }
    lemma_active_prefix_skips(len, start, tail, step, (k + 1) as nat, (k + j) as nat);
    k + j
}

/// The seed that has grown for `i` steps.
#[verifier::opaque]
spec fn seed_after(seed: int, increment: int, i: int) -> int {
    (seed + i * increment) % 256
}

/// How the running seed enters the `i`-th byte of the cycle, and how it grows.
proof fn lemma_cycle_byte(
    bytes: Seq<u8>,
    cycle: Seq<int>,
    seed0: int,
    increment: int,
    i: int,
    seed: int,
)
    requires
        0 <= i < cycle.len(),
        seed == seed_after(seed0, increment, i),
        0 <= increment < 256,
    ensures
        0 <= seed < 256,
        i + 1 < cycle.len() ==> cycle_byte(bytes, cycle, seed0, increment, i) == ((
        bytes[cycle[i + 1]] + seed) % 256) as u8,
        i + 1 == cycle.len() ==> cycle_byte(bytes, cycle, seed0, increment, i) == ((bytes[cycle[0]]
            + seed) % 256) as u8,
        (seed + increment) % 256 == seed_after(seed0, increment, i + 1),
{
    let grown = i * increment;
    let successor = if i + 1 < cycle.len() {
        cycle[i + 1]
    } else {
        cycle[0]
    };
    assert(seed == (seed0 + grown) % 256 && seed_after(seed0, increment, i + 1) == (seed0 + grown
        + increment) % 256) by {
        reveal(seed_after);
        assert((i + 1) * increment == grown + increment) by (nonlinear_arith)
            requires
                grown == i * increment,
        ;
    }
    assert(cycle_byte(bytes, cycle, seed0, increment, i) == ((bytes[successor] + seed0 + grown)
        % 256) as u8) by {
        reveal(cycle_byte);
        if i + 1 < cycle.len() {
            div_mod::lemma_small_mod((i + 1) as nat, cycle.len());
        } else {
            div_mod::lemma_mod_self_0(cycle.len() as int);
        }
    }
    lemma_absorb_mod(bytes[successor] as int, seed0 + grown);
    lemma_absorb_mod(increment, seed0 + grown);
}

/// A remainder may be taken before or after an addition.
proof fn lemma_absorb_mod(added: int, total: int)
    ensures
        (added + total % 256) % 256 == (added + total) % 256,
        (total % 256 + added) % 256 == (total + added) % 256,
        0 <= total % 256 < 256,
{
    div_mod::lemma_add_mod_noop_right(added, total, 256);
}

/// A buffer in which every cycle position holds its successor plus its seed,
/// and every other position its old byte, is the permuted buffer.
proof fn lemma_is_permuted(old: Seq<u8>, new: Seq<u8>, start: int, tail: int, key: int)
    requires
        valid_bounds(old.len() as int, start, tail),
        stride(key) % 2 == 1,
        key != 0,
        new.len() == old.len(),
        ({
            let cycle = active_cycle(old.len() as int, start, tail, key);
            &&& forall|j: int|
                0 <= j < cycle.len() ==> new[#[trigger] cycle[j]] == cycle_byte(
                    old,
                    cycle,
                    first_seed(key, old.len() as int, start, tail),
                    seed_increment(key),
                    j,
                )
            &&& forall|p: int|
                0 <= p < old.len() && !is_active(old.len() as int, start, tail, p)
                    ==> #[trigger] new[p] == old[p]
        }),
    ensures
        new == permuted(old, start, tail, key),
{
    let len = old.len() as int;
    let cycle = active_cycle(len, start, tail, key);
    lemma_active_prefix(len, start, tail, stride(key), len as nat);
    assert forall|p: int| 0 <= p < len implies #[trigger] new[p] == permuted(
        old,
        start,
        tail,
        key,
    )[p] by {
        if is_active(len, start, tail, p) {
            let k = lemma_residue_surjective(len, start, stride(key), p);
            assert(cycle.contains(p));
            let i = cycle.index_of(p);
            assert(cycle[i] == p);
            assert(new[cycle[i]] == permuted(old, start, tail, key)[p]);
        }
    }
    assert(new =~= permuted(old, start, tail, key));
}

/// Apply the exact primitive to a power-of-two byte buffer.
///
/// This general form exists to make the modulus and bounds explicit in tests.
/// Production callers of the recovered SA17 path use
/// [`permute_sector_in_place`] with 512 bytes.
pub fn permute_power_of_two_in_place(
    bytes: &mut [u8],
    start: usize,
    tail: usize,
    signed_key: i32,
) -> (r: Result<(), PagePermutationError>)
    ensures
        match r {
            Ok(_) => valid_bounds(old(bytes)@.len() as int, start as int, tail as int)
                && final(bytes)@ == permuted(
                old(bytes)@,
                start as int,
                tail as int,
                signed_key as int,
            ),
            Err(PagePermutationError::NonPowerOfTwoLength { len }) => len == old(bytes)@.len()
                && !power2::is_pow2(old(bytes)@.len() as int) && final(bytes)@ == old(bytes)@,
            Err(PagePermutationError::InvalidActiveRange { len, start: s, tail: t }) => len == old(
                bytes,
            )@.len() && s == start && t == tail && power2::is_pow2(old(bytes)@.len() as int) && start + tail
                >= old(bytes)@.len() && final(bytes)@ == old(bytes)@,
            Err(_) => false,
        },
{
    let len: usize = bytes.len();
    match validate_bounds(len, start, tail) {
        Ok(_) => {},
        Err(error) => {
            return Err(error);
        },
    }
    if signed_key == 0 {
        assert(bytes@ =~= permuted(bytes@, start as int, tail as int, 0));
        return Ok(());
    }
    let (size, increment, stride) = key_schedule(signed_key);
    let low8: u8 = (size % 256) as u8;
    let mut seed: u8 = if signed_key < 0 {
        negative_seed(len, start, tail, increment, low8)
    } else {
        low8
    };
    let end: usize = len - 1 - tail;
    let first: u8 = bytes[start];
    let mut current: usize = start;

    let ghost initial = bytes@;
    let ghost n = len as int;
    let ghost key = signed_key as int;
    let ghost cycle = active_cycle(n, start as int, tail as int, key);
    let ghost seed0 = first_seed(key, n, start as int, tail as int);
    let ghost mut k: int = 0;
    let ghost mut i: int = 0;
    proof {
        lemma_active_prefix(n, start as int, tail as int, stride as int, 1);
        lemma_active_prefix(n, start as int, tail as int, stride as int, n as nat);
        lemma_active_prefix_grows(n, start as int, tail as int, stride as int, 1, n as nat);
        div_mod::lemma_small_mod(start as nat, len as nat);
        assert(0 * stride == 0);
        assert(residue(n, start as int, stride as int, 0) == start);
        assert(active_prefix(n, start as int, tail as int, stride as int, 0).len() == 0);
        assert(active_prefix(n, start as int, tail as int, stride as int, 1).len() == 1);
        reveal(seed_after);
        assert(0 * increment == 0);
    }
    loop
        invariant
            n == len,
            bytes@.len() == len,
            initial.len() == len,
            end == len - 1 - tail,
            valid_bounds(n, start as int, tail as int),
            stride as int == self::stride(key),
            increment == seed_increment(key),
            (stride as int) % 2 == 1,
            key != 0,
            cycle == active_cycle(n, start as int, tail as int, key),
            seed0 == first_seed(key, n, start as int, tail as int),
            first == initial[start as int],
            initial == old(bytes)@,
            key == signed_key,
            0 <= k < n,
            0 <= i < cycle.len(),
            start <= current <= end,
            current == residue(n, start as int, stride as int, k),
            current == cycle[i],
            active_prefix(n, start as int, tail as int, stride as int, (k + 1) as nat).len() == i + 1,
            seed == seed_after(seed0, increment as int, i),
            cycle.no_duplicates(),
            cycle[0] == start,
            forall|j: int|
                0 <= j < cycle.len() ==> start <= #[trigger] cycle[j] <= end,
            forall|j: int|
                0 <= j < i ==> bytes@[#[trigger] cycle[j]] == cycle_byte(
                    initial,
                    cycle,
                    seed0,
                    increment as int,
                    j,
                ),
            forall|j: int| i <= j < cycle.len() ==> bytes@[#[trigger] cycle[j]] == initial[cycle[j]],
            forall|p: int|
                0 <= p < n && !is_active(n, start as int, tail as int, p) ==> #[trigger] bytes@[p]
                    == initial[p],
        decreases n - k,
    {
        let next: usize = match next_in_active_range(current, stride, len, start, end) {
            Ok(next) => next,
            Err(error) => {
                return Err(error);
            },
        };
        let ghost k1 = lemma_next_on_cycle(
            n,
            start as int,
            tail as int,
            stride as int,
            k,
            next as int,
        );
        if next == start {
            assert(cycle.len() == i + 1);
            bytes[current] = first.wrapping_add(seed);
            proof {
                lemma_cycle_byte(initial, cycle, seed0, increment as int, i, seed as int);
                lemma_is_permuted(initial, bytes@, start as int, tail as int, key);
            }
            return Ok(());
        }
        let ghost before = bytes@;
        proof {
            lemma_active_prefix_grows(
                n,
                start as int,
                tail as int,
                stride as int,
                (k1 + 1) as nat,
                n as nat,
            );
            let longer = active_prefix(
                n,
                start as int,
                tail as int,
                stride as int,
                (k1 + 1) as nat,
            );
            assert(longer.len() == i + 2);
            assert(longer[i + 1] == next);
            assert(cycle[i + 1] == next);
            lemma_cycle_byte(initial, cycle, seed0, increment as int, i, seed as int);
        }
        bytes[current] = bytes[next].wrapping_add(seed);
        seed = seed.wrapping_add(increment);
        current = next;
        proof {
            assert forall|j: int| 0 <= j < i + 1 implies bytes@[#[trigger] cycle[j]] == cycle_byte(
                initial,
                cycle,
                seed0,
                increment as int,
                j,
            ) by {
                if j < i {
                    assert(cycle[j] != cycle[i]);
                }
            }
            k = k1;
            i = i + 1;
        }
    }
}

/// Apply the exact primitive to one 512-byte sector.
///
/// `start` is inclusive and `tail` excludes bytes from the sector's end. The
/// active range is therefore `start..=511-tail`. A zero key leaves bytes
/// unchanged after the arguments have been validated.
pub fn permute_sector_in_place(
    sector: &mut [u8],
    start: usize,
    tail: usize,
    signed_key: i32,
) -> (r: Result<(), PagePermutationError>)
    ensures
        match r {
            Ok(_) => old(sector)@.len() == PAGE_PERMUTATION_SECTOR_LEN && start + tail
                < PAGE_PERMUTATION_SECTOR_LEN && final(sector)@ == permuted(
                old(sector)@,
                start as int,
                tail as int,
                signed_key as int,
            ),
            Err(PagePermutationError::InvalidSectorLength { len }) => len == old(sector)@.len()
                && len != PAGE_PERMUTATION_SECTOR_LEN && final(sector)@ == old(sector)@,
            Err(PagePermutationError::InvalidActiveRange { len, start: s, tail: t }) => len == old(
                sector,
            )@.len() && s == start && t == tail && len == PAGE_PERMUTATION_SECTOR_LEN && start
                + tail >= PAGE_PERMUTATION_SECTOR_LEN && final(sector)@ == old(sector)@,
            Err(_) => false,
        },
{
    if sector.len() != PAGE_PERMUTATION_SECTOR_LEN {
        return Err(PagePermutationError::InvalidSectorLength { len: sector.len() });
    }
    proof {
        reveal_with_fuel(power2::is_pow2, 10);
    }
    permute_power_of_two_in_place(sector, start, tail, signed_key)
}

// ---------------------------------------------------------------------------
// Laws
// ---------------------------------------------------------------------------

/// Strides are odd.
proof fn lemma_stride_odd(key: int)
    ensures
        stride(key) % 2 == 1,
        stride(-key) == -stride(key) || key == 0,
        seed_increment(-key) == seed_increment(key),
        seed_increment(key) % 2 == 1,
{
}

/// The number of active positions on the cycle.
proof fn lemma_cycle_len(len: int, start: int, tail: int, step: int)
    requires
        valid_bounds(len, start, tail),
        step % 2 == 1,
    ensures
        active_prefix(len, start, tail, step, len as nat).len() == len - start - tail,
{
    let cycle = active_prefix(len, start, tail, step, len as nat);
    lemma_active_prefix(len, start, tail, step, len as nat);
    cycle.unique_seq_to_set();
    set_lib::lemma_int_range(start, len - tail);
    assert(cycle.to_set() =~= set_lib::set_int_range(start, len - tail)) by {
        assert forall|p: int| start <= p < len - tail implies cycle.to_set().contains(p) by {
            let k = lemma_residue_surjective(len, start, step, p);
            assert(cycle.contains(p));
        }
    }
}

/// Walking with the opposite stride meets the same residues backwards.
proof fn lemma_opposite_prefix(len: int, start: int, tail: int, step: int, k: nat)
    requires
        valid_bounds(len, start, tail),
        step % 2 == 1,
        1 <= k <= len,
    ensures
        ({
            let cycle = active_prefix(len, start, tail, step, len as nat);
            let met = active_prefix(len, start, tail, step, (len - k + 1) as nat).len() as int;
            &&& 0 <= met <= cycle.len()
            &&& active_prefix(len, start, tail, -step, k) == seq![start] + cycle.skip(
                met,
            ).reverse()
        }),
    decreases k,
{
    let cycle = active_prefix(len, start, tail, step, len as nat);
    let back = active_prefix(len, start, tail, -step, k);
    let met = active_prefix(len, start, tail, step, (len - k + 1) as nat).len() as int;
    lemma_active_prefix_grows(len, start, tail, step, (len - k + 1) as nat, len as nat);
    if k == 1 {
        div_mod::lemma_small_mod(start as nat, len as nat);
        assert(0 * (-step) == 0);
        assert(residue(len, start, -step, 0) == start);
        assert(active_prefix(len, start, tail, -step, 0) =~= Seq::<int>::empty());
        assert(back =~= seq![start] + cycle.skip(met).reverse());
    } else {
        lemma_opposite_prefix(len, start, tail, step, (k - 1) as nat);
        let position = residue(len, start, -step, k - 1);
        assert(position == residue(len, start, step, len - (k - 1))) by {
            div_mod::lemma_mod_multiples_vanish(
                step,
                start + (k - 1) * (-step),
                len,
            );
            assert(len * step + (start + (k - 1) * (-step)) == start + (len - (k - 1)) * step)
                by (nonlinear_arith);
        }
        let later = active_prefix(len, start, tail, step, (len - k + 2) as nat);
        lemma_active_prefix_grows(len, start, tail, step, (len - k + 2) as nat, len as nat);
        if is_active(len, start, tail, position) {
            assert(later.len() == met + 1);
            assert(later[met] == position);
            assert(cycle[met] == position);
            assert(cycle.skip(met).reverse() =~= cycle.skip(met + 1).reverse().push(position));
        } else {
            assert(later.len() == met);
        }
        assert(back =~= seq![start] + cycle.skip(met).reverse());
    }
}

/// The cycle of the opposite key is the same cycle run backwards from `start`.
proof fn lemma_opposite_cycle(len: int, start: int, tail: int, key: int)
    requires
        valid_bounds(len, start, tail),
        key != 0,
    ensures
        ({
            let cycle = active_cycle(len, start, tail, key);
            let back = active_cycle(len, start, tail, -key);
            let n = len - start - tail;
            &&& cycle.len() == n
            &&& back.len() == n
            &&& cycle[0] == start
            &&& back[0] == start
            &&& forall|i: int| 0 < i < n ==> #[trigger] back[i] == cycle[n - i]
        }),
{
    lemma_stride_odd(key);
    let step = stride(key);
    lemma_cycle_len(len, start, tail, step);
    lemma_cycle_len(len, start, tail, -step);
    lemma_active_prefix(len, start, tail, step, len as nat);
    lemma_active_prefix(len, start, tail, step, 1);
    lemma_opposite_prefix(len, start, tail, step, len as nat);
    assert(active_prefix(len, start, tail, step, 0).len() == 0);
    assert(active_prefix(len, start, tail, step, 1).len() == 1);
}

/// What two opposite keys add to every active byte between them.
pub open spec fn opposite_keys_excess(len: int, key: int) -> int {
    if len < 256 {
        2 * len * seed_increment(key)
    } else {
        0
    }
}

/// The first seeds of two opposite keys, taken together.
proof fn lemma_first_seeds(len: int, start: int, tail: int, key: int)
    requires
        key != 0,
    ensures
        first_seed(key, len, start, tail) + first_seed(-key, len, start, tail) == magnitude(key)
            % 256 + (seed_increment(key) * negative_factor(len, start, tail) - magnitude(key)
            % 256) % 256,
{
    assert(magnitude(-key) == magnitude(key));
    assert(seed_increment(-key) == seed_increment(key));
}

proof fn lemma_sum_mod(low: int, product: int, rest: int)
    ensures
        (low + (product - low) % 256 + rest) % 256 == (product + rest) % 256,
{
}

/// How often the increment is counted into the seeds of two opposite keys over
/// a whole cycle.
proof fn lemma_counted(len: int, start: int, tail: int)
    ensures
        negative_factor(len, start, tail) + (len - start - tail) - 1 == if len < 256 {
            2 * len
        } else {
            len
        },
{
}

proof fn lemma_excess(len: int, start: int, tail: int, key: int)
    requires
        valid_bounds(len, start, tail),
        key != 0,
    ensures
        (first_seed(key, len, start, tail) + first_seed(-key, len, start, tail) + (len - start
            - tail - 1) * seed_increment(key)) % 256 == opposite_keys_excess(len, key) % 256,
{
    let inc = seed_increment(key);
    let low = magnitude(key) % 256;
    let factor = negative_factor(len, start, tail);
    let n = len - start - tail;
    let product = inc * factor;
    let rest = (n - 1) * inc;
    lemma_first_seeds(len, start, tail, key);
    lemma_sum_mod(low, product, rest);
    lemma_counted(len, start, tail);
    assert(product + rest == inc * (factor + n - 1)) by (nonlinear_arith)
        requires
            product == inc * factor,
            rest == (n - 1) * inc,
    ;
    if len < 256 {
        assert(inc * (2 * len) == 2 * len * inc) by (nonlinear_arith);
    } else {
        lemma_pow2_multiple_of_256(len);
        let blocks = len / 256;
        assert(inc * len == 256 * (inc * blocks)) by (nonlinear_arith)
            requires
                len == 256 * blocks,
        ;
    }
}

proof fn lemma_pow2_multiple_of_256(len: int)
    requires
        power2::is_pow2(len),
        len >= 256,
    ensures
        len % 256 == 0,
{
    reveal_with_fuel(power2::is_pow2, 9);
}

/// Applying a key and then its opposite leaves the inactive bytes alone and
/// adds the same number to every active byte: nothing for buffers of at least
/// 256 bytes, and twice the length times the seed increment for shorter ones.
pub proof fn opposite_keys_add_a_constant(
    bytes: Seq<u8>,
    start: int,
    tail: int,
    key: int,
    position: int,
)
    requires
        valid_bounds(bytes.len() as int, start, tail),
        key != 0,
        0 <= position < bytes.len(),
    ensures
        permuted(permuted(bytes, start, tail, key), start, tail, -key)[position] == if is_active(
            bytes.len() as int,
            start,
            tail,
            position,
        ) {
            ((bytes[position] + opposite_keys_excess(bytes.len() as int, key)) % 256) as u8
        } else {
            bytes[position]
        },
{
    let len = bytes.len() as int;
    let n = len - start - tail;
    let once = permuted(bytes, start, tail, key);
    let twice = permuted(once, start, tail, -key);
    if is_active(len, start, tail, position) {
        let cycle = active_cycle(len, start, tail, key);
        let back = active_cycle(len, start, tail, -key);
        lemma_stride_odd(key);
        lemma_opposite_cycle(len, start, tail, key);
        lemma_active_prefix(len, start, tail, stride(key), len as nat);
        lemma_active_prefix(len, start, tail, stride(-key), len as nat);
        let k = lemma_residue_surjective(len, start, stride(-key), position);
        assert(back.contains(position));
        let i = back.index_of(position);
        let j = n - 1 - i;
        let source = back[(i + 1) % n];
        if i + 1 == n {
            div_mod::lemma_mod_self_0(n);
        } else {
            div_mod::lemma_small_mod((i + 1) as nat, n as nat);
        }
        assert(source == cycle[j]);
        assert(cycle.index_of(source) == j) by {
            assert(cycle.contains(source));
        }
        if j + 1 == n {
            div_mod::lemma_mod_self_0(n);
        } else {
            div_mod::lemma_small_mod((j + 1) as nat, n as nat);
        }
        assert(cycle[(j + 1) % n] == position);
        reveal(cycle_byte);
        let inc = seed_increment(key);
        let seed = first_seed(key, len, start, tail);
        let seed2 = first_seed(-key, len, start, tail);
        let first_total = bytes[position] + seed + j * inc;
        let second_total = seed2 + i * inc;
        let rest = (n - 1) * inc;
        assert(once[source] == (first_total % 256) as u8);
        assert(twice[position] == ((once[source] + seed2 + i * inc) % 256) as u8);
        lemma_absorb_mod(second_total, first_total);
        assert(twice[position] == ((first_total + second_total) % 256) as u8);
        assert(j * inc + i * inc == rest) by (nonlinear_arith)
            requires
                j == n - 1 - i,
                rest == (n - 1) * inc,
        ;
        lemma_excess(len, start, tail, key);
        lemma_absorb_mod(bytes[position] as int, seed + seed2 + rest);
        lemma_absorb_mod(bytes[position] as int, opposite_keys_excess(len, key));
    }
}

/// Applying a key and then its opposite restores the buffer. Shorter buffers
/// than 128 bytes keep the constant of [`opposite_keys_add_a_constant`].
pub proof fn opposite_keys_restore_the_buffer(bytes: Seq<u8>, start: int, tail: int, key: int)
    requires
        valid_bounds(bytes.len() as int, start, tail),
        bytes.len() >= 128 || key == 0,
    ensures
        permuted(permuted(bytes, start, tail, key), start, tail, -key) == bytes,
{
    let len = bytes.len() as int;
    let twice = permuted(permuted(bytes, start, tail, key), start, tail, -key);
    assert forall|p: int| 0 <= p < len implies #[trigger] twice[p] == bytes[p] by {
        if key != 0 {
            opposite_keys_add_a_constant(bytes, start, tail, key, p);
            if len < 256 {
                lemma_only_128(len);
                assert(2 * 128 * seed_increment(key) == 256 * seed_increment(key));
            }
        }
    }
    assert(twice =~= bytes);
}

proof fn lemma_only_128(len: int)
    requires
        power2::is_pow2(len),
        128 <= len < 256,
    ensures
        len == 128,
{
    reveal_with_fuel(power2::is_pow2, 9);
}

} // verus!
