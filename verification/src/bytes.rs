//! Fixed-width integers in byte sequences.
use vstd::arithmetic::power;
use vstd::prelude::*;
use vstd::slice;

verus! {

/// Value of `bytes` read as a little-endian unsigned integer.
pub open spec fn le_value(bytes: Seq<u8>) -> nat
    decreases bytes.len(),
{
    if bytes.len() == 0 {
        0
    } else {
        bytes[0] as nat + 256 * le_value(bytes.drop_first())
    }
}

/// Number of values that `width` bytes can take.
pub open spec fn value_count(width: nat) -> nat
    decreases width,
{
    if width == 0 {
        1
    } else {
        256 * value_count((width - 1) as nat)
    }
}

/// Two's-complement reading of the unsigned value of `width` bytes.
pub open spec fn signed_value(unsigned: nat, width: nat) -> int {
    if 2 * unsigned < value_count(width) {
        unsigned as int
    } else {
        unsigned - value_count(width)
    }
}

/// The little-endian `u16` at byte offset `at`.
pub open spec fn le16(bytes: Seq<u8>, at: int) -> int {
    bytes[at] + 256 * bytes[at + 1]
}

/// The big-endian `u16` at byte offset `at`.
pub open spec fn be16(bytes: Seq<u8>, at: int) -> int {
    256 * bytes[at] + bytes[at + 1]
}

/// The little-endian `u32` at byte offset `at`.
pub open spec fn le32(bytes: Seq<u8>, at: int) -> int {
    bytes[at] + 0x100 * bytes[at + 1] + 0x1_0000 * bytes[at + 2] + 0x100_0000 * bytes[at + 3]
}

/// A little-endian value is below the number of values of its width.
pub proof fn lemma_le_value_bound(bytes: Seq<u8>)
    ensures
        le_value(bytes) < value_count(bytes.len()),
    decreases bytes.len(),
{
    if bytes.len() > 0 {
        lemma_le_value_bound(bytes.drop_first());
    }
}

/// The number of values of each width that the readers accept.
pub proof fn lemma_value_counts()
    ensures
        value_count(0) == 1,
        value_count(1) == 0x100,
        value_count(2) == 0x1_0000,
        value_count(4) == 0x1_0000_0000,
        value_count(8) == 0x1_0000_0000_0000_0000,
{
    reveal_with_fuel(value_count, 9);
}

/// Wider fields have more values.
proof fn lemma_value_count_grows(narrow: nat, wide: nat)
    requires
        narrow <= wide,
    ensures
        1 <= value_count(narrow) <= value_count(wide),
    decreases wide,
{
    if narrow < wide {
        lemma_value_count_grows(narrow, (wide - 1) as nat);
    } else if narrow > 0 {
        lemma_value_count_grows((narrow - 1) as nat, (narrow - 1) as nat);
    }
}

/// Read up to eight bytes as a little-endian unsigned integer.
pub fn read_le(bytes: &[u8]) -> (value: u64)
    requires
        bytes@.len() <= 8,
    ensures
        value == le_value(bytes@),
{
    let mut i: usize = bytes.len();
    let mut value: u64 = 0;
    assert(bytes@.skip(bytes@.len() as int) =~= Seq::<u8>::empty());
    while i > 0
        invariant
            i <= bytes@.len() <= 8,
            value == le_value(bytes@.skip(i as int)),
        decreases i,
    {
        proof {
            let rest = bytes@.skip(i as int);
            let longer = bytes@.skip(i - 1);
            assert(longer.drop_first() =~= rest);
            lemma_le_value_bound(longer);
            lemma_value_counts();
            lemma_value_count_grows(longer.len(), 8);
        }
        i = i - 1;
        value = 256 * value + bytes[i] as u64;
    }
    assert(bytes@.skip(0) =~= bytes@);
    value
}

/// Read one, two, four or eight bytes as a two's-complement integer.
pub fn read_le_signed(bytes: &[u8]) -> (value: i64)
    requires
        bytes@.len() == 1 || bytes@.len() == 2 || bytes@.len() == 4 || bytes@.len() == 8,
    ensures
        value == signed_value(le_value(bytes@), bytes@.len()),
{
    let unsigned: u64 = read_le(bytes);
    proof {
        lemma_value_counts();
        lemma_le_value_bound(bytes@);
    }
    let half: u64 = match bytes.len() {
        1 => 0x80,
        2 => 0x8000,
        4 => 0x8000_0000,
        _ => 0x8000_0000_0000_0000,
    };
    if unsigned < half {
        unsigned as i64
    } else {
        // The distance below the midpoint, counted down from zero.
        -((half - 1 - (unsigned - half)) as i64) - 1
    }
}

/// Read the little-endian `u16` at byte offset `at`.
pub fn read_le16(bytes: &[u8], at: usize) -> (value: u16)
    requires
        at + 2 <= bytes@.len(),
    ensures
        value == le16(bytes@, at as int),
{
    bytes[at] as u16 + 256 * bytes[at + 1] as u16
}

/// Read the big-endian `u16` at byte offset `at`.
pub fn read_be16(bytes: &[u8], at: usize) -> (value: u16)
    requires
        at + 2 <= bytes@.len(),
    ensures
        value == be16(bytes@, at as int),
{
    256 * bytes[at] as u16 + bytes[at + 1] as u16
}

/// Read the little-endian `u32` at byte offset `at`.
pub fn read_le32(bytes: &[u8], at: usize) -> (value: u32)
    requires
        at + 4 <= bytes@.len(),
    ensures
        value == le32(bytes@, at as int),
{
    bytes[at] as u32 + 0x100 * bytes[at + 1] as u32 + 0x1_0000 * bytes[at + 2] as u32 + 0x100_0000
        * bytes[at + 3] as u32
}

/// Copy a byte slice.
pub fn copy_bytes(bytes: &[u8]) -> (copy: Vec<u8>)
    ensures
        copy@ == bytes@,
{
    slice::slice_to_vec(bytes)
}

/// Whether two byte vectors are equal.
pub fn same_bytes(a: &Vec<u8>, b: &Vec<u8>) -> (same: bool)
    ensures
        same == (a@ == b@),
{
    if a.len() != b.len() {
        return false;
    }
    let mut index: usize = 0;
    while index < a.len()
        invariant
            index <= a@.len(),
            a@.len() == b@.len(),
            forall|i: int| 0 <= i < index ==> a@[i] == b@[i],
        decreases a@.len() - index,
    {
        if a[index] != b[index] {
            return false;
        }
        index = index + 1;
    }
    assert(a@ =~= b@);
    true
}

// ---------------------------------------------------------------------------
// Laws
// ---------------------------------------------------------------------------

/// The words at an offset by their bytes: the first byte of a little-endian
/// word is its lowest, that of a big-endian word its highest.
pub proof fn words_are_read_in_their_byte_order(bytes: Seq<u8>, at: int)
    requires
        0 <= at,
        at + 4 <= bytes.len(),
    ensures
        le16(bytes, at) % 256 == bytes[at],
        le16(bytes, at) / 256 == bytes[at + 1],
        be16(bytes, at) % 256 == bytes[at + 1],
        be16(bytes, at) / 256 == bytes[at],
        le32(bytes, at) % 0x1_0000 == le16(bytes, at),
        le32(bytes, at) / 0x1_0000 == le16(bytes, at + 2),
{
}

/// A further byte of a little-endian integer counts as many times as there are
/// values of the bytes before it.
pub proof fn further_bytes_count_higher(bytes: Seq<u8>, byte: u8)
    ensures
        le_value(Seq::empty()) == 0,
        le_value(bytes.push(byte)) == le_value(bytes) + byte * power::pow(256, bytes.len()),
    decreases bytes.len(),
{
    reveal(power::pow);
    let longer = bytes.push(byte);
    if bytes.len() == 0 {
        assert(longer.drop_first() =~= Seq::<u8>::empty());
        assert(le_value(longer.drop_first()) == 0);
        assert(power::pow(256, 0) == 1);
    } else {
        let rest = bytes.drop_first();
        further_bytes_count_higher(rest, byte);
        assert(longer.drop_first() =~= rest.push(byte));
        assert(256 * (byte * power::pow(256, rest.len())) == byte * (256 * power::pow(
            256,
            rest.len(),
        ))) by (nonlinear_arith);
    }
}

/// A two's-complement reading is the unsigned value, or as far below it as
/// there are values, whichever lies in the middle around zero.
pub proof fn signed_values_lie_around_zero(unsigned: nat, width: nat)
    requires
        unsigned < value_count(width),
        width > 0,
    ensures
        value_count(width) == power::pow(256, width),
        signed_value(unsigned, width) == unsigned || signed_value(unsigned, width) == unsigned
            - power::pow(256, width),
        -power::pow(256, width) <= 2 * signed_value(unsigned, width) < power::pow(256, width),
{
    lemma_value_count_is_power(width);
}

proof fn lemma_value_count_is_power(width: nat)
    ensures
        value_count(width) == power::pow(256, width),
    decreases width,
{
    reveal(power::pow);
    if width > 0 {
        lemma_value_count_is_power((width - 1) as nat);
    }
}

} // verus!
