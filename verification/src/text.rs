//! Plain text built from literals and integers.
use vstd::arithmetic::{div_mod, power};
use vstd::prelude::*;

verus! {

/// The digit character of `digit`, which is below sixteen.
pub open spec fn digit_char(digit: int, upper: bool) -> char {
    if digit < 10 {
        (48 + digit) as char
    } else if upper {
        (55 + digit) as char
    } else {
        (87 + digit) as char
    }
}

/// Decimal rendering without leading zeros; zero is `0`.
pub open spec fn decimal_text(n: nat) -> Seq<char>
    decreases n,
{
    if n < 10 {
        seq![digit_char(n as int, false)]
    } else {
        decimal_text(n / 10).push(digit_char((n % 10) as int, false))
    }
}

/// The last `digits` hexadecimal digits of `n`.
pub open spec fn hex_text(n: nat, digits: nat, upper: bool) -> Seq<char>
    decreases digits,
{
    if digits == 0 {
        Seq::empty()
    } else {
        hex_text(n / 16, (digits - 1) as nat, upper).push(digit_char((n % 16) as int, upper))
    }
}

/// `count` zero characters.
pub open spec fn zeros(count: nat) -> Seq<char> {
    Seq::new(count, |i: int| '0')
}

/// Append the digit character of `digit`.
fn append_digit(out: &mut String, digit: u8, upper: bool)
    requires
        digit < 16,
    ensures
        final(out)@ == old(out)@.push(digit_char(digit as int, upper)),
{
    proof {
        reveal_strlit("0");
        reveal_strlit("1");
        reveal_strlit("2");
        reveal_strlit("3");
        reveal_strlit("4");
        reveal_strlit("5");
        reveal_strlit("6");
        reveal_strlit("7");
        reveal_strlit("8");
        reveal_strlit("9");
        reveal_strlit("a");
        reveal_strlit("b");
        reveal_strlit("c");
        reveal_strlit("d");
        reveal_strlit("e");
        reveal_strlit("f");
        reveal_strlit("A");
        reveal_strlit("B");
        reveal_strlit("C");
        reveal_strlit("D");
        reveal_strlit("E");
        reveal_strlit("F");
    }
    let text: &str = match (digit, upper) {
        (0, _) => "0",
        (1, _) => "1",
        (2, _) => "2",
        (3, _) => "3",
        (4, _) => "4",
        (5, _) => "5",
        (6, _) => "6",
        (7, _) => "7",
        (8, _) => "8",
        (9, _) => "9",
        (10, false) => "a",
        (11, false) => "b",
        (12, false) => "c",
        (13, false) => "d",
        (14, false) => "e",
        (_, false) => "f",
        (10, true) => "A",
        (11, true) => "B",
        (12, true) => "C",
        (13, true) => "D",
        (14, true) => "E",
        (_, true) => "F",
    };
    assert(text@ =~= seq![digit_char(digit as int, upper)]);
    out.append(text);
    assert(out@ =~= old(out)@.push(digit_char(digit as int, upper)));
}

/// Append the decimal rendering of `n`.
pub fn append_decimal(out: &mut String, n: u64)
    ensures
        final(out)@ == old(out)@ + decimal_text(n as nat),
    decreases n,
{
    if n >= 10 {
        append_decimal(out, n / 10);
    }
    append_digit(out, (n % 10) as u8, false);
    assert(out@ =~= old(out)@ + decimal_text(n as nat));
}

/// Append the last `digits` hexadecimal digits of `n`.
pub fn append_hex(out: &mut String, n: u32, digits: u8, upper: bool)
    ensures
        final(out)@ == old(out)@ + hex_text(n as nat, digits as nat, upper),
    decreases digits,
{
    if digits > 0 {
        append_hex(out, n / 16, digits - 1, upper);
        append_digit(out, (n % 16) as u8, upper);
    }
    assert(out@ =~= old(out)@ + hex_text(n as nat, digits as nat, upper));
}

/// Append the two-digit decimal rendering of a number below one hundred.
pub fn append_two_digits(out: &mut String, n: u8)
    requires
        n < 100,
    ensures
        final(out)@ == old(out)@.push(digit_char((n / 10) as int, false)).push(
            digit_char((n % 10) as int, false),
        ),
{
    append_digit(out, n / 10, false);
    append_digit(out, n % 10, false);
}

/// Append `count` zero characters.
pub fn append_zeros(out: &mut String, count: usize)
    ensures
        final(out)@ == old(out)@ + zeros(count as nat),
{
    let mut done: usize = 0;
    assert(out@ =~= old(out)@ + zeros(0));
    while done < count
        invariant
            done <= count,
            out@ == old(out)@ + zeros(done as nat),
        decreases count - done,
    {
        append_digit(out, 0, false);
        assert(old(out)@ + zeros((done + 1) as nat) =~= (old(out)@ + zeros(done as nat)).push(
            '0',
        ));
        done = done + 1;
    }
}

// ---------------------------------------------------------------------------
// Laws
// ---------------------------------------------------------------------------

/// Whether a character is the hexadecimal digit of a number, in the given case.
pub open spec fn is_hex_digit(c: char, digit: int, upper: bool) -> bool {
    ||| 0 <= digit <= 9 && c as int - '0' as int == digit
    ||| 10 <= digit <= 15 && upper && c as int - 'A' as int == digit - 10
    ||| 10 <= digit <= 15 && !upper && c as int - 'a' as int == digit - 10
}

/// Digit characters are the digits and letters of their numbers.
pub proof fn digit_characters_stand_for_their_digits(digit: int, upper: bool)
    requires
        0 <= digit < 16,
    ensures
        is_hex_digit(digit_char(digit, upper), digit, upper),
{
}

/// A hexadecimal rendering has the wanted number of digits, and each is that of
/// its power of sixteen: the last that of one, the one before it that of
/// sixteen, and so on.
pub proof fn hexadecimal_digits_stand_in_order(n: nat, digits: nat, upper: bool, k: nat)
    requires
        k < digits,
    ensures
        hex_text(n, digits, upper).len() == digits,
        is_hex_digit(
            hex_text(n, digits, upper)[digits - 1 - k],
            n as int / power::pow(16, k) % 16,
            upper,
        ),
    decreases digits,
{
    let text = hex_text(n, digits, upper);
    let front = hex_text(n / 16, (digits - 1) as nat, upper);
    lemma_hex_len(n, digits, upper);
    lemma_hex_len(n / 16, (digits - 1) as nat, upper);
    reveal(power::pow);
    if k > 0 {
        hexadecimal_digits_stand_in_order(n / 16, (digits - 1) as nat, upper, (k - 1) as nat);
        assert(text[digits - 1 - k] == front[digits - 1 - k]);
        power::lemma_pow_positive(16, (k - 1) as nat);
        div_mod::lemma_div_denominator(n as int, 16, power::pow(16, (k - 1) as nat));
    }
}

proof fn lemma_hex_len(n: nat, digits: nat, upper: bool)
    ensures
        hex_text(n, digits, upper).len() == digits,
    decreases digits,
{
    if digits > 0 {
        lemma_hex_len(n / 16, (digits - 1) as nat, upper);
    }
}

/// A decimal rendering has only digits, at least one, and no zero before
/// another digit; its last digit is what is left of the number by ten, and the
/// digits before it render the number of tens.
pub proof fn decimal_digits_stand_in_order(n: nat)
    ensures
        ({
            let text = decimal_text(n);
            &&& text.len() >= 1
            &&& is_hex_digit(text.last(), n as int % 10, false)
            &&& n < 10 <==> text.len() == 1
            &&& n >= 10 ==> text.drop_last() == decimal_text(n / 10)
            &&& n > 0 ==> text[0] != '0'
        }),
    decreases n,
{
    if n >= 10 {
        decimal_digits_stand_in_order(n / 10);
        assert(decimal_text(n).drop_last() =~= decimal_text(n / 10));
        assert(decimal_text(n)[0] == decimal_text(n / 10)[0]);
    }
}

/// Zero characters are nothing but zeros.
pub proof fn zeros_are_zeros(count: nat, i: int)
    requires
        0 <= i < count,
    ensures
        zeros(count).len() == count,
        zeros(count)[i] == '0',
{
}

} // verus!
