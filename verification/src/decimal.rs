//! Exact decimals and the legacy base-100 numeric encoding.
use vstd::prelude::*;
use vstd::utf8;

use crate::text;

verus! {

/// A lossless decimal magnitude.  `coefficient` contains decimal digits only
/// and `scale` is the number of digits to the right of the decimal point.
///
/// The one-byte (`count == 0`) numeric form has a documented signed bias, but
/// no sign encoding is proven for multi-byte base-100 values. Accordingly
/// multi-byte values decode as a non-negative magnitude.  Do not use a negative
/// multi-byte amount for accounting until its sign encoding is established from
/// a controlled fixture.
#[derive(Debug, Clone, PartialEq, Eq)]
pub struct Decimal {
    /// `true` when the value is negative.
    pub negative: bool,
    /// Canonical, non-empty decimal digits without a sign or decimal point.
    pub coefficient: String,
    /// Decimal digits after the point.
    pub scale: u32,
}

/// What a decimal says.
#[verifier::ext_equal]
pub ghost struct DecimalView {
    pub negative: bool,
    pub coefficient: Seq<char>,
    pub scale: u32,
}

impl View for Decimal {
    type V = DecimalView;

    open spec fn view(&self) -> DecimalView {
        DecimalView {
            negative: self.negative,
            coefficient: self.coefficient@,
            scale: self.scale,
        }
    }
}

impl DecimalView {
    /// Whether the coefficient is the rendering of an integer: digits only, at
    /// least one, and no leading zero but in zero itself.
    pub open spec fn canonical(self) -> bool {
        exists|n: nat| self.coefficient == #[trigger] text::decimal_text(n)
    }

    /// The coefficient with enough leading zeros for a digit before the point.
    pub open spec fn padded(self) -> Seq<char> {
        if self.scale >= self.coefficient.len() {
            text::zeros((self.scale + 1 - self.coefficient.len()) as nat) + self.coefficient
        } else {
            self.coefficient
        }
    }

    /// The rendering without its sign.
    pub open spec fn magnitude_text(self) -> Seq<char> {
        let split = self.padded().len() - self.scale;
        if self.scale == 0 {
            self.padded()
        } else {
            self.padded().take(split).push('.') + self.padded().skip(split)
        }
    }

    /// The plain-decimal rendering.
    pub open spec fn plain_text(self) -> Seq<char> {
        if self.negative && self.coefficient != seq!['0'] {
            seq!['-'] + self.magnitude_text()
        } else {
            self.magnitude_text()
        }
    }
}

impl Decimal {
    /// Return a canonical plain-decimal rendering without exponent notation.
    pub fn to_plain_string(&self) -> (out: String)
        requires
            self.scale == 0 || utf8::is_ascii_chars(self.coefficient@),
        ensures
            out@ == self@.plain_text(),
    {
        let digits: &str = self.coefficient.as_str();
        let len: usize = digits.unicode_len();
        let scale: usize = self.scale as usize;
        let zero: bool = len == 1 && digits.get_char(0) == '0';
        assert(zero <==> self.coefficient@ =~= seq!['0']);
        let mut out: String = String::new();
        // A zero is never rendered as negative, whatever its scale.
        if self.negative && !zero {
            out.append("-");
            proof {
                reveal_strlit("-");
            }
        }
        let ghost sign = out@;
        proof {
            reveal_strlit("0");
            reveal_strlit(".");
        }
        if scale == 0 {
            if len == 0 {
                out.append("0");
            }
            out.append(digits);
            assert(out@ =~= sign + self@.magnitude_text());
        } else if scale >= len {
            out.append("0");
            out.append(".");
            text::append_zeros(&mut out, scale - len);
            out.append(digits);
            assert(self@.magnitude_text() =~= seq!['0', '.'] + text::zeros((scale - len) as nat)
                + digits@);
            assert(out@ =~= sign + self@.magnitude_text());
        } else {
            out.append(digits.substring_char(0, len - scale));
            out.append(".");
            out.append(digits.substring_char(len - scale, len));
            assert(self@.magnitude_text() =~= digits@.take(len - scale) + seq!['.'] + digits@.skip(
                len - scale,
            ));
            assert(out@ =~= sign + self@.magnitude_text());
        }
        assert(out@ =~= self@.plain_text());
        out
    }

    /// The plain-decimal rendering, under the conventional name.
    pub fn to_string(&self) -> (out: String)
        requires
            self.scale == 0 || utf8::is_ascii_chars(self.coefficient@),
        ensures
            out@ == self@.plain_text(),
    {
        self.to_plain_string()
    }
}

// ---------------------------------------------------------------------------
// The legacy base-100 encoding
// ---------------------------------------------------------------------------

/// Value of base-100 digits, the most significant first.
pub open spec fn base100_value(digits: Seq<u8>) -> nat
    decreases digits.len(),
{
    if digits.len() == 0 {
        0
    } else {
        100 * base100_value(digits.drop_last()) + digits.last() as nat
    }
}

/// One hundred to the power of `exponent`.
pub open spec fn hundred_to(exponent: nat) -> nat
    decreases exponent,
{
    if exponent == 0 {
        1
    } else {
        100 * hundred_to((exponent - 1) as nat)
    }
}

/// The decimal of the one-byte short form, which is biased around `0x80`.
pub open spec fn short_decimal(exponent: u8) -> DecimalView {
    DecimalView {
        negative: exponent > 0x80,
        coefficient: text::decimal_text(
            if exponent > 0x80 {
                (exponent - 0x80) as nat
            } else {
                (0x80 - exponent) as nat
            },
        ),
        scale: 0,
    }
}

/// The decimal of base-100 digits whose radix point `exponent` places.
pub open spec fn base100_decimal(exponent: u8, digits: Seq<u8>) -> DecimalView {
    if exponent >= 0xc0 {
        DecimalView {
            negative: false,
            coefficient: text::decimal_text(
                base100_value(digits) * hundred_to((exponent - 0xc0) as nat),
            ),
            scale: 0,
        }
    } else {
        DecimalView {
            negative: false,
            coefficient: text::decimal_text(base100_value(digits)),
            scale: (2 * (0xc0 - exponent)) as u32,
        }
    }
}

/// Decode the one-byte short form.
pub fn decode_short_decimal(exponent: u8) -> (decimal: Decimal)
    ensures
        decimal@ == short_decimal(exponent),
{
    let negative: bool = exponent > 0x80;
    let magnitude: u8 = if negative {
        exponent - 0x80
    } else {
        0x80 - exponent
    };
    let mut coefficient: String = String::new();
    text::append_decimal(&mut coefficient, magnitude as u64);
    assert(coefficient@ =~= text::decimal_text(magnitude as nat));
    Decimal { negative, coefficient, scale: 0 }
}

/// Appending one base-100 digit to a nonzero number appends two characters.
proof fn lemma_next_pair(value: nat, digit: nat)
    requires
        value > 0,
        digit < 100,
    ensures
        text::decimal_text(100 * value + digit) == text::decimal_text(value).push(
            text::digit_char((digit / 10) as int, false),
        ).push(text::digit_char((digit % 10) as int, false)),
{
    reveal_with_fuel(text::decimal_text, 3);
    let whole = 100 * value + digit;
    assert(whole / 10 == 10 * value + digit / 10);
    assert(whole % 10 == digit % 10);
    assert((whole / 10) / 10 == value);
    assert((whole / 10) % 10 == digit / 10);
}

/// Decode base-100 digits whose radix point `exponent` places.
pub fn decode_base100_decimal(exponent: u8, digits: &[u8]) -> (decimal: Decimal)
    requires
        forall|i: int| 0 <= i < digits@.len() ==> digits@[i] <= 99,
    ensures
        decimal@ == base100_decimal(exponent, digits@),
{
    let mut coefficient: String = String::new();
    let mut zero: bool = true;
    let mut i: usize = 0;
    assert(digits@.take(0) =~= Seq::<u8>::empty());
    while i < digits.len()
        invariant
            i <= digits@.len(),
            forall|j: int| 0 <= j < digits@.len() ==> digits@[j] <= 99,
            zero <==> base100_value(digits@.take(i as int)) == 0,
            coefficient@ == if zero {
                Seq::empty()
            } else {
                text::decimal_text(base100_value(digits@.take(i as int)))
            },
        decreases digits@.len() - i,
    {
        let digit: u8 = digits[i];
        let ghost value = base100_value(digits@.take(i as int));
        proof {
            let longer = digits@.take(i + 1);
            assert(longer.drop_last() =~= digits@.take(i as int));
            assert(longer.last() == digit);
        }
        if zero {
            if digit != 0 {
                text::append_decimal(&mut coefficient, digit as u64);
                zero = false;
                assert(coefficient@ =~= text::decimal_text(digit as nat));
            }
        } else {
            proof {
                lemma_next_pair(value, digit as nat);
            }
            text::append_two_digits(&mut coefficient, digit);
        }
        i = i + 1;
    }
    assert(digits@.take(digits@.len() as int) =~= digits@);
    if zero {
        text::append_decimal(&mut coefficient, 0);
        assert(coefficient@ =~= text::decimal_text(0));
    }
    if exponent >= 0xc0 {
        let shift: u8 = exponent - 0xc0;
        let mut done: u8 = 0;
        let ghost value = base100_value(digits@);
        assert(value * hundred_to(0) == value) by {
            assert(hundred_to(0) == 1);
        }
        while done < shift
            invariant
                done <= shift,
                zero <==> value == 0,
                coefficient@ == text::decimal_text(value * hundred_to(done as nat)),
            decreases shift - done,
        {
            proof {
                let scaled = value * hundred_to(done as nat);
                assert(value * hundred_to((done + 1) as nat) == 100 * scaled) by (nonlinear_arith)
                    requires
                        scaled == value * hundred_to(done as nat),
                        hundred_to((done + 1) as nat) == 100 * hundred_to(done as nat),
                ;
                lemma_hundred_to_positive(done as nat);
                if value > 0 {
                    assert(scaled > 0) by (nonlinear_arith)
                        requires
                            scaled == value * hundred_to(done as nat),
                            value > 0,
                            hundred_to(done as nat) > 0,
                    ;
                    lemma_next_pair(scaled, 0);
                } else {
                    assert(scaled == 0) by (nonlinear_arith)
                        requires
                            scaled == value * hundred_to(done as nat),
                            value == 0,
                    ;
                }
            }
            // Zero stays `0`: a canonical coefficient has no leading zeros.
            if !zero {
                text::append_two_digits(&mut coefficient, 0);
            }
            done = done + 1;
        }
        Decimal { negative: false, coefficient, scale: 0 }
    } else {
        Decimal { negative: false, coefficient, scale: 2 * (0xc0 - exponent) as u32 }
    }
}

proof fn lemma_hundred_to_positive(exponent: nat)
    ensures
        hundred_to(exponent) > 0,
    decreases exponent,
{
    if exponent > 0 {
        lemma_hundred_to_positive((exponent - 1) as nat);
    }
}

// ---------------------------------------------------------------------------
// Laws
// ---------------------------------------------------------------------------

/// Value of a sequence of decimal digit characters.
pub open spec fn digits_value(digits: Seq<char>) -> int
    decreases digits.len(),
{
    if digits.len() == 0 {
        0
    } else {
        10 * digits_value(digits.drop_last()) + (digits.last() as int - '0' as int)
    }
}

/// The characters of a decimal rendering denote the rendered number.
pub proof fn decimal_text_denotes_its_number(n: nat)
    ensures
        digits_value(text::decimal_text(n)) == n,
    decreases n,
{
    let rendered = text::decimal_text(n);
    if n >= 10 {
        decimal_text_denotes_its_number(n / 10);
        assert(rendered.drop_last() =~= text::decimal_text(n / 10));
    } else {
        assert(rendered.drop_last() =~= Seq::<char>::empty());
        assert(digits_value(rendered.drop_last()) == 0);
    }
    assert(rendered.last() as int == 48 + n % 10);
}

/// Every decoded decimal has a canonical coefficient, and the coefficient
/// denotes the base-100 value exactly.
pub proof fn decoded_decimals_are_exact(exponent: u8, digits: Seq<u8>)
    ensures
        short_decimal(exponent).canonical(),
        base100_decimal(exponent, digits).canonical(),
        digits_value(short_decimal(exponent).coefficient) == if exponent > 0x80 {
            exponent - 0x80
        } else {
            0x80 - exponent
        },
        digits_value(base100_decimal(exponent, digits).coefficient) == if exponent >= 0xc0 {
            base100_value(digits) * hundred_to((exponent - 0xc0) as nat)
        } else {
            base100_value(digits)
        },
{
    decimal_text_denotes_its_number(
        if exponent > 0x80 {
            (exponent - 0x80) as nat
        } else {
            (0x80 - exponent) as nat
        },
    );
    if exponent >= 0xc0 {
        decimal_text_denotes_its_number(
            base100_value(digits) * hundred_to((exponent - 0xc0) as nat),
        );
    } else {
        decimal_text_denotes_its_number(base100_value(digits));
    }
}

/// A canonical zero is rendered without a minus sign at every scale.
pub proof fn no_negative_zero(decimal: DecimalView)
    requires
        decimal.coefficient == text::decimal_text(0),
    ensures
        decimal.plain_text() == decimal.magnitude_text(),
        decimal.scale == 0 ==> decimal.plain_text() == seq!['0'],
        decimal.scale > 0 ==> decimal.plain_text() == seq!['0', '.'] + text::zeros(
            decimal.scale as nat,
        ),
{
    assert(decimal.coefficient =~= seq!['0']);
    if decimal.scale > 0 {
        assert(decimal.plain_text() =~= seq!['0', '.'] + text::zeros(decimal.scale as nat));
    }
}

/// A rendering with a scale has a point before its last `scale` digits and
/// at least one digit before the point; without the point it is the
/// coefficient with leading zeros.
pub proof fn rendering_keeps_the_digits(decimal: DecimalView)
    requires
        decimal.scale > 0,
    ensures
        ({
            let rendered = decimal.magnitude_text();
            let point = rendered.len() - decimal.scale - 1;
            &&& point >= 1
            &&& rendered[point] == '.'
            &&& rendered.remove(point) == text::zeros(
                (rendered.len() - 1 - decimal.coefficient.len()) as nat,
            ) + decimal.coefficient
        }),
{
    let rendered = decimal.magnitude_text();
    let point = rendered.len() - decimal.scale - 1;
    assert(rendered.remove(point) =~= decimal.padded());
    assert(decimal.padded() =~= text::zeros(
        (rendered.len() - 1 - decimal.coefficient.len()) as nat,
    ) + decimal.coefficient);
}

/// A rendering without its sign is no longer than it must be: the coefficient
/// alone at scale zero, and otherwise a point and the digits of the coefficient,
/// with leading zeros only as far as one digit before the point needs them.
pub proof fn renderings_are_short(decimal: DecimalView)
    ensures
        decimal.scale == 0 && decimal.coefficient.len() > 0 ==> decimal.magnitude_text()
            == decimal.coefficient,
        decimal.scale == 0 && decimal.coefficient.len() == 0 ==> decimal.magnitude_text()
            == seq!['0'],
        decimal.scale > 0 && decimal.coefficient.len() > decimal.scale
            ==> decimal.magnitude_text().len() == decimal.coefficient.len() + 1,
        decimal.scale > 0 && decimal.coefficient.len() <= decimal.scale
            ==> decimal.magnitude_text().len() == decimal.scale + 2,
{
    if decimal.scale == 0 && decimal.coefficient.len() == 0 {
        assert(decimal.magnitude_text() =~= seq!['0']);
    }
}

/// A minus sign is left out only where there is none to write, or the
/// coefficient is the one digit zero.
pub proof fn a_single_zero_has_no_sign(decimal: DecimalView)
    ensures
        ({
            let zero = decimal.coefficient.len() == 1 && decimal.coefficient[0] == '0';
            &&& decimal.negative && !zero ==> decimal.plain_text() == seq!['-']
                + decimal.magnitude_text()
            &&& !decimal.negative || zero ==> decimal.plain_text() == decimal.magnitude_text()
        }),
{
    if decimal.coefficient.len() == 1 && decimal.coefficient[0] == '0' {
        assert(decimal.coefficient =~= seq!['0']);
    }
}

/// A rendering begins with a minus sign exactly where the decimal is negative
/// and not zero, and is the rendering of its magnitude but for the sign.
pub proof fn negative_decimals_begin_with_a_minus(decimal: DecimalView)
    requires
        decimal.canonical(),
    ensures
        decimal.plain_text()[0] == '-' <==> decimal.negative && digits_value(decimal.coefficient)
            != 0,
        decimal.plain_text() == if decimal.plain_text()[0] == '-' {
            seq!['-'] + decimal.magnitude_text()
        } else {
            decimal.magnitude_text()
        },
{
    let n = choose|n: nat| decimal.coefficient == #[trigger] text::decimal_text(n);
    decimal_text_denotes_its_number(n);
    decimal_text_denotes_its_number(0);
    lemma_digits(n);
    assert(text::decimal_text(0) =~= seq!['0']);
    assert(decimal.magnitude_text()[0] != '-') by {
        assert('0' <= decimal.padded()[0] <= '9');
    }
}

proof fn lemma_digits(n: nat)
    ensures
        text::decimal_text(n).len() > 0,
        forall|i: int|
            0 <= i < text::decimal_text(n).len() ==> '0' <= #[trigger] text::decimal_text(n)[i]
                <= '9',
    decreases n,
{
    if n >= 10 {
        lemma_digits(n / 10);
    }
}

} // verus!
