//! Numbers by their bit pattern: the 64-bit IEEE-754 format read and
//! written with integer arithmetic, to and from whole numbers and decimal
//! text.

use vstd::prelude::*;
use vstd::arithmetic::power2::{lemma2_to64, lemma2_to64_rest, lemma_pow2_unfold, pow2};
use vstd::string::{StringExecFns, StrSliceExecFns};
use crate::big::{
    base_to, big_from, big_less, big_minus, big_sum, big_times, big_value, LIMBS,
};

verus! {

/// The pattern of the number that is no number.
pub const NUMBER_NAN: u64 = 0x7FF8_0000_0000_0000;

/// The pattern of the number one.
pub const NUMBER_ONE: u64 = 0x3FF0_0000_0000_0000;

/// The eleven exponent bits of a pattern.
pub open spec fn exponent_of(bits: u64) -> int {
    (bits as int / 0x10_0000_0000_0000) % 2048
}

/// The fifty-two fraction bits of a pattern.
pub open spec fn fraction_of(bits: u64) -> int {
    bits as int % 0x10_0000_0000_0000
}

pub open spec fn is_negative(bits: u64) -> bool {
    bits >= 0x8000_0000_0000_0000
}

pub open spec fn is_nan(bits: u64) -> bool {
    exponent_of(bits) == 2047 && fraction_of(bits) != 0
}

/// Zero has two patterns, one of each sign.
pub open spec fn is_zero(bits: u64) -> bool {
    exponent_of(bits) == 0 && fraction_of(bits) == 0
}

/// A number counts as true unless it is zero or no number.
pub open spec fn is_truthy(bits: u64) -> bool {
    !is_zero(bits) && !is_nan(bits)
}

/// The integer that a number becomes: its value with the fraction cut off,
/// taken modulo 2^32 into the signed range. What is not finite becomes 0.
pub open spec fn number_to_int32(bits: u64) -> i32 {
    let e = exponent_of(bits);
    let significand = 0x10_0000_0000_0000 + fraction_of(bits);
    if e == 2047 || e < 1023 || e >= 1107 {
        0
    } else {
        let magnitude = if e <= 1075 {
            significand / (pow2((1075 - e) as nat) as int)
        } else {
            significand * pow2((e - 1075) as nat)
        };
        let signed = if is_negative(bits) {
            -magnitude
        } else {
            magnitude
        };
        let wrapped = signed % 0x1_0000_0000;
        if wrapped >= 0x8000_0000 {
            (wrapped - 0x1_0000_0000) as i32
        } else {
            wrapped as i32
        }
    }
}

/// The pattern of the positive number `significand * 2^(exponent - 1075)`,
/// for a significand below 2^53: the significand is doubled until its
/// leading bit stands at 2^52.
pub open spec fn normalized(significand: int, exponent: int) -> int
    decreases 0x20_0000_0000_0000 - significand,
{
    if significand <= 0 || significand >= 0x10_0000_0000_0000 {
        exponent * 0x10_0000_0000_0000 + (significand - 0x10_0000_0000_0000)
    } else {
        normalized(2 * significand, exponent - 1)
    }
}

/// The pattern of the number that equals a 32-bit integer.
pub open spec fn int32_to_number(v: i32) -> u64 {
    if v == 0 {
        0
    } else if v > 0 {
        normalized(v as int, 1075) as u64
    } else {
        (0x8000_0000_0000_0000 + normalized(-(v as int), 1075)) as u64
    }
}

pub fn number_is_truthy(bits: u64) -> (b: bool)
    ensures
        b == is_truthy(bits),
{
    let exponent: u64 = (bits / 0x10_0000_0000_0000) % 2048;
    let fraction: u64 = bits % 0x10_0000_0000_0000;
    !(exponent == 0 && fraction == 0) && !(exponent == 2047 && fraction != 0)
}

/// Two to the power `k`.
fn two_to(k: u64) -> (p: u128)
    requires
        k <= 52,
    ensures
        p == pow2(k as nat),
        0 < p <= 0x10_0000_0000_0000,
{
    let mut p: u128 = 1;
    let mut i: u64 = 0;
    proof {
        lemma2_to64();
        lemma2_to64_rest();
    }
    while i < k
        invariant
            i <= k <= 52,
            p == pow2(i as nat),
            0 < p,
            p <= pow2(52),
            pow2(52) == 0x10_0000_0000_0000,
        decreases k - i,
    {
        proof {
            lemma_pow2_unfold((i + 1) as nat);
            if i + 1 < 52 {
                vstd::arithmetic::power2::lemma_pow2_strictly_increases((i + 1) as nat, 52);
            }
        }
        p = p * 2;
        i = i + 1;
    }
    p
}

pub fn number_as_int32(bits: u64) -> (v: i32)
    ensures
        v == number_to_int32(bits),
{
    let exponent: u64 = (bits / 0x10_0000_0000_0000) % 2048;
    let fraction: u64 = bits % 0x10_0000_0000_0000;
    if exponent == 2047 || exponent < 1023 || exponent >= 1107 {
        return 0;
    }
    let significand: u128 = (0x10_0000_0000_0000 + fraction) as u128;
    let magnitude: u128 = if exponent <= 1075 {
        significand / two_to(1075 - exponent)
    } else {
        let p = two_to(exponent - 1075);
        proof {
            lemma2_to64();
            vstd::arithmetic::power2::lemma_pow2_strictly_increases(
                (exponent - 1075) as nat,
                32,
            );
            assert(significand * p < 0x20_0000_0000_0000 * 0x1_0000_0000) by (nonlinear_arith)
                requires
                    0 <= significand < 0x20_0000_0000_0000,
                    0 < p < 0x1_0000_0000,
            ;
        }
        significand * p
    };
    let low: u128 = magnitude % 0x1_0000_0000;
    let wrapped: u128 = if bits >= 0x8000_0000_0000_0000 && low != 0 {
        0x1_0000_0000 - low
    } else {
        low
    };
    if wrapped >= 0x8000_0000 {
        let shifted: i64 = wrapped as i64 - 0x1_0000_0000;
        shifted as i32
    } else {
        wrapped as i32
    }
}

pub fn number_from_int32(v: i32) -> (bits: u64)
    ensures
        bits == int32_to_number(v),
{
    if v == 0 {
        return 0;
    }
    let start: u64 = if v > 0 {
        v as u64
    } else {
        (-(v as i64)) as u64
    };
    let mut significand: u64 = start;
    let mut exponent: u64 = 1075;
    proof {
        lemma2_to64();
        lemma2_to64_rest();
    }
    while significand < 0x10_0000_0000_0000
        invariant
            0 < significand < 0x20_0000_0000_0000,
            exponent <= 1075,
            significand >= pow2((1075 - exponent) as nat),
            normalized(significand as int, exponent as int) == normalized(start as int, 1075),
            pow2(52) == 0x10_0000_0000_0000,
        decreases 0x20_0000_0000_0000 - significand,
    {
        proof {
            if 1075 - exponent >= 52 {
                if 1075 - exponent > 52 {
                    vstd::arithmetic::power2::lemma_pow2_strictly_increases(
                        52,
                        (1075 - exponent) as nat,
                    );
                }
                assert(false);
            }
            lemma_pow2_unfold((1075 - exponent + 1) as nat);
        }
        significand = 2 * significand;
        exponent = exponent - 1;
    }
    let magnitude: u64 = exponent * 0x10_0000_0000_0000 + (significand - 0x10_0000_0000_0000);
    if v > 0 {
        magnitude
    } else {
        0x8000_0000_0000_0000 + magnitude
    }
}

/// The character of a digit below sixteen.
pub open spec fn digit_char(d: int) -> char {
    if d == 0 {
        '0'
    } else if d == 1 {
        '1'
    } else if d == 2 {
        '2'
    } else if d == 3 {
        '3'
    } else if d == 4 {
        '4'
    } else if d == 5 {
        '5'
    } else if d == 6 {
        '6'
    } else if d == 7 {
        '7'
    } else if d == 8 {
        '8'
    } else if d == 9 {
        '9'
    } else if d == 10 {
        'a'
    } else if d == 11 {
        'b'
    } else if d == 12 {
        'c'
    } else if d == 13 {
        'd'
    } else if d == 14 {
        'e'
    } else {
        'f'
    }
}

/// The digits of `n` to the given base, the most significant first.
pub open spec fn digits_of(n: nat, base: nat) -> Seq<char>
    decreases n,
    via digits_of_decreases
{
    if n < base || base < 2 {
        seq![digit_char(n as int)]
    } else {
        digits_of(n / base, base).push(digit_char((n % base) as int))
    }
}

#[via_fn]
proof fn digits_of_decreases(n: nat, base: nat) {
    if !(n < base || base < 2) {
        assert(n / base < n) by (nonlinear_arith)
            requires
                n >= base,
                base >= 2,
        ;
    }
}

/// A 32-bit integer as decimal text.
pub open spec fn int32_text(v: i32) -> Seq<char> {
    if v < 0 {
        seq!['-'] + digits_of((-v) as nat, 10)
    } else {
        digits_of(v as nat, 10)
    }
}

/// The value of a decimal digit.
pub open spec fn digit_value(c: char) -> Option<int> {
    if c == '0' {
        Some(0)
    } else if c == '1' {
        Some(1)
    } else if c == '2' {
        Some(2)
    } else if c == '3' {
        Some(3)
    } else if c == '4' {
        Some(4)
    } else if c == '5' {
        Some(5)
    } else if c == '6' {
        Some(6)
    } else if c == '7' {
        Some(7)
    } else if c == '8' {
        Some(8)
    } else if c == '9' {
        Some(9)
    } else {
        None
    }
}

/// The number that decimal digits write.
pub open spec fn digits_value(text: Seq<char>) -> int
    decreases text.len(),
{
    if text.len() == 0 {
        0
    } else {
        10 * digits_value(text.drop_last()) + match digit_value(text.last()) {
            Some(d) => d,
            None => 0,
        }
    }
}

fn digit_text(d: u64) -> (text: &'static str)
    requires
        d < 16,
    ensures
        text@ == seq![digit_char(d as int)],
{
    proof {
        reveal_strlit("0");
        reveal_strlit("1");
        reveal_strlit("2");
        reveal_strlit("3");
        reveal_strlit("4");
        reveal_strlit("5");
        reveal_strlit("6");
        reveal_strlit("7");
        reveal_strlit("8");
        reveal_strlit("9");
        reveal_strlit("a");
        reveal_strlit("b");
        reveal_strlit("c");
        reveal_strlit("d");
        reveal_strlit("e");
        reveal_strlit("f");
    }
    let text = if d == 0 {
        "0"
    } else if d == 1 {
        "1"
    } else if d == 2 {
        "2"
    } else if d == 3 {
        "3"
    } else if d == 4 {
        "4"
    } else if d == 5 {
        "5"
    } else if d == 6 {
        "6"
    } else if d == 7 {
        "7"
    } else if d == 8 {
        "8"
    } else if d == 9 {
        "9"
    } else if d == 10 {
        "a"
    } else if d == 11 {
        "b"
    } else if d == 12 {
        "c"
    } else if d == 13 {
        "d"
    } else if d == 14 {
        "e"
    } else {
        "f"
    };
    assert(text@ =~= seq![digit_char(d as int)]);
    text
}

fn append_digits(text: &mut String, n: u128, base: u128)
    requires
        2 <= base <= 16,
    ensures
        final(text)@ == old(text)@ + digits_of(n as nat, base as nat),
    decreases n,
{
    if n >= base {
        proof {
            assert(n / base < n) by (nonlinear_arith)
                requires
                    n >= base,
                    base >= 2,
            ;
        }
        append_digits(text, n / base, base);
    }
    text.append(digit_text((n % base) as u64));
    proof {
        if n < base {
            vstd::arithmetic::div_mod::lemma_small_mod(n as nat, base as nat);
        }
        if n >= base {
            assert(digits_of(n as nat, base as nat) == digits_of(
                (n / base) as nat,
                base as nat,
            ).push(digit_char((n % base) as int)));
        }
        assert(text@ =~= old(text)@ + digits_of(n as nat, base as nat));
    }
}

pub fn int32_as_text(v: i32) -> (text: String)
    ensures
        text@ == int32_text(v),
{
    let mut text = String::new();
    if v < 0 {
        proof {
            reveal_strlit("-");
        }
        text.append("-");
        append_digits(&mut text, (-(v as i64)) as u128, 10);
        assert(text@ =~= int32_text(v));
    } else {
        append_digits(&mut text, v as u128, 10);
        assert(text@ =~= int32_text(v));
    }
    text
}

fn digit_of(c: char) -> (d: Option<i64>)
    ensures
        d is Some <==> digit_value(c) is Some,
        d matches Some(v) ==> digit_value(c) == Some(v as int) && 0 <= v <= 9,
{
    if c == '0' {
        Some(0)
    } else if c == '1' {
        Some(1)
    } else if c == '2' {
        Some(2)
    } else if c == '3' {
        Some(3)
    } else if c == '4' {
        Some(4)
    } else if c == '5' {
        Some(5)
    } else if c == '6' {
        Some(6)
    } else if c == '7' {
        Some(7)
    } else if c == '8' {
        Some(8)
    } else if c == '9' {
        Some(9)
    } else {
        None
    }
}

/// A positive number as a fraction, with the room that it has among its
/// neighbours: the number is `r / s`, and what lies between `(r - low) / s`
/// and `(r + high) / s` reads back as this number and as no other.
pub struct Fraction {
    pub r: int,
    pub s: int,
    pub high: int,
    pub low: int,
}

/// The numbers whose decimal digits come out of 128-bit arithmetic: those
/// from 2^-58 up to, and not including, 2^113.
pub open spec fn has_digits(bits: u64) -> bool {
    965 <= exponent_of(bits) <= 1135
}

/// Whether the two ends of the room read back as the number too: they do
/// where the significand is even.
pub open spec fn ends_count(bits: u64) -> bool {
    fraction_of(bits) % 2 == 0
}

/// The number of a pattern, sign aside, as a fraction. Below a power of two
/// the neighbour stands at half the distance, but for the least of them.
pub open spec fn as_fraction(bits: u64) -> Fraction {
    let f = if exponent_of(bits) == 0 {
        fraction_of(bits)
    } else {
        0x10_0000_0000_0000 + fraction_of(bits)
    };
    let e = if exponent_of(bits) == 0 {
        -1074
    } else {
        exponent_of(bits) - 1075
    };
    let wide = fraction_of(bits) == 0 && exponent_of(bits) > 1;
    if e >= 0 {
        let unit = pow2(e as nat) as int;
        if wide {
            Fraction { r: f * unit * 4, s: 4, high: unit * 2, low: unit }
        } else {
            Fraction { r: f * unit * 2, s: 2, high: unit, low: unit }
        }
    } else {
        let unit = pow2((-e) as nat) as int;
        if wide {
            Fraction { r: f * 4, s: unit * 4, high: 2, low: 1 }
        } else {
            Fraction { r: f * 2, s: unit * 2, high: 1, low: 1 }
        }
    }
}

/// The upper end of the room reaches one.
pub open spec fn reaches_one(x: Fraction, ends: bool) -> bool {
    if ends {
        x.r + x.high >= x.s
    } else {
        x.r + x.high > x.s
    }
}

pub open spec fn times_ten(x: Fraction) -> Fraction {
    Fraction { r: x.r * 10, s: x.s, high: x.high * 10, low: x.low * 10 }
}

/// The fraction divided by ten until its room ends below one, and the count
/// of the divisions added to `n`.
pub open spec fn brought_down(x: Fraction, ends: bool, n: int) -> (Fraction, int)
    decreases
            (if x.r + x.high - x.s + 1 > 0 {
                x.r + x.high - x.s + 1
            } else {
                0
            }),
{
    if x.s > 0 && reaches_one(x, ends) {
        brought_down(Fraction { s: x.s * 10, ..x }, ends, n + 1)
    } else {
        (x, n)
    }
}

/// The fraction multiplied by ten for as long as its room still ends below
/// one, and the count of the multiplications taken from `n`.
pub open spec fn brought_up(x: Fraction, ends: bool, n: int) -> (Fraction, int)
    decreases
            (if x.s - 10 * (x.r + x.high) + 1 > 0 {
                x.s - 10 * (x.r + x.high) + 1
            } else {
                0
            }),
{
    if x.r + x.high > 0 && !reaches_one(times_ten(x), ends) {
        brought_up(times_ten(x), ends, n - 1)
    } else {
        (x, n)
    }
}

/// The fraction brought between a tenth and one, with the power of ten that
/// was taken out: the number is that fraction times ten to that power.
pub open spec fn below_one(bits: u64) -> (Fraction, int) {
    let down = brought_down(as_fraction(bits), ends_count(bits), 0);
    brought_up(down.0, ends_count(bits), down.1)
}

/// The digits of a fraction below one, as few as tell the number from its
/// neighbours. A digit is written, and the next one sought, while neither
/// what is written nor what is written with one more in the last place lies
/// in the room; of the two, the nearer one ends the digits.
pub open spec fn shortest_digits(x: Fraction, ends: bool) -> Seq<int>
    decreases x.s - x.high,
{
    let digit = (x.r * 10) / x.s;
    let rest = (x.r * 10) % x.s;
    let high = x.high * 10;
    let low = x.low * 10;
    let low_in = if ends {
        rest <= low
    } else {
        rest < low
    };
    let high_in = if ends {
        rest + high >= x.s
    } else {
        rest + high > x.s
    };
    if x.s <= 0 || x.high <= 0 || rest < 0 {
        seq![digit]
    } else if !low_in && !high_in {
        seq![digit] + shortest_digits(Fraction { r: rest, s: x.s, high, low }, ends)
    } else if low_in && !high_in {
        seq![digit]
    } else if !low_in && high_in {
        seq![digit + 1]
    } else if 2 * rest < x.s {
        seq![digit]
    } else {
        seq![digit + 1]
    }
}

/// Digits as numbers.
pub open spec fn as_ints(digits: Seq<u8>) -> Seq<int> {
    Seq::new(digits.len(), |i: int| digits[i] as int)
}

/// Digits as characters.
pub open spec fn digit_chars(digits: Seq<int>) -> Seq<char> {
    Seq::new(digits.len(), |i: int| digit_char(digits[i]))
}

/// So many zeros.
pub open spec fn zeros(count: int) -> Seq<char> {
    Seq::new(
        if count > 0 {
            count as nat
        } else {
            0
        },
        |i: int| '0',
    )
}

/// The text of the number that is `0.digits` times ten to the power `n`. Up
/// to twenty-one places before the point and six zeros behind it the number
/// is written out; beyond that it is written with a power of ten.
pub open spec fn decimal_text(digits: Seq<int>, n: int) -> Seq<char> {
    let k = digits.len() as int;
    if k <= n <= 21 {
        digit_chars(digits) + zeros(n - k)
    } else if 0 < n <= 21 {
        digit_chars(digits.take(n)) + seq!['.'] + digit_chars(digits.skip(n))
    } else if -6 < n <= 0 {
        seq!['0', '.'] + zeros(-n) + digit_chars(digits)
    } else {
        let mantissa = if k == 1 {
            digit_chars(digits)
        } else {
            digit_chars(digits.take(1)) + seq!['.'] + digit_chars(digits.skip(1))
        };
        let power = n - 1;
        if power >= 0 {
            mantissa + seq!['e', '+'] + digits_of(power as nat, 10)
        } else {
            mantissa + seq!['e', '-'] + digits_of((-power) as nat, 10)
        }
    }
}

/// A number as text: the decimal digits that tell it from every other
/// number, as few as do, written out or with a power of ten. The numbers
/// that are not finite are written by their names.
pub open spec fn number_text(bits: u64) -> Seq<char> {
    if is_nan(bits) {
        "NaN"@
    } else if is_zero(bits) {
        "0"@
    } else if bits == 0x7FF0_0000_0000_0000 {
        "Infinity"@
    } else if bits == 0xFFF0_0000_0000_0000 {
        "-Infinity"@
    } else {
        let text = decimal_text(
            shortest_digits(below_one(bits).0, ends_count(bits)),
            below_one(bits).1,
        );
        if is_negative(bits) {
            seq!['-'] + text
        } else {
            text
        }
    }
}

/// Two to the power `k`.
fn power_of_two(k: u64) -> (p: u128)
    requires
        k <= 110,
    ensures
        p == pow2(k as nat),
        0 < p <= 0x4000_0000_0000_0000_0000_0000_0000,
{
    let mut p: u128 = 1;
    let mut i: u64 = 0;
    proof {
        lemma2_to64();
        lemma2_to64_rest();
        vstd::arithmetic::power2::lemma_pow2_adds(55, 55);
        assert(pow2(110) == 0x4000_0000_0000_0000_0000_0000_0000) by {
            assert(pow2(55) == 0x80_0000_0000_0000);
            assert(0x80_0000_0000_0000int * 0x80_0000_0000_0000int
                == 0x4000_0000_0000_0000_0000_0000_0000int);
        }
    }
    while i < k
        invariant
            i <= k <= 110,
            p == pow2(i as nat),
            0 < p <= pow2(110),
            pow2(110) == 0x4000_0000_0000_0000_0000_0000_0000,
        decreases k - i,
    {
        proof {
            lemma_pow2_unfold((i + 1) as nat);
            if i + 1 < 110 {
                vstd::arithmetic::power2::lemma_pow2_strictly_increases((i + 1) as nat, 110);
            }
        }
        p = p * 2;
        i = i + 1;
    }
    p
}

/// The digits of a number, and the power of ten that they are to be taken
/// with.
fn number_digits(bits: u64) -> (out: (Vec<u8>, i128))
    requires
        has_digits(bits),
    ensures
        out.0@.len() >= 1,
        forall|i: int| 0 <= i < out.0@.len() ==> #[trigger] out.0@[i] <= 10,
        as_ints(out.0@) == shortest_digits(below_one(bits).0, ends_count(bits)),
        out.1 == below_one(bits).1,
        -0x1000_0000_0000_0000_0000_0000_0000_0000 < out.1
            < 0x1000_0000_0000_0000_0000_0000_0000_0000,
{
    let exponent: u64 = (bits / 0x10_0000_0000_0000) % 2048;
    let fraction: u64 = bits % 0x10_0000_0000_0000;
    let f: u128 = (0x10_0000_0000_0000 + fraction) as u128;
    let ends = fraction % 2 == 0;
    let wide = fraction == 0;
    let mut r: u128;
    let mut s: u128;
    let mut high: u128;
    let mut low: u128;
    if exponent >= 1075 {
        let unit = power_of_two(exponent - 1075);
        proof {
            lemma2_to64_rest();
            if exponent - 1075 < 60 {
                vstd::arithmetic::power2::lemma_pow2_strictly_increases(
                    (exponent - 1075) as nat,
                    60,
                );
            }
            assert(f * unit < 0x20_0000_0000_0000 * 0x1000_0000_0000_0000 + 1)
                by (nonlinear_arith)
                requires
                    0 <= f < 0x20_0000_0000_0000,
                    0 < unit <= 0x1000_0000_0000_0000,
            ;
        }
        if wide {
            r = f * unit * 4;
            s = 4;
            high = unit * 2;
            low = unit;
        } else {
            r = f * unit * 2;
            s = 2;
            high = unit;
            low = unit;
        }
    } else {
        let unit = power_of_two(1075 - exponent);
        if wide {
            r = f * 4;
            s = unit * 4;
            high = 2;
            low = 1;
        } else {
            r = f * 2;
            s = unit * 2;
            high = 1;
            low = 1;
        }
    }
    let ghost start = as_fraction(bits);
    assert(start == Fraction { r: r as int, s: s as int, high: high as int, low: low as int });
    let mut n: i128 = 0;
    while (ends && r + high >= s) || (!ends && r + high > s)
        invariant
            0 < s < 0x1000_0000_0000_0000_0000_0000_0000_0000,
            0 <= r,
            0 < low <= high,
            r + high < 0x100_0000_0000_0000_0000_0000_0000_0000,
            0 <= n < s,
            brought_down(
                Fraction { r: r as int, s: s as int, high: high as int, low: low as int },
                ends,
                n as int,
            ) == brought_down(start, ends, 0),
        decreases
                (if r + high - s + 1 > 0 {
                    r + high - s + 1
                } else {
                    0
                }),
    {
        s = s * 10;
        n = n + 1;
    }
    let ghost down = Fraction { r: r as int, s: s as int, high: high as int, low: low as int };
    assert(brought_down(start, ends, 0) == (down, n as int));
    let ghost turned = n;
    while (ends && (r + high) * 10 < s) || (!ends && (r + high) * 10 <= s)
        invariant
            0 < s < 0x1000_0000_0000_0000_0000_0000_0000_0000,
            0 <= r,
            0 < low <= high,
            r + high < 0x1000_0000_0000_0000_0000_0000_0000_0000,
            0 <= turned < 0x1000_0000_0000_0000_0000_0000_0000_0000,
            !reaches_one(
                Fraction { r: r as int, s: s as int, high: high as int, low: low as int },
                ends,
            ),
            turned - (r + high) <= n <= turned,
            brought_up(
                Fraction { r: r as int, s: s as int, high: high as int, low: low as int },
                ends,
                n as int,
            ) == brought_up(down, ends, turned as int),
        decreases
                (if s - 10 * (r + high) + 1 > 0 {
                    s - 10 * (r + high) + 1
                } else {
                    0
                }),
    {
        r = r * 10;
        high = high * 10;
        low = low * 10;
        n = n - 1;
    }
    let ghost first = Fraction { r: r as int, s: s as int, high: high as int, low: low as int };
    assert(below_one(bits) == (first, n as int));
    let mut digits: Vec<u8> = Vec::new();
    let mut open = true;
    while open
        invariant
            0 < s < 0x1000_0000_0000_0000_0000_0000_0000_0000,
            0 <= r < s,
            0 < low <= high,
            high <= s,
            forall|i: int| 0 <= i < digits@.len() ==> 0 <= #[trigger] digits@[i] <= 10,
            open ==> shortest_digits(first, ends) =~= as_ints(digits@) + shortest_digits(
                Fraction { r: r as int, s: s as int, high: high as int, low: low as int },
                ends,
            ),
            !open ==> digits@.len() >= 1 && shortest_digits(first, ends) =~= as_ints(digits@),
        decreases (if open { 1int } else { 0int }), s - high,
    {
        let ghost now = Fraction { r: r as int, s: s as int, high: high as int, low: low as int };
        let ghost before = digits@;
        let digit = (r * 10) / s;
        let rest = (r * 10) % s;
        proof {
            assert((r as int * 10) / (s as int) <= 9) by (nonlinear_arith)
                requires
                    0 <= r < s,
            ;
        }
        high = high * 10;
        low = low * 10;
        let low_in = if ends {
            rest <= low
        } else {
            rest < low
        };
        let high_in = if ends {
            rest + high >= s
        } else {
            rest + high > s
        };
        if !low_in && !high_in {
            digits.push(digit as u8);
            r = rest;
            proof {
                assert(as_ints(digits@) =~= as_ints(before) + seq![digit as int]);
            }
        } else {
            let last = if low_in && !high_in {
                digit
            } else if !low_in && high_in {
                digit + 1
            } else if 2 * rest < s {
                digit
            } else {
                digit + 1
            };
            digits.push(last as u8);
            open = false;
            high = s;
            low = 1;
            r = 0;
            proof {
                assert(shortest_digits(now, ends) =~= seq![last as int]);
                assert(as_ints(digits@) =~= as_ints(before) + seq![last as int]);
            }
        }
    }
    proof {
        assert(as_ints(digits@) =~= shortest_digits(first, ends));
    }
    (digits, n)
}

fn append_digit_run(text: &mut String, digits: &Vec<u8>, from: usize, to: usize)
    requires
        from <= to <= digits@.len(),
        forall|i: int| 0 <= i < digits@.len() ==> #[trigger] digits@[i] <= 10,
    ensures
        final(text)@ == old(text)@ + digit_chars(as_ints(digits@).subrange(from as int, to as int)),
{
    let mut i: usize = from;
    proof {
        assert(text@ =~= old(text)@ + digit_chars(
            as_ints(digits@).subrange(from as int, from as int),
        ));
    }
    while i < to
        invariant
            from <= i <= to <= digits@.len(),
            forall|j: int| 0 <= j < digits@.len() ==> #[trigger] digits@[j] <= 10,
            text@ == old(text)@ + digit_chars(as_ints(digits@).subrange(from as int, i as int)),
        decreases to - i,
    {
        let ghost before = text@;
        text.append(digit_text(digits[i] as u64));
        proof {
            assert(digit_chars(as_ints(digits@).subrange(from as int, i as int + 1))
                =~= digit_chars(as_ints(digits@).subrange(from as int, i as int)) + seq![
                digit_char(digits@[i as int] as int),
            ]);
            assert(text@ =~= old(text)@ + digit_chars(
                as_ints(digits@).subrange(from as int, i as int + 1),
            ));
        }
        i = i + 1;
    }
}

fn append_zeros(text: &mut String, count: usize)
    ensures
        final(text)@ == old(text)@ + zeros(count as int),
{
    let mut i: usize = 0;
    proof {
        reveal_strlit("0");
        assert(text@ =~= old(text)@ + zeros(0));
    }
    while i < count
        invariant
            i <= count,
            text@ == old(text)@ + zeros(i as int),
            "0"@ == seq!['0'],
        decreases count - i,
    {
        text.append("0");
        proof {
            assert(text@ =~= old(text)@ + zeros(i as int + 1));
        }
        i = i + 1;
    }
}

/// Writes digits, taken with the power `n`, behind what `text` holds.
fn append_decimal(text: &mut String, digits: &Vec<u8>, n: i128)
    requires
        digits@.len() >= 1,
        forall|i: int| 0 <= i < digits@.len() ==> #[trigger] digits@[i] <= 10,
        -0x1000_0000_0000_0000_0000_0000_0000_0000 < n < 0x1000_0000_0000_0000_0000_0000_0000_0000,
    ensures
        final(text)@ == old(text)@ + decimal_text(as_ints(digits@), n as int),
{
    let k = digits.len();
    let ghost all = as_ints(digits@);
    proof {
        reveal_strlit(".");
        reveal_strlit("0.");
        reveal_strlit("e+");
        reveal_strlit("e-");
        assert(all.subrange(0, k as int) =~= all);
    }
    if n <= 21 && n >= 0 && k <= n as usize {
        append_digit_run(text, digits, 0, k);
        append_zeros(text, n as usize - k);
        proof {
            assert(text@ =~= old(text)@ + decimal_text(all, n as int));
        }
    } else if 0 < n && n <= 21 {
        let point = n as usize;
        append_digit_run(text, digits, 0, point);
        text.append(".");
        append_digit_run(text, digits, point, k);
        proof {
            assert(all.take(n as int) =~= all.subrange(0, n as int));
            assert(all.skip(n as int) =~= all.subrange(n as int, k as int));
            assert(text@ =~= old(text)@ + decimal_text(all, n as int));
        }
    } else if -6 < n && n <= 0 {
        text.append("0.");
        append_zeros(text, (-n) as usize);
        append_digit_run(text, digits, 0, k);
        proof {
            assert(text@ =~= old(text)@ + decimal_text(all, n as int));
        }
    } else {
        append_digit_run(text, digits, 0, 1);
        if k > 1 {
            text.append(".");
            append_digit_run(text, digits, 1, k);
        }
        let ghost mantissa = text@;
        proof {
            assert(all.take(1) =~= all.subrange(0, 1));
            assert(all.skip(1) =~= all.subrange(1, k as int));
            if k == 1 {
                assert(all.subrange(0, 1) =~= all);
            }
        }
        let power = n - 1;
        if power >= 0 {
            text.append("e+");
            append_digits(text, power as u128, 10);
        } else {
            text.append("e-");
            append_digits(text, (-power) as u128, 10);
        }
        proof {
            assert(text@ =~= old(text)@ + decimal_text(all, n as int));
        }
    }
}

pub fn number_as_text(bits: u64) -> (text: String)
    ensures
        text@ == number_text(bits),
{
    let exponent: u64 = (bits / 0x10_0000_0000_0000) % 2048;
    let fraction: u64 = bits % 0x10_0000_0000_0000;
    if exponent == 2047 && fraction != 0 {
        "NaN".to_owned()
    } else if exponent == 0 && fraction == 0 {
        "0".to_owned()
    } else if bits == 0x7FF0_0000_0000_0000 {
        "Infinity".to_owned()
    } else if bits == 0xFFF0_0000_0000_0000 {
        "-Infinity".to_owned()
    } else {
        let (digits, n) = if 965 <= exponent && exponent <= 1135 {
            number_digits(bits)
        } else {
            number_digits_big(bits)
        };
        let mut text = String::new();
        if bits >= 0x8000_0000_0000_0000 {
            proof {
                reveal_strlit("-");
            }
            text.append("-");
        }
        append_decimal(&mut text, &digits, n);
        proof {
            assert(text@ =~= number_text(bits));
        }
        text
    }
}

/// Ten to the power `n`.
pub open spec fn pow10(n: nat) -> int
    decreases n,
{
    if n == 0 {
        1
    } else {
        10 * pow10((n - 1) as nat)
    }
}

proof fn lemma_pow10_increases(a: nat, b: nat)
    requires
        a <= b,
    ensures
        0 < pow10(a) <= pow10(b),
    decreases b,
{
    if a == 0 {
        if b > 0 {
            lemma_pow10_increases(0, (b - 1) as nat);
        }
    } else {
        lemma_pow10_increases((a - 1) as nat, (b - 1) as nat);
    }
}

proof fn lemma_pow10_19()
    ensures
        pow10(19) == 10_000_000_000_000_000_000,
{
    reveal_with_fuel(pow10, 20);
}

/// Decimal digits only; none at all will do.
pub open spec fn all_digits(text: Seq<char>) -> bool {
    forall|i: int| 0 <= i < text.len() ==> digit_value(#[trigger] text[i]) is Some
}

/// `i` is where the first point of `text` stands, or the length of `text`
/// where it has none.
pub open spec fn is_point_at(text: Seq<char>, i: int) -> bool {
    &&& 0 <= i <= text.len()
    &&& i < text.len() ==> text[i] == '.'
    &&& forall|j: int| 0 <= j < i ==> #[trigger] text[j] != '.'
}

pub open spec fn first_point(text: Seq<char>) -> int {
    choose|i: int| is_point_at(text, i)
}

pub proof fn lemma_first_point(text: Seq<char>, i: int)
    requires
        is_point_at(text, i),
    ensures
        first_point(text) == i,
{
    let p = first_point(text);
    if p < i {
        assert(text[p] != '.');
    } else if i < p {
        assert(text[i] != '.');
    }
}

pub open spec fn has_sign(text: Seq<char>) -> bool {
    text.len() > 0 && (text[0] == '-' || text[0] == '+')
}

/// The text behind its sign.
pub open spec fn unsigned_part(text: Seq<char>) -> Seq<char> {
    if has_sign(text) {
        text.subrange(1, text.len() as int)
    } else {
        text
    }
}

/// What stands before the point.
pub open spec fn whole_part(text: Seq<char>) -> Seq<char> {
    unsigned_part(text).subrange(0, first_point(unsigned_part(text)))
}

/// What stands behind the point.
pub open spec fn fraction_part(text: Seq<char>) -> Seq<char> {
    let body = unsigned_part(text);
    if first_point(body) < body.len() {
        body.subrange(first_point(body) + 1, body.len() as int)
    } else {
        Seq::empty()
    }
}

/// A decimal number as it is read here: a sign or none, then digits with a
/// point among them or none; one digit at least and nineteen at most.
pub open spec fn is_decimal(text: Seq<char>) -> bool {
    &&& 1 <= whole_part(text).len() + fraction_part(text).len() <= 19
    &&& all_digits(whole_part(text))
    &&& all_digits(fraction_part(text))
}

/// The number that the digits of a decimal write when the point is left
/// out.
pub open spec fn decimal_digits_value(text: Seq<char>) -> int {
    digits_value(whole_part(text)) * pow10(fraction_part(text).len()) + digits_value(
        fraction_part(text),
    )
}

/// The divisor doubled for as long as the quotient is 2^53 or more, and the
/// count of the doublings added to `e`.
pub open spec fn fitted_down(n: int, m: int, e: int) -> (int, int, int)
    decreases
            (if n - 0x20_0000_0000_0000 * m + 1 > 0 {
                n - 0x20_0000_0000_0000 * m + 1
            } else {
                0
            }),
{
    if m > 0 && n >= 0x20_0000_0000_0000 * m {
        fitted_down(n, 2 * m, e + 1)
    } else {
        (n, m, e)
    }
}

/// The dividend doubled for as long as the quotient is below 2^52, and the
/// count of the doublings taken from `e`.
pub open spec fn fitted_up(n: int, m: int, e: int) -> (int, int, int)
    decreases
            (if 0x10_0000_0000_0000 * m - n + 1 > 0 {
                0x10_0000_0000_0000 * m - n + 1
            } else {
                0
            }),
{
    if n > 0 && n < 0x10_0000_0000_0000 * m {
        fitted_up(2 * n, m, e - 1)
    } else {
        (n, m, e)
    }
}

/// The whole number nearest to `n / m`; of two that are equally near, the
/// even one.
pub open spec fn rounded_quotient(n: int, m: int) -> int {
    let q = n / m;
    let rest = n % m;
    if 2 * rest < m {
        q
    } else if 2 * rest > m {
        q + 1
    } else if q % 2 == 0 {
        q
    } else {
        q + 1
    }
}

/// The pattern of the number nearest to the positive quotient `n / m`: the
/// quotient is brought between 2^52 and 2^53 by powers of two and rounded
/// to a whole significand.
pub open spec fn quotient_to_number(n: int, m: int) -> u64 {
    let down = fitted_down(n, m, 0);
    let fit = fitted_up(down.0, down.1, down.2);
    let q = rounded_quotient(fit.0, fit.1);
    if q >= 0x20_0000_0000_0000 {
        ((fit.2 + 1076) * 0x10_0000_0000_0000) as u64
    } else {
        ((fit.2 + 1075) * 0x10_0000_0000_0000 + (q - 0x10_0000_0000_0000)) as u64
    }
}

/// The number that a decimal writes: the number nearest to it. What is no
/// decimal writes no number.
pub open spec fn decimal_to_number(text: Seq<char>) -> u64 {
    if !is_decimal(text) {
        NUMBER_NAN
    } else {
        let sign: int = if text.len() > 0 && text[0] == '-' {
            0x8000_0000_0000_0000
        } else {
            0
        };
        if decimal_digits_value(text) == 0 {
            sign as u64
        } else {
            (sign + quotient_to_number(
                decimal_digits_value(text),
                pow10(fraction_part(text).len()),
            )) as u64
        }
    }
}

/// White space and line ends, as scripts have them.
pub open spec fn is_space(c: char) -> bool {
    let code = c as u32;
    code == 0x09 || code == 0x0A || code == 0x0B || code == 0x0C || code == 0x0D || code == 0x20
        || code == 0xA0 || code == 0x1680 || (0x2000 <= code <= 0x200A) || code == 0x2028 || code
        == 0x2029 || code == 0x202F || code == 0x205F || code == 0x3000 || code == 0xFEFF
}

/// `i` is where the text begins behind its leading space.
pub open spec fn is_trim_start(text: Seq<char>, i: int) -> bool {
    &&& 0 <= i <= text.len()
    &&& i < text.len() ==> !is_space(text[i])
    &&& forall|j: int| 0 <= j < i ==> is_space(#[trigger] text[j])
}

/// `k` is where the text ends before its trailing space, counted from
/// `from`.
pub open spec fn is_trim_end(text: Seq<char>, from: int, k: int) -> bool {
    &&& from <= k <= text.len()
    &&& k > from ==> !is_space(text[k - 1])
    &&& forall|j: int| k <= j < text.len() ==> is_space(#[trigger] text[j])
}

pub open spec fn trim_start(text: Seq<char>) -> int {
    choose|i: int| is_trim_start(text, i)
}

pub open spec fn trim_end(text: Seq<char>) -> int {
    choose|k: int| is_trim_end(text, trim_start(text), k)
}

/// The text without the space around it.
pub open spec fn trimmed(text: Seq<char>) -> Seq<char> {
    text.subrange(trim_start(text), trim_end(text))
}

pub proof fn lemma_trimmed(text: Seq<char>, i: int, k: int)
    requires
        is_trim_start(text, i),
        is_trim_end(text, i, k),
    ensures
        trim_start(text) == i,
        trim_end(text) == k,
        trimmed(text) == text.subrange(i, k),
{
    let a = trim_start(text);
    if a < i {
        assert(is_space(text[a]));
    } else if i < a {
        assert(is_space(text[i]));
    }
    let b = trim_end(text);
    if b < k {
        assert(is_space(text[k - 1]));
    } else if k < b {
        assert(is_space(text[b - 1]));
    }
}

/// The number that a text writes, the space around it aside. A text of
/// nothing but space is zero; `Infinity`, with a sign or without, is the
/// number beyond all numbers; a decimal is the number nearest to it; and
/// any other text is no number.
pub open spec fn text_to_number(text: Seq<char>) -> u64 {
    let core = trimmed(text);
    if core.len() == 0 {
        0
    } else if core == "Infinity"@ || core == "+Infinity"@ {
        0x7FF0_0000_0000_0000
    } else if core == "-Infinity"@ {
        0xFFF0_0000_0000_0000
    } else {
        decimal_to_number(core)
    }
}

/// Ten to the power `k`.
fn ten_to(k: usize) -> (p: u128)
    requires
        k <= 19,
    ensures
        p == pow10(k as nat),
        0 < p <= 10_000_000_000_000_000_000,
{
    let mut p: u128 = 1;
    let mut i: usize = 0;
    proof {
        lemma_pow10_19();
    }
    while i < k
        invariant
            i <= k <= 19,
            p == pow10(i as nat),
            0 < p,
            pow10(19) == 10_000_000_000_000_000_000,
        decreases k - i,
    {
        proof {
            lemma_pow10_increases((i + 1) as nat, 19);
        }
        p = p * 10;
        i = i + 1;
    }
    proof {
        lemma_pow10_increases(k as nat, 19);
    }
    p
}

/// Reads the digits of `text` from `from` up to `to` behind the number
/// `start`.
fn read_digits(text: &str, from: usize, to: usize, start: u128, Ghost(room): Ghost<nat>) -> (r:
    Option<u128>)
    requires
        from <= to <= text@.len(),
        start < pow10(room),
        room + (to - from) <= 19,
    ensures
        r is Some <==> all_digits(text@.subrange(from as int, to as int)),
        r matches Some(v) ==> v == start * pow10((to - from) as nat) + digits_value(
            text@.subrange(from as int, to as int),
        ) && v < pow10(room + (to - from) as nat),
{
    let ghost part = text@.subrange(from as int, to as int);
    let mut value: u128 = start;
    let mut i: usize = from;
    proof {
        lemma_pow10_19();
        assert(part.take(0) =~= Seq::<char>::empty());
        assert(start * pow10(0) == start) by (nonlinear_arith)
            requires
                pow10(0) == 1,
        ;
    }
    while i < to
        invariant
            from <= i <= to <= text@.len(),
            part == text@.subrange(from as int, to as int),
            room + (to - from) <= 19,
            pow10(19) == 10_000_000_000_000_000_000,
            forall|j: int| 0 <= j < i - from ==> digit_value(#[trigger] part[j]) is Some,
            value == start * pow10((i - from) as nat) + digits_value(part.take(i - from)),
            0 <= value < pow10(room + (i - from) as nat),
        decreases to - i,
    {
        let c = text.get_char(i);
        let ghost k = i - from;
        proof {
            assert(part[k] == c);
            assert(part.take(k + 1).drop_last() =~= part.take(k));
            assert(part.take(k + 1).last() == c);
            lemma_pow10_increases((room + k + 1) as nat, 19);
            assert(start * pow10((k + 1) as nat) == 10 * (start * pow10(k as nat)))
                by (nonlinear_arith)
                requires
                    pow10((k + 1) as nat) == 10 * pow10(k as nat),
            ;
        }
        match digit_of(c) {
            Some(d) => {
                value = 10 * value + d as u128;
            },
            None => {
                proof {
                    assert(digit_value(part[k]) is None);
                }
                return None;
            },
        }
        i = i + 1;
    }
    proof {
        assert(part.take(to - from) =~= part);
    }
    Some(value)
}

/// The pattern of the number nearest to `n / m`.
fn quotient_as_number(n: u128, m: u128) -> (bits: u64)
    requires
        0 < n < 10_000_000_000_000_000_000,
        0 < m <= 10_000_000_000_000_000_000,
    ensures
        bits == quotient_to_number(n as int, m as int),
        0 < bits < 0x7FF0_0000_0000_0000,
{
    let mut top: u128 = n;
    let mut bottom: u128 = m;
    let mut e: i64 = 0;
    proof {
        lemma2_to64();
        lemma2_to64_rest();
    }
    while top >= 0x20_0000_0000_0000 * bottom
        invariant
            top == n,
            n < 10_000_000_000_000_000_000,
            0 < bottom <= 10_000_000_000_000_000_000,
            0 <= e <= 12,
            bottom >= pow2(e as nat),
            pow2(12) == 0x1000,
            fitted_down(top as int, bottom as int, e as int) == fitted_down(n as int, m as int, 0),
        decreases
                (if top - 0x20_0000_0000_0000 * bottom + 1 > 0 {
                    top - 0x20_0000_0000_0000 * bottom + 1
                } else {
                    0
                }),
    {
        proof {
            lemma_pow2_unfold((e + 1) as nat);
            if e >= 12 {
                assert(false);
            }
        }
        bottom = 2 * bottom;
        e = e + 1;
    }
    let ghost down = (top as int, bottom as int, e as int);
    let ghost turned = e;
    proof {
        vstd::arithmetic::power2::lemma_pow2_adds(58, 58);
        assert(pow2(58) == 0x400_0000_0000_0000);
        assert(0x400_0000_0000_0000int * 0x400_0000_0000_0000int
            == 0x10_0000_0000_0000_0000_0000_0000_0000int);
    }
    while top < 0x10_0000_0000_0000 * bottom
        invariant
            0 < top < 0x20_0000_0000_0000_0000_0000_0000_0000,
            0 < bottom <= 10_000_000_000_000_000_000,
            0 <= turned <= 12,
            turned - 116 <= e <= turned,
            top >= pow2((turned - e) as nat),
            pow2(116) == 0x10_0000_0000_0000_0000_0000_0000_0000,
            top < 0x20_0000_0000_0000 * bottom,
            fitted_up(top as int, bottom as int, e as int) == fitted_up(
                down.0,
                down.1,
                down.2,
            ),
        decreases
                (if 0x10_0000_0000_0000 * bottom - top + 1 > 0 {
                    0x10_0000_0000_0000 * bottom - top + 1
                } else {
                    0
                }),
    {
        proof {
            lemma_pow2_unfold((turned - e + 1) as nat);
            if turned - e >= 116 {
                assert(false);
            }
        }
        top = 2 * top;
        e = e - 1;
    }
    let q = top / bottom;
    let rest = top % bottom;
    proof {
        assert(0x10_0000_0000_0000 <= (top as int) / (bottom as int) < 0x20_0000_0000_0000)
            by (nonlinear_arith)
            requires
                0 < bottom,
                0x10_0000_0000_0000 * bottom <= top < 0x20_0000_0000_0000 * bottom,
        ;
    }
    let rounded = if 2 * rest < bottom {
        q
    } else if 2 * rest > bottom {
        q + 1
    } else if q % 2 == 0 {
        q
    } else {
        q + 1
    };
    if rounded >= 0x20_0000_0000_0000 {
        ((e + 1076) as u64) * 0x10_0000_0000_0000
    } else {
        ((e + 1075) as u64) * 0x10_0000_0000_0000 + (rounded as u64 - 0x10_0000_0000_0000)
    }
}

fn is_space_char(c: char) -> (b: bool)
    ensures
        b == is_space(c),
{
    let code = c as u32;
    code == 0x09 || code == 0x0A || code == 0x0B || code == 0x0C || code == 0x0D || code == 0x20
        || code == 0xA0 || code == 0x1680 || (0x2000 <= code && code <= 0x200A) || code == 0x2028
        || code == 0x2029 || code == 0x202F || code == 0x205F || code == 0x3000 || code == 0xFEFF
}

/// Whether the characters of `text` from `lo` up to `hi` are those of
/// `name`.
fn range_is(text: &str, lo: usize, hi: usize, name: &str) -> (b: bool)
    requires
        lo <= hi <= text@.len(),
    ensures
        b == (text@.subrange(lo as int, hi as int) == name@),
{
    let length = name.unicode_len();
    if hi - lo != length {
        return false;
    }
    let mut i: usize = 0;
    while i < length
        invariant
            lo <= hi <= text@.len(),
            hi - lo == length,
            length == name@.len(),
            0 <= i <= length,
            forall|j: int| 0 <= j < i ==> text@[lo + j] == name@[j],
        decreases length - i,
    {
        if text.get_char(lo + i) != name.get_char(i) {
            proof {
                assert(text@.subrange(lo as int, hi as int)[i as int] != name@[i as int]);
            }
            return false;
        }
        i = i + 1;
    }
    proof {
        assert(text@.subrange(lo as int, hi as int) =~= name@);
    }
    true
}

/// The number that the characters of `text` from `lo` up to `hi` write as a
/// decimal.
fn decimal_as_number(text: &str, lo: usize, hi: usize) -> (bits: u64)
    requires
        lo < hi <= text@.len(),
    ensures
        bits == decimal_to_number(text@.subrange(lo as int, hi as int)),
{
    let ghost core = text@.subrange(lo as int, hi as int);
    let mark = text.get_char(lo);
    let signed = mark == '-' || mark == '+';
    let first: usize = if signed {
        lo + 1
    } else {
        lo
    };
    let ghost body = unsigned_part(core);
    proof {
        assert(core[0] == mark);
        assert(body =~= text@.subrange(first as int, hi as int));
    }
    let mut point: usize = first;
    let mut found = false;
    while !found && point < hi
        invariant
            first <= point <= hi <= text@.len(),
            body == text@.subrange(first as int, hi as int),
            forall|j: int| 0 <= j < point - first ==> #[trigger] body[j] != '.',
            found ==> point < hi && body[point - first] == '.',
        decreases (if found { 0int } else { 1int }), hi - point,
    {
        if text.get_char(point) == '.' {
            found = true;
        } else {
            point = point + 1;
        }
    }
    proof {
        assert(is_point_at(body, point - first));
        lemma_first_point(body, point - first);
        assert(whole_part(core) =~= text@.subrange(first as int, point as int));
        if point < hi {
            assert(fraction_part(core) =~= text@.subrange(point as int + 1, hi as int));
        } else {
            assert(fraction_part(core) =~= text@.subrange(hi as int, hi as int));
        }
        lemma_pow10_increases(0, 0);
    }
    let places: usize = if point < hi {
        hi - point - 1
    } else {
        0
    };
    let digits = (point - first) + places;
    if digits < 1 || digits > 19 {
        return NUMBER_NAN;
    }
    let whole = match read_digits(text, first, point, 0, Ghost(0)) {
        Some(whole) => whole,
        None => {
            return NUMBER_NAN;
        },
    };
    let from: usize = if point < hi {
        point + 1
    } else {
        hi
    };
    let value = match read_digits(text, from, hi, whole, Ghost((point - first) as nat)) {
        Some(value) => value,
        None => {
            return NUMBER_NAN;
        },
    };
    proof {
        lemma_pow10_19();
        lemma_pow10_increases(digits as nat, 19);
        assert(0 * pow10((point - first) as nat) == 0);
        assert(value == decimal_digits_value(core));
    }
    let sign: u64 = if mark == '-' {
        0x8000_0000_0000_0000
    } else {
        0
    };
    if value == 0 {
        sign
    } else {
        sign + quotient_as_number(value, ten_to(places))
    }
}

pub fn text_as_number(text: &str) -> (bits: u64)
    ensures
        bits == text_to_number(text@),
{
    let length = text.unicode_len();
    let mut lo: usize = 0;
    let mut found = false;
    while !found && lo < length
        invariant
            0 <= lo <= length,
            length == text@.len(),
            forall|j: int| 0 <= j < lo ==> is_space(#[trigger] text@[j]),
            found ==> lo < length && !is_space(text@[lo as int]),
        decreases (if found { 0int } else { 1int }), length - lo,
    {
        if is_space_char(text.get_char(lo)) {
            lo = lo + 1;
        } else {
            found = true;
        }
    }
    let mut hi: usize = length;
    let mut ended = false;
    while !ended && hi > lo
        invariant
            lo <= hi <= length,
            length == text@.len(),
            forall|j: int| hi <= j < length ==> is_space(#[trigger] text@[j]),
            ended ==> hi > lo && !is_space(text@[hi - 1]),
        decreases (if ended { 0int } else { 1int }), hi - lo,
    {
        if is_space_char(text.get_char(hi - 1)) {
            hi = hi - 1;
        } else {
            ended = true;
        }
    }
    proof {
        assert(is_trim_start(text@, lo as int));
        assert(is_trim_end(text@, lo as int, hi as int));
        lemma_trimmed(text@, lo as int, hi as int);
    }
    if lo == hi {
        0
    } else if range_is(text, lo, hi, "Infinity") || range_is(text, lo, hi, "+Infinity") {
        0x7FF0_0000_0000_0000
    } else if range_is(text, lo, hi, "-Infinity") {
        0xFFF0_0000_0000_0000
    } else {
        decimal_as_number(text, lo, hi)
    }
}

/// A fraction in many-digit numbers.
spec fn big_fraction(r: Seq<u32>, s: Seq<u32>, high: Seq<u32>, low: Seq<u32>) -> Fraction {
    Fraction {
        r: big_value(r) as int,
        s: big_value(s) as int,
        high: big_value(high) as int,
        low: big_value(low) as int,
    }
}

proof fn lemma_ten(x: nat, k: nat)
    requires
        x < pow2(k),
    ensures
        x * 10 < pow2(k + 4),
        x * 11 < pow2(k + 4),
        x * 2 < pow2(k + 4),
        pow2(k) < pow2(k + 4),
{
    lemma2_to64();
    vstd::arithmetic::power2::lemma_pow2_adds(4, k);
    vstd::arithmetic::power2::lemma_pow2_pos(k);
    assert(x * 11 < 16 * pow2(k) && x * 10 < 16 * pow2(k) && x * 2 < 16 * pow2(k) && pow2(k) < 16
        * pow2(k)) by (nonlinear_arith)
        requires
            x < pow2(k),
            0 < pow2(k),
    ;
}

proof fn lemma_big_room()
    ensures
        pow2(1104) < base_to(LIMBS as nat),
        pow2(1090) < pow2(1096),
        pow2(1094) < pow2(1096),
        pow2(1096) < pow2(1100),
        pow2(1100) < pow2(1104),
{
    vstd::arithmetic::power2::lemma_pow2_strictly_increases(1104, 1280);
    vstd::arithmetic::power2::lemma_pow2_strictly_increases(1090, 1096);
    vstd::arithmetic::power2::lemma_pow2_strictly_increases(1094, 1096);
    vstd::arithmetic::power2::lemma_pow2_strictly_increases(1096, 1100);
    vstd::arithmetic::power2::lemma_pow2_strictly_increases(1100, 1104);
}

/// A count of doublings stays below the size of what was doubled.
proof fn lemma_count_below(n: nat, x: nat, k: nat)
    requires
        pow2(n) <= x,
        x < pow2(k),
    ensures
        n < k,
{
    if n >= k {
        if n > k {
            vstd::arithmetic::power2::lemma_pow2_strictly_increases(k, n);
        }
    }
}

proof fn lemma_room(x: nat)
    requires
        x < pow2(1100),
    ensures
        x * 10 < pow2(1110),
        pow2(1110) < base_to(LIMBS as nat),
        pow2(1100) < pow2(1110),
{
    lemma2_to64();
    vstd::arithmetic::power2::lemma_pow2_adds(10, 1100);
    vstd::arithmetic::power2::lemma_pow2_strictly_increases(1110, 1280);
    vstd::arithmetic::power2::lemma_pow2_strictly_increases(1100, 1110);
    assert(x * 10 < 1024 * pow2(1100)) by (nonlinear_arith)
        requires
            x < pow2(1100),
    ;
}

fn big_copy(a: &Vec<u32>) -> (copy: Vec<u32>)
    requires
        a@.len() == LIMBS,
    ensures
        copy@ == a@,
{
    let mut copy: Vec<u32> = Vec::new();
    let mut i: usize = 0;
    while i < LIMBS
        invariant
            0 <= i <= LIMBS,
            a@.len() == LIMBS,
            copy@.len() == i,
            forall|j: int| 0 <= j < i ==> copy@[j] == a@[j],
        decreases LIMBS - i,
    {
        copy.push(a[i]);
        i = i + 1;
    }
    proof {
        assert(copy@ =~= a@);
    }
    copy
}

/// The number `v` times two to the power `doublings` times `factor`.
fn big_scaled(v: u64, doublings: u64, factor: u32) -> (out: Vec<u32>)
    requires
        1 <= factor <= 4,
        v * pow2(doublings as nat) * factor < pow2(1090),
    ensures
        out@.len() == LIMBS,
        big_value(out@) == v * pow2(doublings as nat) * factor,
{
    let mut out = big_from(v);
    let mut j: u64 = 0;
    proof {
        lemma2_to64();
        vstd::arithmetic::power2::lemma_pow2_strictly_increases(1090, 1100);
        lemma_room((v * pow2(doublings as nat) * factor) as nat);
        assert(v * pow2(0) == v) by (nonlinear_arith)
            requires
                pow2(0) == 1,
        ;
    }
    while j < doublings
        invariant
            0 <= j <= doublings,
            1 <= factor <= 4,
            out@.len() == LIMBS,
            big_value(out@) == v * pow2(j as nat),
            v * pow2(doublings as nat) * factor < pow2(1090),
            pow2(1090) < base_to(LIMBS as nat),
        decreases doublings - j,
    {
        proof {
            lemma_pow2_unfold((j + 1) as nat);
            if j + 1 < doublings {
                vstd::arithmetic::power2::lemma_pow2_strictly_increases(
                    (j + 1) as nat,
                    doublings as nat,
                );
            }
            let a = pow2((j + 1) as nat);
            let b = pow2(doublings as nat);
            assert(v * a <= v * b * factor) by (nonlinear_arith)
                requires
                    a <= b,
                    factor >= 1,
                    v >= 0,
            ;
            assert(v * pow2(j as nat) * 2 == v * a) by (nonlinear_arith)
                requires
                    a == 2 * pow2(j as nat),
            ;
        }
        big_times(&mut out, 2);
        j = j + 1;
    }
    big_times(&mut out, factor);
    out
}

/// Whether the upper end of the room reaches one.
fn big_reaches_one(r: &Vec<u32>, s: &Vec<u32>, high: &Vec<u32>, ends: bool) -> (b: bool)
    requires
        r@.len() == LIMBS,
        s@.len() == LIMBS,
        high@.len() == LIMBS,
        big_value(r@) + big_value(high@) < base_to(LIMBS as nat),
    ensures
        b == (if ends {
            big_value(r@) + big_value(high@) >= big_value(s@)
        } else {
            big_value(r@) + big_value(high@) > big_value(s@)
        }),
{
    let top = big_sum(r, high);
    if ends {
        !big_less(&top, s)
    } else {
        big_less(s, &top)
    }
}

/// A number that is finite and not zero as a fraction in many-digit
/// numbers.
fn big_start(bits: u64) -> (out: (Vec<u32>, Vec<u32>, Vec<u32>, Vec<u32>))
    requires
        exponent_of(bits) != 2047,
        !is_zero(bits),
    ensures
        out.0@.len() == LIMBS,
        out.1@.len() == LIMBS,
        out.2@.len() == LIMBS,
        out.3@.len() == LIMBS,
        big_fraction(out.0@, out.1@, out.2@, out.3@) == as_fraction(bits),
        big_value(out.0@) + big_value(out.2@) < pow2(1090),
        0 < big_value(out.1@) < pow2(1090),
        0 < big_value(out.3@) <= big_value(out.2@),
{
    let exponent: u64 = (bits / 0x10_0000_0000_0000) % 2048;
    let fraction: u64 = bits % 0x10_0000_0000_0000;
    let f: u64 = if exponent == 0 {
        fraction
    } else {
        0x10_0000_0000_0000 + fraction
    };
    let ends = fraction % 2 == 0;
    let wide = fraction == 0 && exponent > 1;
    let factor: u32 = if wide {
        4
    } else {
        2
    };
    let ghost start = as_fraction(bits);
    proof {
        lemma2_to64();
        lemma2_to64_rest();
        vstd::arithmetic::power2::lemma_pow2_adds(53, 1024);
        vstd::arithmetic::power2::lemma_pow2_adds(3, 1077);
        vstd::arithmetic::power2::lemma_pow2_strictly_increases(1080, 1090);
    }
    let mut r: Vec<u32>;
    let mut s: Vec<u32>;
    let mut high: Vec<u32>;
    let mut low: Vec<u32>;
    if exponent >= 1075 {
        let e = exponent - 1075;
        proof {
            let unit = pow2(e as nat);
            vstd::arithmetic::power2::lemma_pow2_pos(e as nat);
            vstd::arithmetic::power2::lemma_pow2_strictly_increases(e as nat, 1024);
            assert(f * unit * factor < pow2(53) * pow2(1024) * 8) by (nonlinear_arith)
                requires
                    0 <= f < pow2(53),
                    0 < unit < pow2(1024),
                    1 <= factor <= 4,
            ;
            assert(1 * unit * 2 < pow2(53) * pow2(1024) * 8) by (nonlinear_arith)
                requires
                    0 < unit < pow2(1024),
                    pow2(53) >= 1,
            ;
            assert(pow2(53) * pow2(1024) * 8 == pow2(1080)) by (nonlinear_arith)
                requires
                    pow2(1077) == pow2(53) * pow2(1024),
                    pow2(1080) == 8 * pow2(1077),
            ;
        }
        r = big_scaled(f, e, factor);
        s = big_from(factor as u64);
        high = big_scaled(1, e, if wide {
            2
        } else {
            1
        });
        low = big_scaled(1, e, 1);
        proof {
            let unit = pow2(e as nat);
            let side: nat = if wide {
                2
            } else {
                1
            };
            assert(1 * unit * side < pow2(53) * pow2(1024) * 8 && 1 * unit * 1 <= 1 * unit
                * side && 0 < 1 * unit * 1) by (nonlinear_arith)
                requires
                    0 < unit < pow2(1024),
                    pow2(53) >= 1,
                    1 <= side <= 2,
            ;
        }
    } else {
        let e = if exponent == 0 {
            1074
        } else {
            1075 - exponent
        };
        proof {
            let unit = pow2(e as nat);
            vstd::arithmetic::power2::lemma_pow2_pos(e as nat);
            vstd::arithmetic::power2::lemma_pow2_strictly_increases(e as nat, 1077);
            assert(1 * unit * factor < 8 * pow2(1077)) by (nonlinear_arith)
                requires
                    0 < unit < pow2(1077),
                    1 <= factor <= 4,
            ;
            assert(f * pow2(0) * factor < pow2(1080)) by (nonlinear_arith)
                requires
                    0 <= f < pow2(53),
                    pow2(0) == 1,
                    1 <= factor <= 4,
                    pow2(1080) >= pow2(53) * 8,
            ;
        }
        r = big_scaled(f, 0, factor);
        s = big_scaled(1, e, factor);
        high = big_from(if wide {
            2
        } else {
            1
        });
        low = big_from(1);
        proof {
            let unit = pow2(e as nat);
            assert(0 < 1 * unit * factor) by (nonlinear_arith)
                requires
                    0 < unit,
                    1 <= factor,
            ;
            assert(pow2(1080) >= 8);
        }
    }
    proof {
        lemma_pow2_unfold(1081);
        vstd::arithmetic::power2::lemma_pow2_strictly_increases(1081, 1090);
        assert(big_value(r@) < pow2(1080));
        assert(big_value(high@) < pow2(1080));
        assert(big_value(s@) < pow2(1080));
    }
    proof {
        assert(big_fraction(r@, s@, high@, low@) == start);
    }
    (r, s, high, low)
}

/// Whether the room, taken ten times, still ends below one.
fn big_still_below(r: &Vec<u32>, s: &Vec<u32>, high: &Vec<u32>, ends: bool) -> (b: bool)
    requires
        r@.len() == LIMBS,
        s@.len() == LIMBS,
        high@.len() == LIMBS,
        big_value(r@) + big_value(high@) < pow2(1100),
    ensures
        b == (if ends {
            (big_value(r@) + big_value(high@)) * 10 < big_value(s@)
        } else {
            (big_value(r@) + big_value(high@)) * 10 <= big_value(s@)
        }),
{
    proof {
        lemma_big_room();
        lemma_ten(big_value(r@) + big_value(high@), 1100);
    }
    let mut top = big_sum(r, high);
    big_times(&mut top, 10);
    if ends {
        big_less(&top, s)
    } else {
        !big_less(s, &top)
    }
}

/// Brings a fraction between a tenth and one.
fn big_below_one(
    r: Vec<u32>,
    s: Vec<u32>,
    high: Vec<u32>,
    low: Vec<u32>,
    ends: bool,
) -> (out: (Vec<u32>, Vec<u32>, Vec<u32>, Vec<u32>, i128))
    requires
        r@.len() == LIMBS,
        s@.len() == LIMBS,
        high@.len() == LIMBS,
        low@.len() == LIMBS,
        big_value(r@) + big_value(high@) < pow2(1090),
        0 < big_value(s@) < pow2(1090),
        0 < big_value(low@) <= big_value(high@),
    ensures
        out.0@.len() == LIMBS,
        out.1@.len() == LIMBS,
        out.2@.len() == LIMBS,
        out.3@.len() == LIMBS,
        (big_fraction(out.0@, out.1@, out.2@, out.3@), out.4 as int) == brought_up(
            brought_down(big_fraction(r@, s@, high@, low@), ends, 0).0,
            ends,
            brought_down(big_fraction(r@, s@, high@, low@), ends, 0).1,
        ),
        big_value(out.0@) < big_value(out.1@),
        big_value(out.1@) < pow2(1100),
        0 < big_value(out.3@) <= big_value(out.2@),
        big_value(out.2@) <= big_value(out.1@),
        -1200 < out.4 < 1200,
{
    let ghost start = big_fraction(r@, s@, high@, low@);
    let mut r = r;
    let mut s = s;
    let mut high = high;
    let mut low = low;
    let mut n: i128 = 0;
    proof {
        lemma2_to64();
        lemma_big_room();
        lemma_ten(big_value(s@), 1090);
    }
    let mut go = big_reaches_one(&r, &s, &high, ends);
    while go
        invariant
            r@.len() == LIMBS,
            s@.len() == LIMBS,
            high@.len() == LIMBS,
            low@.len() == LIMBS,
            big_value(r@) + big_value(high@) < pow2(1090),
            0 < big_value(s@) < pow2(1096),
            0 < big_value(low@) <= big_value(high@),
            pow2(1090) < pow2(1096),
            pow2(1096) < pow2(1100),
            pow2(1104) < base_to(LIMBS as nat),
            pow2(1100) < pow2(1104),
            pow2(1094) < pow2(1096),
            0 <= n < 1100,
            pow2(n as nat) <= big_value(s@),
            go == reaches_one(big_fraction(r@, s@, high@, low@), ends),
            brought_down(big_fraction(r@, s@, high@, low@), ends, n as int) == brought_down(
                start,
                ends,
                0,
            ),
        decreases
                (if big_value(r@) + big_value(high@) - big_value(s@) + 1 > 0 {
                    big_value(r@) + big_value(high@) - big_value(s@) + 1
                } else {
                    0
                }),
    {
        proof {
            lemma_ten(big_value(s@), 1090);
            lemma_pow2_unfold((n + 1) as nat);
        }
        big_times(&mut s, 10);
        n = n + 1;
        proof {
            lemma_count_below(n as nat, big_value(s@), 1096);
        }
        go = big_reaches_one(&r, &s, &high, ends);
    }
    let ghost down = big_fraction(r@, s@, high@, low@);
    let ghost turned = n;
    let mut more = big_still_below(&r, &s, &high, ends);
    while more
        invariant
            r@.len() == LIMBS,
            s@.len() == LIMBS,
            high@.len() == LIMBS,
            low@.len() == LIMBS,
            0 < big_value(s@) < pow2(1096),
            0 < big_value(low@) <= big_value(high@),
            big_value(r@) + big_value(high@) <= big_value(s@),
            pow2(1096) < pow2(1100),
            pow2(1104) < base_to(LIMBS as nat),
            pow2(1100) < pow2(1104),
            0 <= turned < 1100,
            turned - 1100 < n <= turned,
            pow2((turned - n) as nat) <= big_value(r@) + big_value(high@),
            !reaches_one(big_fraction(r@, s@, high@, low@), ends),
            more == !reaches_one(times_ten(big_fraction(r@, s@, high@, low@)), ends),
            brought_up(big_fraction(r@, s@, high@, low@), ends, n as int) == brought_up(
                down,
                ends,
                turned as int,
            ),
        decreases
                (if big_value(s@) - 10 * (big_value(r@) + big_value(high@)) + 1 > 0 {
                    big_value(s@) - 10 * (big_value(r@) + big_value(high@)) + 1
                } else {
                    0
                }),
    {
        proof {
            lemma_ten(big_value(r@), 1100);
            lemma_ten(big_value(high@), 1100);
            lemma_ten(big_value(low@), 1100);
            lemma_pow2_unfold((turned - n + 1) as nat);
        }
        big_times(&mut r, 10);
        big_times(&mut high, 10);
        big_times(&mut low, 10);
        n = n - 1;
        proof {
            lemma_count_below((turned - n) as nat, big_value(r@) + big_value(high@), 1096);
        }
        more = big_still_below(&r, &s, &high, ends);
    }
    (r, s, high, low, n)
}

/// The shortest digits of a fraction below one.
fn big_digits(r: Vec<u32>, s: Vec<u32>, high: Vec<u32>, low: Vec<u32>, ends: bool) -> (digits:
    Vec<u8>)
    requires
        r@.len() == LIMBS,
        s@.len() == LIMBS,
        high@.len() == LIMBS,
        low@.len() == LIMBS,
        big_value(r@) < big_value(s@),
        big_value(s@) < pow2(1100),
        0 < big_value(low@) <= big_value(high@),
        big_value(high@) <= big_value(s@),
    ensures
        digits@.len() >= 1,
        forall|i: int| 0 <= i < digits@.len() ==> #[trigger] digits@[i] <= 10,
        as_ints(digits@) == shortest_digits(big_fraction(r@, s@, high@, low@), ends),
{
    let ghost first = big_fraction(r@, s@, high@, low@);
    let mut r = r;
    let mut high = high;
    let mut low = low;
    let mut digits: Vec<u8> = Vec::new();
    let mut open = true;
    proof {
        lemma_big_room();
    }
    while open
        invariant
            r@.len() == LIMBS,
            s@.len() == LIMBS,
            high@.len() == LIMBS,
            low@.len() == LIMBS,
            big_value(r@) < big_value(s@),
            big_value(s@) < pow2(1100),
            0 < big_value(low@) <= big_value(high@),
            big_value(high@) <= big_value(s@),
            pow2(1104) < base_to(LIMBS as nat),
            pow2(1100) < pow2(1104),
            forall|i: int| 0 <= i < digits@.len() ==> #[trigger] digits@[i] <= 10,
            open ==> shortest_digits(first, ends) =~= as_ints(digits@) + shortest_digits(
                big_fraction(r@, s@, high@, low@),
                ends,
            ),
            !open ==> digits@.len() >= 1 && shortest_digits(first, ends) =~= as_ints(digits@),
        decreases (if open { 1int } else { 0int }), big_value(s@) - big_value(high@),
    {
        let ghost now = big_fraction(r@, s@, high@, low@);
        let ghost before = digits@;
        proof {
            lemma_ten(big_value(r@), 1100);
            lemma_ten(big_value(high@), 1100);
            lemma_ten(big_value(low@), 1100);
            lemma_ten(big_value(s@), 1100);
        }
        let mut rest = big_copy(&r);
        big_times(&mut rest, 10);
        let mut digit: u8 = 0;
        let mut fits = !big_less(&rest, &s);
        while fits
            invariant
                rest@.len() == LIMBS,
                s@.len() == LIMBS,
                big_value(r@) < big_value(s@),
                digit <= 9,
                big_value(rest@) + digit * big_value(s@) == big_value(r@) * 10,
                fits == (big_value(rest@) >= big_value(s@)),
            decreases big_value(rest@),
        {
            proof {
                if digit == 9 {
                    assert(false) by (nonlinear_arith)
                        requires
                            big_value(rest@) + 9 * big_value(s@) == big_value(r@) * 10,
                            big_value(rest@) >= big_value(s@),
                            big_value(r@) < big_value(s@),
                    ;
                }
                assert(big_value(rest@) - big_value(s@) + (digit + 1) * big_value(s@)
                    == big_value(r@) * 10) by (nonlinear_arith)
                    requires
                        big_value(rest@) + digit * big_value(s@) == big_value(r@) * 10,
                ;
            }
            big_minus(&mut rest, &s);
            digit = digit + 1;
            fits = !big_less(&rest, &s);
        }
        proof {
            vstd::arithmetic::div_mod::lemma_fundamental_div_mod_converse(
                now.r * 10,
                now.s,
                digit as int,
                big_value(rest@) as int,
            );
        }
        big_times(&mut high, 10);
        big_times(&mut low, 10);
        let low_in = if ends {
            !big_less(&low, &rest)
        } else {
            big_less(&rest, &low)
        };
        proof {
            assert(big_value(rest@) + big_value(high@) < pow2(1104));
        }
        let top = big_sum(&rest, &high);
        let high_in = if ends {
            !big_less(&top, &s)
        } else {
            big_less(&s, &top)
        };
        if !low_in && !high_in {
            digits.push(digit);
            r = rest;
            proof {
                assert(as_ints(digits@) =~= as_ints(before) + seq![digit as int]);
            }
        } else {
            let mut twice = big_copy(&rest);
            big_times(&mut twice, 2);
            let nearer = big_less(&twice, &s);
            let last = if low_in && !high_in {
                digit
            } else if !low_in && high_in {
                digit + 1
            } else if nearer {
                digit
            } else {
                digit + 1
            };
            digits.push(last);
            open = false;
            high = big_copy(&s);
            low = big_from(1);
            r = big_from(0);
            proof {
                assert(shortest_digits(now, ends) =~= seq![last as int]);
                assert(as_ints(digits@) =~= as_ints(before) + seq![last as int]);
            }
        }
    }
    digits
}

/// The digits of a number, and the power of ten that they are to be taken
/// with, for every number that is finite and not zero.
fn number_digits_big(bits: u64) -> (out: (Vec<u8>, i128))
    requires
        exponent_of(bits) != 2047,
        !is_zero(bits),
    ensures
        out.0@.len() >= 1,
        forall|i: int| 0 <= i < out.0@.len() ==> #[trigger] out.0@[i] <= 10,
        as_ints(out.0@) == shortest_digits(below_one(bits).0, ends_count(bits)),
        out.1 == below_one(bits).1,
        -1200 < out.1 < 1200,
{
    let ends = (bits % 0x10_0000_0000_0000) % 2 == 0;
    let (r, s, high, low) = big_start(bits);
    let (r, s, high, low, n) = big_below_one(r, s, high, low, ends);
    let digits = big_digits(r, s, high, low, ends);
    (digits, n)
}

} // verus!
