//! The decimal text form of binary64 numbers.
use vstd::arithmetic::power2::{lemma2_to64, lemma_pow2_adds, lemma_pow2_pos, pow2};
use vstd::prelude::*;
use vstd::slice::slice_subrange;

use crate::binary64;
use crate::binary64::{Binary64, NAN_BITS, UNIT_EXPONENT};
use crate::natural::Natural;
use crate::rounding;
use crate::rounding::{round_naturals, INFINITY_CODE};
use crate::text;

verus! {

/// A power of ten.
pub open spec fn ten_to(exponent: nat) -> nat
    decreases exponent,
{
    if exponent == 0 {
        1
    } else {
        10 * ten_to((exponent - 1) as nat)
    }
}

/// The numerator, in units, of `digits * 10^exponent`.
pub open spec fn decimal_num(digits: nat, exponent: int) -> nat {
    if exponent >= 0 {
        digits * ten_to(exponent as nat) * binary64::one_units()
    } else {
        digits * binary64::one_units()
    }
}

/// The denominator of `digits * 10^exponent`.
pub open spec fn decimal_den(exponent: int) -> nat {
    if exponent >= 0 {
        1
    } else {
        ten_to((-exponent) as nat)
    }
}

/// The code of the binary64 magnitude nearest to `digits * 10^exponent`.
pub open spec fn decimal_code(digits: nat, exponent: int) -> nat {
    rounding::nearest_code(decimal_num(digits, exponent), decimal_den(exponent))
}

/// The number nearest to `digits * 10^exponent`.
pub open spec fn decimal_number(digits: nat, exponent: int) -> Binary64 {
    binary64::number(false, decimal_code(digits, exponent))
}

/// The number that a row of decimal digits stands for.
pub open spec fn digits_value(digits: Seq<char>) -> nat
    decreases digits.len(),
{
    if digits.len() == 0 {
        0
    } else {
        digits_value(digits.drop_last()) * 10 + (digits.last() as u32 - '0' as u32) as nat
    }
}

/// Whether all characters are decimal digits.
pub open spec fn all_digits(s: Seq<char>) -> bool {
    forall|i: int| 0 <= i < s.len() ==> text::is_digit(#[trigger] s[i])
}

/// Where `a` or `b` first occurs; the length of the text where neither does.
pub open spec fn first_position(s: Seq<char>, a: char, b: char) -> nat
    decreases s.len(),
{
    if s.len() == 0 || s[0] == a || s[0] == b {
        0
    } else {
        1 + first_position(s.skip(1), a, b)
    }
}

/// Whether the text starts with a sign.
pub open spec fn has_sign(s: Seq<char>) -> bool {
    s.len() > 0 && (s[0] == '+' || s[0] == '-')
}

/// The text behind its sign.
pub open spec fn unsigned(s: Seq<char>) -> Seq<char> {
    if has_sign(s) {
        s.skip(1)
    } else {
        s
    }
}

/// The integer that a signed row of digits stands for, if the text is one.
pub open spec fn parsed_integer(s: Seq<char>) -> Option<int> {
    let digits = unsigned(s);
    if digits.len() == 0 || !all_digits(digits) {
        None
    } else if s[0] == '-' {
        Some(-digits_value(digits))
    } else {
        Some(digits_value(digits) as int)
    }
}

/// The digits and the exponent of an unsigned decimal number, if the text is one:
/// digits with at most one point among them, at least one digit, then, if there is an
/// `e` or `E`, an integer that scales the number by a power of ten.
pub open spec fn parsed_decimal(s: Seq<char>) -> Option<(nat, int)> {
    let mark = first_position(s, 'e', 'E');
    let mantissa = s.take(mark as int);
    let point = first_position(mantissa, '.', '.');
    let whole = mantissa.take(point as int);
    let fraction = if point < mantissa.len() {
        mantissa.skip((point + 1) as int)
    } else {
        Seq::empty()
    };
    let exponent = if mark < s.len() {
        parsed_integer(s.skip((mark + 1) as int))
    } else {
        Some(0)
    };
    if all_digits(whole + fraction) && (whole + fraction).len() > 0 && exponent is Some {
        Some((digits_value(whole + fraction), exponent->0 - fraction.len()))
    } else {
        None
    }
}

/// The number that the text stands for, if it stands for one: an optional sign, then
/// `inf`, `infinity`, `nan` or a decimal number.
pub open spec fn parsed_number(s: Seq<char>) -> Option<Binary64> {
    let negative = s.len() > 0 && s[0] == '-';
    let body = unsigned(s);
    if text::is_word(body, "inf"@) || text::is_word(body, "infinity"@) {
        Some(binary64::number(negative, INFINITY_CODE as nat))
    } else if text::is_word(body, "nan"@) {
        Some(binary64::number(negative, NAN_BITS as nat))
    } else {
        match parsed_decimal(body) {
            Some((digits, exponent)) => Some(
                binary64::number(negative, decimal_code(digits, exponent)),
            ),
            None => None,
        }
    }
}

pub(crate) proof fn lemma_ten_to_positive(n: nat)
    ensures
        ten_to(n) > 0,
    decreases n,
{
    if n > 0 {
        lemma_ten_to_positive((n - 1) as nat);
    }
}

pub(crate) proof fn lemma_ten_to_adds(m: nat, n: nat)
    ensures
        ten_to(m + n) == ten_to(m) * ten_to(n),
    decreases m,
{
    if m == 0 {
        assert(1 * ten_to(n) == ten_to(n));
    } else {
        lemma_ten_to_adds((m - 1) as nat, n);
        assert((10 * ten_to((m - 1) as nat)) * ten_to(n) == 10 * (ten_to((m - 1) as nat) * ten_to(
            n,
        ))) by (nonlinear_arith);
    }
}

/// Ten is more than the cube of two.
pub(crate) proof fn lemma_ten_to_exceeds(n: nat)
    ensures
        ten_to(n) >= pow2(3 * n),
    decreases n,
{
    lemma2_to64();
    if n > 0 {
        lemma_ten_to_exceeds((n - 1) as nat);
        lemma_pow2_adds(3, (3 * (n - 1)) as nat);
    }
}

pub(crate) proof fn lemma_decimal_den_positive(exponent: int)
    ensures
        decimal_den(exponent) > 0,
{
    if exponent < 0 {
        lemma_ten_to_positive((-exponent) as nat);
    }
}

/// Numbers from 10^400 on are infinite.
pub(crate) proof fn lemma_decimal_overflows(digits: nat, exponent: int, size: nat)
    requires
        digits >= ten_to(size),
        size + exponent >= 400,
    ensures
        decimal_code(digits, exponent) == INFINITY_CODE,
{
    let one = binary64::one_units();
    let power = (size + exponent) as nat;
    lemma_pow2_pos(UNIT_EXPONENT as nat);
    lemma_decimal_den_positive(exponent);
    let den = decimal_den(exponent);
    let num = decimal_num(digits, exponent);
    // The number is 10^power at least.
    assert(num >= ten_to(power) * one * den) by {
        if exponent >= 0 {
            lemma_ten_to_adds(size, exponent as nat);
            assert(digits * ten_to(exponent as nat) * one >= ten_to(size) * ten_to(exponent as nat)
                * one) by (nonlinear_arith)
                requires
                    digits >= ten_to(size),
            ;
            assert(ten_to(power) * one * 1 == ten_to(power) * one);
        } else {
            lemma_ten_to_adds(power, (-exponent) as nat);
            assert(digits * one >= ten_to(power) * one * den) by (nonlinear_arith)
                requires
                    digits >= ten_to(power) * den,
            ;
        }
    }
    lemma_ten_to_exceeds(400);
    lemma_ten_to_increases(400, power);
    lemma_pow2_adds(1024, UNIT_EXPONENT as nat);
    vstd::arithmetic::power2::lemma_pow2_strictly_increases(1024, 1200);
    lemma_infinity_units();
    let top = rounding::units(INFINITY_CODE as nat);
    assert(top * den <= num * 1) by (nonlinear_arith)
        requires
            top == pow2(1024) * one,
            pow2(1024) <= ten_to(power),
            num >= ten_to(power) * one * den,
    ;
    rounding::lemma_nearest_exact(INFINITY_CODE as nat, 1);
    assert(top * 1 == top);
    rounding::lemma_nearest_monotone(top, 1, num, den);
}

pub(crate) proof fn lemma_ten_to_increases(m: nat, n: nat)
    requires
        m <= n,
    ensures
        ten_to(m) <= ten_to(n),
    decreases n,
{
    if m < n {
        lemma_ten_to_increases(m, (n - 1) as nat);
    }
}

/// The code of infinity continues the magnitudes with 2^1024.
pub(crate) proof fn lemma_infinity_units()
    ensures
        rounding::units(INFINITY_CODE as nat) == pow2(1024) * binary64::one_units(),
{
    vstd::arithmetic::power2::lemma2_to64_rest();
    binary64::lemma_split_units(0x10_0000_0000_0000, 2046);
    lemma_pow2_adds(52, 2046);
    lemma_pow2_adds(1024, 1074);
}

/// Numbers below 10^-400 vanish.
pub(crate) proof fn lemma_decimal_vanishes(digits: nat, exponent: int, size: nat)
    requires
        digits < ten_to(size),
        size + exponent <= -400,
    ensures
        decimal_code(digits, exponent) == 0,
{
    let one = binary64::one_units();
    let power = (-(size + exponent)) as nat;
    let den = decimal_den(exponent);
    lemma_ten_to_adds(size, power);
    lemma_ten_to_exceeds(400);
    lemma_ten_to_increases(400, power);
    vstd::arithmetic::power2::lemma_pow2_strictly_increases(1075, 1200);
    vstd::arithmetic::power2::lemma_pow2_unfold(1075);
    lemma_pow2_pos(1074);
    assert(2 * (digits * one) < den) by (nonlinear_arith)
        requires
            digits < ten_to(size),
            den == ten_to(size) * ten_to(power),
            ten_to(power) >= 2 * one,
            one > 0,
    ;
    rounding::lemma_nearest_vanishes(digits * one, den);
}

proof fn lemma_digits_value_bounds(digits: Seq<char>)
    requires
        all_digits(digits),
    ensures
        digits_value(digits) < ten_to(digits.len()),
        digits.len() > 0 && digits[0] != '0' ==> digits_value(digits) >= ten_to(
            (digits.len() - 1) as nat,
        ),
    decreases digits.len(),
{
    if digits.len() > 0 {
        let rest = digits.drop_last();
        assert forall|i: int| 0 <= i < rest.len() implies text::is_digit(#[trigger] rest[i]) by {
            assert(rest[i] == digits[i]);
        }
        lemma_digits_value_bounds(rest);
        assert(text::is_digit(digits[digits.len() - 1]));
        if rest.len() > 0 {
            assert(rest[0] == digits[0]);
        } else {
            assert(digits_value(rest) == 0);
            assert(ten_to(1) == 10 * ten_to(0));
        }
    }
}

/// Zeros in front change nothing.
pub(crate) proof fn lemma_leading_zeros(digits: Seq<char>, zeros: nat)
    requires
        zeros <= digits.len(),
        forall|i: int| 0 <= i < zeros ==> digits[i] == '0',
    ensures
        digits_value(digits) == digits_value(digits.skip(zeros as int)),
    decreases digits.len(),
{
    let tail = digits.skip(zeros as int);
    if zeros == digits.len() {
        if digits.len() > 0 {
            lemma_leading_zeros(digits.drop_last(), (zeros - 1) as nat);
            assert(digits.drop_last().skip(zeros - 1).len() == 0);
            assert(digits_value(digits.drop_last().skip(zeros - 1)) == 0);
        }
        assert(tail.len() == 0);
    } else {
        lemma_leading_zeros(digits.drop_last(), zeros);
        assert(digits.drop_last().skip(zeros as int) == tail.drop_last());
    }
}

/// Where `a` or `b` first occurs.
fn find(s: &[char], a: char, b: char) -> (position: usize)
    ensures
        position == first_position(s@, a, b),
        position <= s@.len(),
{
    let count: usize = s.len();
    let mut i: usize = 0;
    assert(s@.skip(0) == s@);
    while i < count && s[i] != a && s[i] != b
        invariant
            i <= count,
            count == s@.len(),
            first_position(s@, a, b) == i + first_position(s@.skip(i as int), a, b),
        decreases count - i,
    {
        assert(s@.skip(i as int).skip(1) == s@.skip(i + 1));
        i += 1;
    }
    i
}

fn are_digits(s: &[char]) -> (result: bool)
    ensures
        result == all_digits(s@),
{
    let count: usize = s.len();
    let mut i: usize = 0;
    while i < count
        invariant
            i <= count,
            count == s@.len(),
            forall|j: int| 0 <= j < i ==> text::is_digit(#[trigger] s@[j]),
        decreases count - i,
    {
        let c: char = s[i];
        if !('0' <= c && c <= '9') {
            assert(!text::is_digit(s@[i as int]));
            return false;
        }
        i += 1;
    }
    true
}

/// The value of a row of digits; where it reaches 2^100, some number from there on.
fn bounded_value(s: &[char]) -> (value: u128)
    requires
        all_digits(s@),
    ensures
        value < 0x100_0000_0000_0000_0000_0000_0000,
        value == digits_value(s@) || (value >= 0x10_0000_0000_0000_0000_0000_0000 && digits_value(
            s@,
        ) >= 0x10_0000_0000_0000_0000_0000_0000),
{
    let count: usize = s.len();
    let mut value: u128 = 0;
    let mut i: usize = 0;
    while i < count
        invariant
            i <= count,
            count == s@.len(),
            all_digits(s@),
            value < 0x100_0000_0000_0000_0000_0000_0000,
            value == digits_value(s@.take(i as int)) || (value
                >= 0x10_0000_0000_0000_0000_0000_0000 && digits_value(s@.take(i as int))
                >= 0x10_0000_0000_0000_0000_0000_0000),
        decreases count - i,
    {
        assert(text::is_digit(s@[i as int]));
        assert(s@.take(i + 1).drop_last() == s@.take(i as int));
        assert(s@.take(i + 1).last() == s@[i as int]);
        if value < 0x10_0000_0000_0000_0000_0000_0000 {
            value = value * 10 + (s[i] as u32 - '0' as u32) as u128;
        }
        i += 1;
    }
    assert(s@.take(count as int) == s@);
    value
}

/// The value of a row of digits.
fn natural_value(s: &[char]) -> (value: Natural)
    requires
        all_digits(s@),
    ensures
        value@ == digits_value(s@),
{
    let count: usize = s.len();
    let mut value = Natural::from_small(0);
    let mut i: usize = 0;
    while i < count
        invariant
            i <= count,
            count == s@.len(),
            all_digits(s@),
            value@ == digits_value(s@.take(i as int)),
        decreases count - i,
    {
        assert(text::is_digit(s@[i as int]));
        assert(s@.take(i + 1).drop_last() == s@.take(i as int));
        assert(s@.take(i + 1).last() == s@[i as int]);
        value.mul_add(10, s[i] as u32 - '0' as u32);
        i += 1;
    }
    assert(s@.take(count as int) == s@);
    value
}

/// Multiplies by a power of ten.
pub(crate) fn scale_by_ten(value: &mut Natural, exponent: u128)
    ensures
        final(value)@ == old(value)@ * ten_to(exponent as nat),
{
    let ghost before = value@;
    let mut i: u128 = 0;
    assert(before * ten_to(0) == before) by (nonlinear_arith)
        requires
            ten_to(0) == 1,
    ;
    while i < exponent
        invariant
            i <= exponent,
            value@ == before * ten_to(i as nat),
        decreases exponent - i,
    {
        value.mul_add(10, 0);
        assert((before * ten_to(i as nat)) * 10 == before * (10 * ten_to(i as nat)))
            by (nonlinear_arith);
        i += 1;
    }
}

/// Multiplies by the number of units in 1.
pub(crate) fn scale_to_units(value: &mut Natural)
    ensures
        final(value)@ == old(value)@ * binary64::one_units(),
{
    let ghost before = value@;
    let mut i: u32 = 0;
    proof {
        lemma2_to64();
        assert(before * pow2(0) == before) by (nonlinear_arith)
            requires
                pow2(0) == 1,
        ;
    }
    while i < UNIT_EXPONENT
        invariant
            i <= UNIT_EXPONENT,
            value@ == before * pow2(i as nat),
        decreases UNIT_EXPONENT - i,
    {
        value.mul_add(2, 0);
        proof {
            vstd::arithmetic::power2::lemma_pow2_unfold((i + 1) as nat);
            assert((before * pow2(i as nat)) * 2 == before * (2 * pow2(i as nat)))
                by (nonlinear_arith);
        }
        i += 1;
    }
}

/// The code nearest to `digits * 10^exponent`.
pub(crate) fn round_decimal(digits: &Natural, exponent: i128) -> (code: u64)
    requires
        exponent > i128::MIN,
    ensures
        code == decimal_code(digits@, exponent as int),
{
    let mut num = digits.copy();
    let mut den = Natural::from_small(1);
    if exponent >= 0 {
        scale_by_ten(&mut num, exponent as u128);
    } else {
        scale_by_ten(&mut den, (-exponent) as u128);
    }
    scale_to_units(&mut num);
    proof {
        lemma_decimal_den_positive(exponent as int);
        if exponent < 0 {
            assert(1 * ten_to((-exponent) as nat) == ten_to((-exponent) as nat));
        }
    }
    round_naturals(&num, &den)
}

/// The code of a row of digits, scaled by a power of ten.
fn round_digits(digits: &[char], exponent: i128) -> (code: u64)
    requires
        all_digits(digits@),
        -0x200_0000_0000_0000_0000_0000_0000 < exponent < 0x200_0000_0000_0000_0000_0000_0000,
    ensures
        code == decimal_code(digits_value(digits@), exponent as int),
{
    let count: usize = digits.len();
    let mut zeros: usize = 0;
    while zeros < count && digits[zeros] == '0'
        invariant
            zeros <= count,
            count == digits@.len(),
            forall|i: int| 0 <= i < zeros ==> digits@[i] == '0',
        decreases count - zeros,
    {
        zeros += 1;
    }
    let significant = slice_subrange(digits, zeros, count);
    let size: i128 = (count - zeros) as i128;
    proof {
        assert(significant@ == digits@.skip(zeros as int));
        assert forall|i: int| 0 <= i < significant@.len() implies text::is_digit(
            #[trigger] significant@[i],
        ) by {
            assert(significant@[i] == digits@[i + zeros]);
        }
        lemma_leading_zeros(digits@, zeros as nat);
        lemma_digits_value_bounds(significant@);
    }
    if size == 0 {
        proof {
            assert(significant@.len() == 0);
            lemma_decimal_zero(exponent as int);
        }
        return 0;
    }
    assert(significant@[0] == digits@[zeros as int]);
    if size - 1 + exponent >= 400 {
        proof {
            lemma_decimal_overflows(
                digits_value(significant@),
                exponent as int,
                (size - 1) as nat,
            );
        }
        return INFINITY_CODE;
    }
    if size + exponent <= -400 {
        proof {
            lemma_decimal_vanishes(digits_value(significant@), exponent as int, size as nat);
        }
        return 0;
    }
    let value = natural_value(significant);
    round_decimal(&value, exponent)
}

pub(crate) proof fn lemma_decimal_zero(exponent: int)
    ensures
        decimal_code(0, exponent) == 0,
{
    lemma_decimal_den_positive(exponent);
    assert(decimal_num(0, exponent) == 0) by (nonlinear_arith)
        requires
            decimal_num(0, exponent) == if exponent >= 0 {
                0 * ten_to(exponent as nat) * binary64::one_units()
            } else {
                0 * binary64::one_units()
            },
    ;
    rounding::lemma_nearest_vanishes(0, decimal_den(exponent));
}

/// The text behind its sign.
fn skip_sign(s: &[char]) -> (rest: &[char])
    ensures
        rest@ == unsigned(s@),
{
    if s.len() > 0 && (s[0] == '+' || s[0] == '-') {
        assert(s@.subrange(1, s@.len() as int) == s@.skip(1));
        slice_subrange(s, 1, s.len())
    } else {
        s
    }
}

/// The integer that a signed row of digits stands for, if the text is one; where its
/// magnitude reaches 2^100, some integer of its sign from there on.
fn parse_integer(s: &[char]) -> (value: Option<i128>)
    ensures
        value is Some == parsed_integer(s@) is Some,
        value matches Some(v) ==> {
            let exact = parsed_integer(s@)->0;
            &&& -0x100_0000_0000_0000_0000_0000_0000 < v < 0x100_0000_0000_0000_0000_0000_0000
            &&& v == exact || (v >= 0x10_0000_0000_0000_0000_0000_0000 && exact
                >= 0x10_0000_0000_0000_0000_0000_0000) || (v
                <= -0x10_0000_0000_0000_0000_0000_0000 && exact
                <= -0x10_0000_0000_0000_0000_0000_0000)
        },
{
    let digits = skip_sign(s);
    if digits.len() == 0 || !are_digits(digits) {
        return None;
    }
    let magnitude = bounded_value(digits);
    if s[0] == '-' {
        Some(-(magnitude as i128))
    } else {
        Some(magnitude as i128)
    }
}

/// The code of an unsigned decimal number, if the text is one.
fn parse_decimal(s: &[char]) -> (code: Option<u64>)
    ensures
        match parsed_decimal(s@) {
            Some((digits, exponent)) => code is Some && code->0 == decimal_code(digits, exponent),
            None => code is None,
        },
{
    let mark: usize = find(s, 'e', 'E');
    let mantissa = slice_subrange(s, 0, mark);
    assert(mantissa@ == s@.take(mark as int));
    let point: usize = find(mantissa, '.', '.');
    let mut digits: Vec<char> = Vec::new();
    let ghost whole = mantissa@.take(point as int);
    let ghost fraction = if point < mantissa@.len() {
        mantissa@.skip(point + 1)
    } else {
        Seq::empty()
    };
    let mut i: usize = 0;
    while i < mark
        invariant
            i <= mark,
            mark == mantissa@.len(),
            point <= mark,
            digits@ == if i <= point {
                mantissa@.take(i as int)
            } else {
                mantissa@.take(point as int) + mantissa@.subrange(point + 1, i as int)
            },
        decreases mark - i,
    {
        if i != point {
            digits.push(mantissa[i]);
        }
        i += 1;
        assert(i > point + 1 ==> mantissa@.subrange(point + 1, i as int) == mantissa@.subrange(
            point + 1,
            i - 1,
        ).push(mantissa@[i - 1]));
    }
    assert(digits@ == whole + fraction);
    let exponent: i128 = if mark < s.len() {
        assert(s@.subrange(mark + 1, s@.len() as int) == s@.skip(mark + 1));
        match parse_integer(slice_subrange(s, mark + 1, s.len())) {
            Some(value) => value,
            None => {
                return None;
            },
        }
    } else {
        0
    };
    if digits.len() == 0 || !are_digits(digits.as_slice()) {
        return None;
    }
    let decimals: usize = if point < mark {
        mark - point - 1
    } else {
        0
    };
    assert(decimals == fraction.len());
    proof {
        let exact = if mark < s@.len() {
            parsed_integer(s@.skip(mark + 1))->0
        } else {
            0
        };
        if exact != exponent {
            lemma_far_exponent(
                digits@,
                exponent - decimals,
                exact - decimals,
            );
        }
    }
    Some(round_digits(digits.as_slice(), exponent - decimals as i128))
}

/// Exponents far beyond the number of digits need not be exact.
proof fn lemma_far_exponent(digits: Seq<char>, x: int, y: int)
    requires
        all_digits(digits),
        digits.len() <= usize::MAX,
        (x >= 0x8_0000_0000_0000_0000_0000_0000 && y >= 0x8_0000_0000_0000_0000_0000_0000) || (x
            <= -0x8_0000_0000_0000_0000_0000_0000 && y <= -0x8_0000_0000_0000_0000_0000_0000),
    ensures
        decimal_code(digits_value(digits), x) == decimal_code(digits_value(digits), y),
{
    let value = digits_value(digits);
    lemma_digits_value_bounds(digits);
    if value == 0 {
        lemma_decimal_zero(x);
        lemma_decimal_zero(y);
    } else if x > 0 {
        lemma_decimal_overflows(value, x, 0);
        lemma_decimal_overflows(value, y, 0);
    } else {
        lemma_decimal_vanishes(value, x, digits.len());
        lemma_decimal_vanishes(value, y, digits.len());
    }
}

/// The number that the text stands for, if it stands for one.
pub fn parse_number(s: &str) -> (number: Option<Binary64>)
    ensures
        number == parsed_number(s@),
{
    let chars = text::characters(s);
    let all = chars.as_slice();
    let negative: bool = all.len() > 0 && all[0] == '-';
    let body = skip_sign(all);
    if text::equals_word(body, "inf") || text::equals_word(body, "infinity") {
        return Some(Binary64::assemble(negative, INFINITY_CODE));
    }
    if text::equals_word(body, "nan") {
        return Some(Binary64::assemble(negative, NAN_BITS));
    }
    match parse_decimal(body) {
        Some(code) => Some(Binary64::assemble(negative, code)),
        None => None,
    }
}

/// Whether some multiple of `10^exponent` rounds to the magnitude with the given code.
pub open spec fn has_decimal(code: nat, exponent: int) -> bool {
    exists|digits: nat| digits > 0 && #[trigger] decimal_code(digits, exponent) == code
}

/// How far `digits * 10^exponent` lies from the magnitude with the given code.
pub open spec fn decimal_distance(code: nat, digits: nat, exponent: int) -> nat {
    rounding::distance(
        rounding::units(code) * decimal_den(exponent),
        decimal_num(digits, exponent),
    )
}

/// Whether `digits * 10^exponent` is the shortest decimal number that rounds to the
/// magnitude with the given code: its power of ten is the greatest that there is, and
/// among the multiples of that power it lies nearest; of two that are equally near it is
/// the greater one.
pub open spec fn is_shortest_decimal(code: nat, digits: nat, exponent: int) -> bool {
    &&& digits > 0
    &&& decimal_code(digits, exponent) == code
    &&& forall|e: int| e > exponent ==> !#[trigger] has_decimal(code, e)
    &&& forall|d: nat| #[trigger]
        decimal_code(d, exponent) == code ==> decimal_distance(code, digits, exponent)
            < decimal_distance(code, d, exponent) || (decimal_distance(code, digits, exponent)
            == decimal_distance(code, d, exponent) && d <= digits)
}

/// The shortest decimal number that rounds to the magnitude with the given code.
pub open spec fn shortest_decimal(code: nat) -> (nat, int) {
    choose|digits: nat, exponent: int| is_shortest_decimal(code, digits, exponent)
}

/// There is at most one shortest decimal number.
pub proof fn lemma_shortest_decimal_unique(code: nat, d: nat, e: int, d2: nat, e2: int)
    requires
        is_shortest_decimal(code, d, e),
        is_shortest_decimal(code, d2, e2),
    ensures
        d == d2,
        e == e2,
{
    assert(has_decimal(code, e));
    assert(has_decimal(code, e2));
}

/// The decimal digits of a natural number.
pub open spec fn decimal_digits(n: nat) -> Seq<char>
    decreases n,
{
    if n < 10 {
        seq![text::digit_char(n)]
    } else {
        decimal_digits(n / 10).push(text::digit_char(n % 10))
    }
}

/// A row of zeros.
pub open spec fn zeros(count: nat) -> Seq<char> {
    Seq::new(count, |i: int| '0')
}

/// The text of `digits * 10^exponent`, without a power of ten.
pub open spec fn decimal_text(digits: nat, exponent: int) -> Seq<char> {
    let row = decimal_digits(digits);
    if exponent >= 0 {
        row + zeros(exponent as nat)
    } else if row.len() + exponent > 0 {
        row.take(row.len() + exponent) + "."@ + row.skip(row.len() + exponent)
    } else {
        "0."@ + zeros((-exponent - row.len()) as nat) + row
    }
}

/// The text of a number: the shortest decimal number that rounds to it.
pub open spec fn number_text(x: Binary64) -> Seq<char> {
    let sign = if x.is_negative() {
        "-"@
    } else {
        ""@
    };
    if x.is_nan() {
        "NaN"@
    } else if x.is_infinite() {
        sign + "inf"@
    } else if x.is_zero() {
        sign + "0"@
    } else {
        sign + decimal_text(shortest_decimal(x.code()).0, shortest_decimal(x.code()).1)
    }
}

/// The order of multiples of one power of ten is the order of their codes.
proof fn lemma_decimal_monotone(d: nat, d2: nat, exponent: int)
    requires
        d <= d2,
    ensures
        decimal_code(d, exponent) <= decimal_code(d2, exponent),
{
    let den = decimal_den(exponent);
    let one = binary64::one_units();
    lemma_decimal_den_positive(exponent);
    assert(decimal_num(d, exponent) <= decimal_num(d2, exponent)) by {
        if exponent >= 0 {
            let t = ten_to(exponent as nat);
            assert(d * t * one <= d2 * t * one) by (nonlinear_arith)
                requires
                    d <= d2,
            ;
        } else {
            assert(d * one <= d2 * one) by (nonlinear_arith)
                requires
                    d <= d2,
            ;
        }
    }
    assert(decimal_num(d, exponent) * den <= decimal_num(d2, exponent) * den) by (nonlinear_arith)
        requires
            decimal_num(d, exponent) <= decimal_num(d2, exponent),
    ;
    rounding::lemma_nearest_monotone(
        decimal_num(d, exponent),
        den,
        decimal_num(d2, exponent),
        den,
    );
}

/// The exponent from which the search for a shortest decimal number descends.
pub const TOP_EXPONENT: i128 = 400;

/// The number of units in `10^TOP_EXPONENT`.
spec fn top_units() -> nat {
    ten_to(TOP_EXPONENT as nat) * binary64::one_units()
}

/// The factor that brings both sides of a comparison to the search's scale.
spec fn search_factor(exponent: int) -> nat {
    if exponent >= 0 {
        ten_to((TOP_EXPONENT - exponent) as nat)
    } else {
        ten_to(TOP_EXPONENT as nat)
    }
}

/// What is compared, on the search's scale.
proof fn lemma_search_scale(code: nat, digits: nat, exponent: int)
    requires
        exponent <= TOP_EXPONENT,
    ensures
        search_factor(exponent) > 0,
        decimal_num(digits, exponent) * search_factor(exponent) == digits * top_units(),
        (rounding::units(code) * decimal_den(exponent)) * search_factor(exponent)
            == rounding::units(code) * ten_to((TOP_EXPONENT - exponent) as nat),
{
    let one = binary64::one_units();
    let k = search_factor(exponent);
    let u = rounding::units(code);
    if exponent >= 0 {
        let t = ten_to(exponent as nat);
        lemma_ten_to_positive((TOP_EXPONENT - exponent) as nat);
        lemma_ten_to_adds(exponent as nat, (TOP_EXPONENT - exponent) as nat);
        assert((digits * t * one) * k == digits * ((t * k) * one)) by (nonlinear_arith);
        assert((u * 1) * k == u * k);
    } else {
        lemma_ten_to_positive(TOP_EXPONENT as nat);
        lemma_ten_to_adds((-exponent) as nat, TOP_EXPONENT as nat);
        let t = ten_to((-exponent) as nat);
        assert((digits * one) * k == digits * (k * one)) by (nonlinear_arith);
        assert((u * t) * k == u * (t * k)) by (nonlinear_arith);
    }
}

/// The magnitude lies between `digits` and `digits + 1` times the power of ten.
spec fn search_state(code: nat, digits: nat, rest: nat, exponent: int) -> bool {
    &&& exponent <= TOP_EXPONENT
    &&& rounding::units(code) * ten_to((TOP_EXPONENT - exponent) as nat) == digits * top_units()
        + rest
    &&& rest < top_units()
}

/// The multiple below rounds to no more than the code, the multiple above to no less.
proof fn lemma_search_brackets(code: nat, digits: nat, rest: nat, exponent: int)
    requires
        code < INFINITY_CODE,
        search_state(code, digits, rest, exponent),
    ensures
        decimal_code(digits, exponent) <= code,
        decimal_code(digits + 1, exponent) >= code,
        rest == 0 ==> decimal_code(digits, exponent) == code,
{
    let u = rounding::units(code);
    let den = decimal_den(exponent);
    let k = search_factor(exponent);
    lemma_decimal_den_positive(exponent);
    lemma_search_scale(code, digits, exponent);
    lemma_search_scale(code, digits + 1, exponent);
    let low = decimal_num(digits, exponent);
    let high = decimal_num(digits + 1, exponent);
    assert((digits + 1) * top_units() == digits * top_units() + top_units()) by (nonlinear_arith);
    assert(low <= u * den) by (nonlinear_arith)
        requires
            low * k <= (u * den) * k,
            k > 0,
    ;
    assert(u * den <= high) by (nonlinear_arith)
        requires
            (u * den) * k <= high * k,
            k > 0,
    ;
    rounding::lemma_nearest_exact(code, den);
    assert(low * den <= (u * den) * den) by (nonlinear_arith)
        requires
            low <= u * den,
    ;
    assert((u * den) * den <= high * den) by (nonlinear_arith)
        requires
            u * den <= high,
    ;
    rounding::lemma_nearest_monotone(low, den, u * den, den);
    rounding::lemma_nearest_monotone(u * den, den, high, den);
    if rest == 0 {
        assert(low == u * den) by (nonlinear_arith)
            requires
                low * k == (u * den) * k,
                k > 0,
        ;
    }
}

/// Where neither neighbour rounds to the code, no multiple does.
proof fn lemma_search_fails(code: nat, digits: nat, rest: nat, exponent: int)
    requires
        code < INFINITY_CODE,
        search_state(code, digits, rest, exponent),
        digits > 0 ==> decimal_code(digits, exponent) != code,
        decimal_code(digits + 1, exponent) != code,
    ensures
        !has_decimal(code, exponent),
{
    lemma_search_brackets(code, digits, rest, exponent);
    assert forall|d: nat| d > 0 implies #[trigger] decimal_code(d, exponent) != code by {
        if d <= digits {
            lemma_decimal_monotone(d, digits, exponent);
        } else {
            lemma_decimal_monotone(digits + 1, d, exponent);
        }
    }
}

/// The distances of multiples, told from the rest of the division.
proof fn lemma_search_distance(code: nat, digits: nat, rest: nat, exponent: int, d: nat)
    requires
        search_state(code, digits, rest, exponent),
    ensures
        decimal_distance(code, digits, exponent) * search_factor(exponent) == rest,
        decimal_distance(code, digits + 1, exponent) * search_factor(exponent) == top_units()
            - rest,
        d <= digits ==> decimal_distance(code, d, exponent) * search_factor(exponent) == rest + (
        digits - d) * top_units(),
        d > digits ==> decimal_distance(code, d, exponent) * search_factor(exponent) == (d - digits)
            * top_units() - rest,
{
    lemma_scaled_distance(code, digits, rest, exponent, digits);
    lemma_scaled_distance(code, digits, rest, exponent, digits + 1);
    lemma_scaled_distance(code, digits, rest, exponent, d);
    assert((digits - digits) * top_units() == 0) by (nonlinear_arith);
    assert((digits + 1 - digits) * top_units() == top_units()) by (nonlinear_arith);
}

proof fn lemma_scaled_distance(code: nat, digits: nat, rest: nat, exponent: int, d: nat)
    requires
        search_state(code, digits, rest, exponent),
    ensures
        d <= digits ==> decimal_distance(code, d, exponent) * search_factor(exponent) == rest + (
        digits - d) * top_units(),
        d > digits ==> decimal_distance(code, d, exponent) * search_factor(exponent) == (d - digits)
            * top_units() - rest,
{
    let top = top_units();
    let k = search_factor(exponent);
    let x = rounding::units(code) * decimal_den(exponent);
    let y = decimal_num(d, exponent);
    lemma_search_scale(code, d, exponent);
    if d <= digits {
        assert(d * top + (digits - d) * top == digits * top) by (nonlinear_arith);
        assert((digits - d) * top >= 0) by (nonlinear_arith)
            requires
                digits >= d,
                top >= 0,
        ;
        assert(y <= x) by (nonlinear_arith)
            requires
                y * k <= x * k,
                k > 0,
        ;
        assert((x - y) * k == x * k - y * k) by (nonlinear_arith);
    } else {
        assert(d * top == digits * top + (d - digits) * top) by (nonlinear_arith);
        assert((d - digits) * top >= top) by (nonlinear_arith)
            requires
                d - digits >= 1,
                top >= 0,
        ;
        assert(x <= y) by (nonlinear_arith)
            requires
                x * k <= y * k,
                k > 0,
        ;
        assert((y - x) * k == y * k - x * k) by (nonlinear_arith);
    }
}

/// The neighbour that is picked is the shortest decimal number.
proof fn lemma_search_succeeds(code: nat, digits: nat, rest: nat, exponent: int, picked: nat)
    requires
        0 < code < INFINITY_CODE,
        search_state(code, digits, rest, exponent),
        forall|e: int| e > exponent ==> !#[trigger] has_decimal(code, e),
        picked > 0,
        picked == digits || picked == digits + 1,
        decimal_code(picked, exponent) == code,
        picked == digits ==> (2 * rest < top_units() || decimal_code(digits + 1, exponent) != code),
        picked == digits + 1 ==> (2 * rest >= top_units() || digits == 0 || decimal_code(
            digits,
            exponent,
        ) != code),
    ensures
        is_shortest_decimal(code, picked, exponent),
{
    let k = search_factor(exponent);
    let top = top_units();
    lemma_search_brackets(code, digits, rest, exponent);
    lemma_search_scale(code, digits, exponent);
    lemma_decimal_zero(exponent);
    assert forall|d: nat| #[trigger] decimal_code(d, exponent) == code implies decimal_distance(
        code,
        picked,
        exponent,
    ) < decimal_distance(code, d, exponent) || (decimal_distance(code, picked, exponent)
        == decimal_distance(code, d, exponent) && d <= picked) by {
        lemma_search_distance(code, digits, rest, exponent, d);
        if d <= digits {
            lemma_decimal_monotone(d, digits, exponent);
            assert(decimal_code(digits, exponent) == code);
            if d < digits {
                assert((digits - d) * top >= top) by (nonlinear_arith)
                    requires
                        digits - d >= 1,
                        top >= 0,
                ;
            } else {
                assert((digits - d) * top == 0) by (nonlinear_arith)
                    requires
                        digits == d,
                ;
            }
        } else {
            lemma_decimal_monotone(digits + 1, d, exponent);
            assert(decimal_code(digits + 1, exponent) == code);
            if d > digits + 1 {
                assert((d - digits) * top >= 2 * top) by (nonlinear_arith)
                    requires
                        d - digits >= 2,
                        top >= 0,
                ;
            } else {
                assert((d - digits) * top == top) by (nonlinear_arith)
                    requires
                        d == digits + 1,
                ;
            }
        }
        let x = decimal_distance(code, picked, exponent);
        let y = decimal_distance(code, d, exponent);
        if x * k < y * k {
            assert(x < y) by (nonlinear_arith)
                requires
                    x * k < y * k,
                    k > 0,
            ;
        } else {
            assert(x * k == y * k);
            assert(x == y) by (nonlinear_arith)
                requires
                    x * k == y * k,
                    k > 0,
            ;
        }
    }
}

/// The next magnitude is at most twice as great.
proof fn lemma_units_next(code: nat)
    requires
        code > 0,
    ensures
        rounding::units(code + 1) <= 2 * rounding::units(code),
    decreases code,
{
    if code >= rounding::EXACT_CODES {
        let less = (code - rounding::BINADE) as nat;
        lemma_units_next(less);
        assert(rounding::units(code + 1) == 2 * rounding::units(less + 1));
    } else if code + 1 >= rounding::EXACT_CODES {
        assert(rounding::units(code + 1) == 2 * rounding::units(rounding::BINADE as nat));
    }
}

/// A power of ten of more than twice the magnitude is out of the question.
proof fn lemma_search_skips(code: nat, rest: nat, exponent: int)
    requires
        0 < code < INFINITY_CODE,
        search_state(code, 0, rest, exponent),
        2 * rest < top_units(),
    ensures
        !has_decimal(code, exponent),
{
    let u = rounding::units(code);
    let next = rounding::units(code + 1);
    let den = decimal_den(exponent);
    let k = search_factor(exponent);
    let num = decimal_num(1, exponent);
    lemma_decimal_den_positive(exponent);
    lemma_search_scale(code, 1, exponent);
    assert(0 * top_units() == 0);
    assert(1 * top_units() == top_units());
    assert(2 * (u * den) <= num) by (nonlinear_arith)
        requires
            2 * ((u * den) * k) <= num * k,
            k > 0,
    ;
    lemma_units_next(code);
    assert((next * den) * den <= num * den) by (nonlinear_arith)
        requires
            next <= 2 * u,
            2 * (u * den) <= num,
    ;
    rounding::lemma_nearest_exact(code + 1, den);
    rounding::lemma_nearest_monotone(next * den, den, num, den);
    assert forall|d: nat| d > 0 implies #[trigger] decimal_code(d, exponent) != code by {
        lemma_decimal_monotone(1, d, exponent);
    }
}

/// Powers of two divide powers of ten.
proof fn lemma_ten_to_factor(n: nat) -> (factor: nat)
    ensures
        ten_to(n) == pow2(n) * factor,
    decreases n,
{
    if n == 0 {
        lemma2_to64();
        1
    } else {
        let less = lemma_ten_to_factor((n - 1) as nat);
        vstd::arithmetic::power2::lemma_pow2_unfold(n);
        let p = pow2((n - 1) as nat);
        assert(10 * (p * less) == (2 * p) * (5 * less)) by (nonlinear_arith);
        5 * less
    }
}

/// A finite magnitude has no more than 1074 decimals.
proof fn lemma_search_ends(code: nat, digits: nat, rest: nat)
    requires
        search_state(code, digits, rest, -(UNIT_EXPONENT as int)),
    ensures
        rest == 0,
{
    let u = rounding::units(code);
    let top = top_units();
    let one = binary64::one_units();
    let t = ten_to(TOP_EXPONENT as nat);
    lemma_ten_to_adds(UNIT_EXPONENT as nat, TOP_EXPONENT as nat);
    let factor = lemma_ten_to_factor(UNIT_EXPONENT as nat);
    assert(u * ((one * factor) * t) == (u * factor) * (t * one)) by (nonlinear_arith);
    rounding::lemma_quotient((digits * top + rest) as nat, top, digits, rest);
    lemma_pow2_pos(UNIT_EXPONENT as nat);
    lemma_ten_to_positive(TOP_EXPONENT as nat);
    assert(top > 0);
    rounding::lemma_quotient(((u * factor) * top) as nat, top, u * factor, 0);
}

/// The magnitude with the given code, in units.
fn natural_units(code: u64) -> (value: Natural)
    requires
        code < INFINITY_CODE,
    ensures
        value@ == rounding::units(code as nat),
{
    let (significand, shift) = binary64::split(code);
    let mut value = Natural::from_small((significand / 0x1_0000_0000) as u32);
    value.mul_add(0x1_0000, 0);
    value.mul_add(0x1_0000, (significand % 0x1_0000_0000) as u32);
    assert(value@ == significand);
    let mut i: u32 = 0;
    proof {
        lemma2_to64();
        assert(significand * pow2(0) == significand) by (nonlinear_arith)
            requires
                pow2(0) == 1,
        ;
    }
    while i < shift
        invariant
            i <= shift,
            value@ == significand * pow2(i as nat),
        decreases shift - i,
    {
        value.mul_add(2, 0);
        proof {
            vstd::arithmetic::power2::lemma_pow2_unfold((i + 1) as nat);
            assert((significand * pow2(i as nat)) * 2 == significand * (2 * pow2(i as nat)))
                by (nonlinear_arith);
        }
        i += 1;
    }
    value
}

/// The search starts above every finite magnitude.
proof fn lemma_search_starts(code: nat)
    requires
        code < INFINITY_CODE,
    ensures
        search_state(code, 0, rounding::units(code), TOP_EXPONENT as int),
        forall|e: int| e >= TOP_EXPONENT ==> !#[trigger] has_decimal(code, e),
{
    let u = rounding::units(code);
    let one = binary64::one_units();
    assert(u * ten_to(0) == u) by (nonlinear_arith)
        requires
            ten_to(0) == 1,
    ;
    assert(0 * top_units() == 0);
    rounding::lemma_units_increase(code, INFINITY_CODE as nat);
    lemma_infinity_units();
    lemma_ten_to_exceeds(TOP_EXPONENT as nat);
    vstd::arithmetic::power2::lemma_pow2_strictly_increases(1024, 1200);
    assert(pow2(1024) * one <= top_units()) by (nonlinear_arith)
        requires
            pow2(1024) <= ten_to(TOP_EXPONENT as nat),
            top_units() == ten_to(TOP_EXPONENT as nat) * one,
    ;
    assert forall|e: int| e >= TOP_EXPONENT implies !#[trigger] has_decimal(code, e) by {
        assert forall|d: nat| d > 0 implies #[trigger] decimal_code(d, e) != code by {
            lemma_decimal_overflows(d, e, 0);
        }
    }
}

/// Every finite magnitude but 0 has a shortest decimal number.
pub proof fn lemma_shortest_decimal_exists(code: nat)
    requires
        0 < code < INFINITY_CODE,
    ensures
        is_shortest_decimal(code, shortest_decimal(code).0, shortest_decimal(code).1),
{
    lemma_search_starts(code);
    lemma_shortest_decimal_from(code, TOP_EXPONENT as int);
}

proof fn lemma_shortest_decimal_from(code: nat, exponent: int)
    requires
        0 < code < INFINITY_CODE,
        -(UNIT_EXPONENT as int) <= exponent <= TOP_EXPONENT,
        forall|e: int| e > exponent ==> !#[trigger] has_decimal(code, e),
    ensures
        exists|d: nat, e: int| is_shortest_decimal(code, d, e),
    decreases exponent + UNIT_EXPONENT,
{
    let top = top_units();
    lemma_pow2_pos(UNIT_EXPONENT as nat);
    lemma_ten_to_positive(TOP_EXPONENT as nat);
    assert(top > 0) by (nonlinear_arith)
        requires
            top == ten_to(TOP_EXPONENT as nat) * binary64::one_units(),
            ten_to(TOP_EXPONENT as nat) > 0,
            binary64::one_units() > 0,
    ;
    let scaled = rounding::units(code) * ten_to((TOP_EXPONENT - exponent) as nat);
    rounding::lemma_split(scaled, top);
    let digits = scaled / top;
    let rest = scaled % top;
    assert(search_state(code, digits, rest, exponent));
    lemma_search_brackets(code, digits, rest, exponent);
    lemma_decimal_zero(exponent);
    if has_decimal(code, exponent) {
        let below = digits > 0 && decimal_code(digits, exponent) == code;
        let above = decimal_code(digits + 1, exponent) == code;
        if !below && !above {
            lemma_search_fails(code, digits, rest, exponent);
        }
        let picked = if below && (2 * rest < top || !above) {
            digits
        } else {
            digits + 1
        };
        lemma_search_succeeds(code, digits, rest, exponent, picked);
    } else {
        if exponent == -(UNIT_EXPONENT as int) {
            lemma_search_ends(code, digits, rest);
            assert(decimal_code(digits, exponent) == code);
        }
        lemma_shortest_decimal_from(code, exponent - 1);
    }
}

/// The shortest decimal number that rounds to the magnitude with the given code.
fn find_shortest(code: u64) -> (shortest: (Natural, i128))
    requires
        0 < code < INFINITY_CODE,
    ensures
        is_shortest_decimal(code as nat, shortest.0@, shortest.1 as int),
        -(UNIT_EXPONENT as int) <= shortest.1 <= TOP_EXPONENT,
{
    let mut top = Natural::from_small(1);
    scale_by_ten(&mut top, TOP_EXPONENT as u128);
    scale_to_units(&mut top);
    assert(top@ == top_units()) by {
        assert(1 * ten_to(TOP_EXPONENT as nat) == ten_to(TOP_EXPONENT as nat));
    }
    let mut digits = Natural::from_small(0);
    let mut rest = natural_units(code);
    let mut exponent: i128 = TOP_EXPONENT;
    let bottom: i128 = -(UNIT_EXPONENT as i128);
    proof {
        lemma_search_starts(code as nat);
    }
    loop
        invariant
            0 < code < INFINITY_CODE,
            top@ == top_units(),
            bottom == -(UNIT_EXPONENT as int),
            bottom < exponent <= TOP_EXPONENT,
            search_state(code as nat, digits@, rest@, exponent as int),
            forall|e: int| e >= exponent ==> !#[trigger] has_decimal(code as nat, e),
        decreases exponent - bottom,
    {
        let ghost before = exponent as int;
        let ghost old_digits = digits@;
        let ghost old_rest = rest@;
        exponent -= 1;
        digits.mul_add(10, 0);
        rest.mul_add(10, 0);
        let ghost scaled = rounding::units(code as nat) * ten_to(
            (TOP_EXPONENT - exponent) as nat,
        );
        proof {
            let u = rounding::units(code as nat);
            let t = ten_to((TOP_EXPONENT - before) as nat);
            assert(u * (10 * t) == (u * t) * 10) by (nonlinear_arith);
            assert((old_digits * top@ + old_rest) * 10 == (old_digits * 10) * top@ + old_rest * 10)
                by (nonlinear_arith);
            assert(scaled == digits@ * top@ + rest@);
        }
        while !rest.is_below(&top)
            invariant
                top@ == top_units(),
                top@ > 0,
                scaled == digits@ * top@ + rest@,
            decreases rest@,
        {
            rest.subtract(&top);
            let ghost d = digits@;
            digits.mul_add(1, 1);
            assert((d * 1 + 1) * top@ == d * top@ + top@) by (nonlinear_arith);
        }
        let ghost n = code as nat;
        assert(search_state(n, digits@, rest@, exponent as int));
        let mut twice = rest.copy();
        twice.mul_add(2, 0);
        let nearer_below: bool = twice.is_below(&top);
        let none_below: bool = digits.is_zero();
        proof {
            lemma_search_brackets(n, digits@, rest@, exponent as int);
            lemma_decimal_zero(exponent as int);
            if exponent == bottom {
                lemma_search_ends(n, digits@, rest@);
            }
        }
        if none_below && nearer_below {
            proof {
                lemma_search_skips(n, rest@, exponent as int);
            }
        } else {
            let below: bool = !none_below && round_decimal(&digits, exponent) == code;
            let mut following = digits.copy();
            following.mul_add(1, 1);
            let above: bool = round_decimal(&following, exponent) == code;
            if below && (nearer_below || !above) {
                proof {
                    lemma_search_succeeds(n, digits@, rest@, exponent as int, digits@);
                }
                return (digits, exponent);
            }
            if above {
                proof {
                    lemma_search_succeeds(n, digits@, rest@, exponent as int, following@);
                }
                return (following, exponent);
            }
            proof {
                lemma_search_fails(n, digits@, rest@, exponent as int);
            }
        }
    }
}

/// Appends zeros.
fn push_zeros(s: &mut String, count: u128)
    ensures
        final(s)@ == old(s)@ + zeros(count as nat),
{
    let ghost before = s@;
    let mut i: u128 = 0;
    assert(before + zeros(0) == before);
    while i < count
        invariant
            i <= count,
            s@ == before + zeros(i as nat),
        decreases count - i,
    {
        text::push_digit(s, 0);
        i += 1;
        assert((before + zeros((i - 1) as nat)).push('0') == before + zeros(i as nat));
    }
}

/// The decimal digits of a natural number, the last one first.
fn reversed_digits(n: &Natural) -> (digits: Vec<u32>)
    ensures
        digits@.len() == decimal_digits(n@).len(),
        digits@.len() > 0,
        forall|i: int|
            0 <= i < digits@.len() ==> (#[trigger] digits@[i]) < 10 && decimal_digits(
                n@,
            )[digits@.len() - 1 - i] == text::digit_char(digits@[i] as nat),
{
    let mut digits: Vec<u32> = Vec::new();
    let mut left = n.copy();
    let ten = Natural::from_small(10);
    let ghost all = decimal_digits(n@);
    while !left.is_below(&ten)
        invariant
            ten@ == 10,
            all.len() == decimal_digits(left@).len() + digits@.len(),
            decimal_digits(left@) == all.take(decimal_digits(left@).len() as int),
            forall|i: int|
                0 <= i < digits@.len() ==> (#[trigger] digits@[i]) < 10 && all[all.len() - 1 - i]
                    == text::digit_char(digits@[i] as nat),
        decreases left@,
    {
        let ghost before = left@;
        let ghost row = decimal_digits(before);
        let digit: u32 = left.divide(10);
        assert(left@ == before / 10 && digit == before % 10);
        assert(row == decimal_digits(left@).push(text::digit_char(digit as nat)));
        assert(row.len() == decimal_digits(left@).len() + 1);
        assert(all[row.len() - 1] == row[row.len() - 1]);
        assert(decimal_digits(left@) == all.take(row.len() - 1)) by {
            assert(row == all.take(row.len() as int));
            assert(decimal_digits(left@) =~= row.take(row.len() - 1));
            assert(row.take(row.len() - 1) =~= all.take(row.len() - 1));
        }
        let ghost old_digits = digits@;
        digits.push(digit);
        assert forall|i: int| 0 <= i < digits@.len() implies (#[trigger] digits@[i]) < 10
            && all[all.len() - 1 - i] == text::digit_char(digits@[i] as nat) by {
            if i < old_digits.len() {
                assert(digits@[i] == old_digits[i]);
            }
        }
    }
    let ghost last = left@;
    let digit: u32 = left.divide(10);
    assert(digit == last);
    assert(all[0] == decimal_digits(last)[0]);
    let ghost old_digits = digits@;
    digits.push(digit);
    assert forall|i: int| 0 <= i < digits@.len() implies (#[trigger] digits@[i]) < 10
        && all[all.len() - 1 - i] == text::digit_char(digits@[i] as nat) by {
        if i < old_digits.len() {
            assert(digits@[i] == old_digits[i]);
        }
    }
    digits
}

/// Appends a part of a row of digits that is stored with its last digit first.
fn push_row(s: &mut String, digits: &Vec<u32>, from: usize, to: usize, row: Ghost<Seq<char>>)
    requires
        from <= to <= digits@.len(),
        row@.len() == digits@.len(),
        forall|i: int|
            0 <= i < digits@.len() ==> (#[trigger] digits@[i]) < 10 && row@[digits@.len() - 1 - i]
                == text::digit_char(digits@[i] as nat),
    ensures
        final(s)@ == old(s)@ + row@.subrange(from as int, to as int),
{
    let ghost before = s@;
    let mut i: usize = from;
    let count: usize = digits.len();
    assert(before + row@.subrange(from as int, from as int) == before);
    while i < to
        invariant
            from <= i <= to <= digits@.len(),
            count == digits@.len(),
            row@.len() == digits@.len(),
            forall|i: int|
                0 <= i < digits@.len() ==> (#[trigger] digits@[i]) < 10 && row@[digits@.len() - 1
                    - i] == text::digit_char(digits@[i] as nat),
            s@ == before + row@.subrange(from as int, i as int),
        decreases to - i,
    {
        let digit: u32 = digits[count - 1 - i];
        assert(digits@[count - 1 - i] < 10);
        text::push_digit(s, digit);
        i += 1;
        assert((before + row@.subrange(from as int, i - 1)).push(row@[i - 1]) == before
            + row@.subrange(from as int, i as int));
    }
}

/// The text of a number: the shortest decimal number that rounds to it.
pub fn format_number(x: Binary64) -> (result: String)
    ensures
        result@ == number_text(x),
{
    let (negative, code) = x.parts();
    if code > INFINITY_CODE {
        return String::from_str("NaN");
    }
    let mut result = String::from_str(
        if negative {
            "-"
        } else {
            ""
        },
    );
    if code == INFINITY_CODE {
        result.append("inf");
        return result;
    }
    if code == 0 {
        result.append("0");
        return result;
    }
    let (digits, exponent) = find_shortest(code);
    let ghost sign = result@;
    let ghost row = decimal_digits(digits@);
    proof {
        let pair = shortest_decimal(code as nat);
        lemma_shortest_decimal_unique(
            code as nat,
            digits@,
            exponent as int,
            pair.0,
            pair.1,
        );
    }
    let reversed = reversed_digits(&digits);
    let count: usize = reversed.len();
    if exponent >= 0 {
        push_row(&mut result, &reversed, 0, count, Ghost(row));
        push_zeros(&mut result, exponent as u128);
        assert(row.subrange(0, count as int) == row);
        assert(result@ == sign + (row + zeros(exponent as nat)));
    } else if (count as i128) + exponent > 0 {
        let whole: usize = ((count as i128) + exponent) as usize;
        push_row(&mut result, &reversed, 0, whole, Ghost(row));
        result.append(".");
        push_row(&mut result, &reversed, whole, count, Ghost(row));
        assert(row.subrange(0, whole as int) == row.take(whole as int));
        assert(row.subrange(whole as int, count as int) == row.skip(whole as int));
        assert(result@ == sign + (row.take(whole as int) + "."@ + row.skip(whole as int)));
    } else {
        result.append("0.");
        push_zeros(&mut result, (-exponent - count as i128) as u128);
        push_row(&mut result, &reversed, 0, count, Ghost(row));
        assert(row.subrange(0, count as int) == row);
        assert(result@ == sign + ("0."@ + zeros((-exponent - count) as nat) + row));
    }
    result
}

/// The code of a decimal number in the range where one rounding of small integers
/// tells it: `digits * 2^up / 10^places` lies between 2^52 and 2^53.
pub(crate) proof fn lemma_decimal_constant(
    digits: nat,
    places: nat,
    up: nat,
    shift: nat,
    significand: nat,
)
    requires
        0 < places,
        up + shift == UNIT_EXPONENT,
        digits * pow2(up) >= ten_to(places) * rounding::BINADE,
        digits * pow2(up) < ten_to(places) * rounding::EXACT_CODES,
        rounding::round_half_even(digits * pow2(up), ten_to(places)) == significand,
        shift * rounding::BINADE + significand < INFINITY_CODE,
    ensures
        decimal_code(digits, -places) == shift * rounding::BINADE + significand,
{
    lemma_ten_to_positive(places);
    lemma_pow2_adds(up, shift);
    let den = ten_to(places);
    assert(digits * (pow2(up) * pow2(shift)) == (digits * pow2(up)) * pow2(shift))
        by (nonlinear_arith);
    rounding::lemma_nearest_lifts(digits * pow2(up), den, shift);
    rounding::lemma_nearest_upper_bound(digits * pow2(up), den);
}

} // verus!
