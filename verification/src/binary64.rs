//! IEEE 754 binary64 numbers.
use vstd::arithmetic::power2::{
    lemma2_to64, lemma2_to64_rest, lemma_pow2_adds, lemma_pow2_pos, lemma_pow2_strictly_increases,
    lemma_pow2_unfold, pow2,
};
use vstd::bits::{lemma_u64_shl_is_mul, lemma_u64_shr_is_div};
use vstd::prelude::*;

use crate::rounding;
use crate::rounding::{round_shifted, BINADE, EXACT_CODES, INFINITY_CODE};

verus! {

/// The sign bit.
pub const SIGN: u64 = 0x8000_0000_0000_0000;

/// The bits of the quiet NaN that the operations return.
pub const NAN_BITS: u64 = 0x7ff8_0000_0000_0000;

/// The bits of the number 1.
pub const ONE_BITS: u64 = 0x3ff0_0000_0000_0000;

/// The binary logarithm of the number of units in 1.
pub const UNIT_EXPONENT: u32 = 1074;

/// A binary64 number, held by its bits.
#[derive(Clone, Copy, Debug)]
pub struct Binary64 {
    pub bits: u64,
}

/// The number with the given sign and magnitude code.
pub open spec fn number(negative: bool, code: nat) -> Binary64 {
    Binary64 {
        bits: (if negative {
            SIGN + code
        } else {
            code as int
        }) as u64,
    }
}

/// The product of two numbers: exact, then rounded.
pub open spec fn product(x: Binary64, y: Binary64) -> Binary64 {
    let negative = x.is_negative() != y.is_negative();
    if x.is_nan() || y.is_nan() {
        Binary64 { bits: NAN_BITS }
    } else if x.is_infinite() || y.is_infinite() {
        if x.is_zero() || y.is_zero() {
            Binary64 { bits: NAN_BITS }
        } else {
            number(negative, INFINITY_CODE as nat)
        }
    } else {
        number(negative, rounding::nearest_code(x.units() * y.units(), one_units()))
    }
}

/// The quotient of two numbers: exact, then rounded.
pub open spec fn quotient(x: Binary64, y: Binary64) -> Binary64 {
    let negative = x.is_negative() != y.is_negative();
    if x.is_nan() || y.is_nan() {
        Binary64 { bits: NAN_BITS }
    } else if x.is_infinite() {
        if y.is_infinite() {
            Binary64 { bits: NAN_BITS }
        } else {
            number(negative, INFINITY_CODE as nat)
        }
    } else if y.is_infinite() {
        number(negative, 0)
    } else if y.is_zero() {
        if x.is_zero() {
            Binary64 { bits: NAN_BITS }
        } else {
            number(negative, INFINITY_CODE as nat)
        }
    } else {
        number(negative, rounding::nearest_code(x.units() * one_units(), y.units()))
    }
}

/// The sum of two numbers that are not negative: exact, then rounded.
pub open spec fn sum(x: Binary64, y: Binary64) -> Binary64 {
    if x.is_nan() || y.is_nan() {
        Binary64 { bits: NAN_BITS }
    } else if x.is_infinite() || y.is_infinite() {
        number(false, INFINITY_CODE as nat)
    } else {
        number(false, rounding::nearest_code(x.units() + y.units(), 1))
    }
}

/// The number nearest to the integer `n`.
pub open spec fn nearest_to_integer(n: nat) -> Binary64 {
    number(false, rounding::nearest_code(n * one_units(), 1))
}

/// The greater of two numbers; the other one where one is NaN.
pub open spec fn greater(x: Binary64, y: Binary64) -> Binary64 {
    if x.is_nan() {
        y
    } else if y.is_nan() {
        x
    } else if x.signed_code() < y.signed_code() {
        y
    } else {
        x
    }
}

/// The number cut to an integer and held to the range of `u64`; 0 for NaN.
pub open spec fn saturated_integer(x: Binary64) -> u64 {
    if x.is_nan() || x.is_negative() {
        0
    } else if x.is_infinite() || x.units() / one_units() > u64::MAX {
        u64::MAX
    } else {
        (x.units() / one_units()) as u64
    }
}

/// Whether two numbers are equal; NaN equals nothing, and both zeros are equal.
pub open spec fn equal_numbers(x: Binary64, y: Binary64) -> bool {
    !x.is_nan() && !y.is_nan() && x.signed_code() == y.signed_code()
}

/// The number of units in 1.
pub open spec fn one_units() -> nat {
    pow2(UNIT_EXPONENT as nat)
}

impl Binary64 {
    /// Whether the sign bit is set.
    pub open spec fn is_negative(self) -> bool {
        self.bits >= SIGN
    }

    /// The code of the magnitude.
    pub open spec fn code(self) -> nat {
        if self.is_negative() {
            (self.bits - SIGN) as nat
        } else {
            self.bits as nat
        }
    }

    pub open spec fn is_nan(self) -> bool {
        self.code() > INFINITY_CODE
    }

    pub open spec fn is_infinite(self) -> bool {
        self.code() == INFINITY_CODE
    }

    pub open spec fn is_finite(self) -> bool {
        self.code() < INFINITY_CODE
    }

    pub open spec fn is_zero(self) -> bool {
        self.code() == 0
    }

    /// The magnitude of a finite number, in units of 2^-1074.
    pub open spec fn units(self) -> nat {
        rounding::units(self.code())
    }

    /// An integer that orders the numbers other than NaN; both zeros have 0.
    pub open spec fn signed_code(self) -> int {
        if self.is_negative() {
            -self.code()
        } else {
            self.code() as int
        }
    }

    /// The number with the given bits.
    pub fn from_bits(bits: u64) -> (x: Binary64)
        ensures
            x.bits == bits,
    {
        Binary64 { bits }
    }

    /// The bits of the number.
    pub fn to_bits(self) -> (bits: u64)
        ensures
            bits == self.bits,
    {
        self.bits
    }

    /// The sign bit and the code of the magnitude.
    pub(crate) fn parts(self) -> (parts: (bool, u64))
        ensures
            parts.0 == self.is_negative(),
            parts.1 == self.code(),
            parts.1 < SIGN,
            number(parts.0, parts.1 as nat) == self,
    {
        if self.bits >= SIGN {
            (true, self.bits - SIGN)
        } else {
            (false, self.bits)
        }
    }

    /// The number with the given sign and magnitude code.
    pub(crate) fn assemble(negative: bool, code: u64) -> (x: Binary64)
        requires
            code < SIGN,
        ensures
            x == number(negative, code as nat),
            x.is_negative() == negative,
            x.code() == code,
    {
        if negative {
            Binary64 { bits: SIGN + code }
        } else {
            Binary64 { bits: code }
        }
    }

    /// The number nearest to `n`.
    pub fn from_integer(n: u128) -> (x: Binary64)
        requires
            n < 0x4000_0000_0000_0000_0000_0000_0000,
        ensures
            x == nearest_to_integer(n as nat),
            !x.is_negative(),
            x.is_finite(),
    {
        let code = round_shifted(n, 1, UNIT_EXPONENT as i32);
        proof {
            lemma_shifted(n as nat, 1, UNIT_EXPONENT as nat, 0);
            lemma2_to64();
            assert(1 * pow2(0) == 1);
            lemma_integer_is_finite(n as nat);
        }
        Binary64::assemble(false, code)
    }

    /// The product of two numbers.
    pub fn multiply(self, other: Binary64) -> (x: Binary64)
        ensures
            x == product(self, other),
    {
        let (negative_left, left) = self.parts();
        let (negative_right, right) = other.parts();
        let negative: bool = negative_left != negative_right;
        if left > INFINITY_CODE || right > INFINITY_CODE {
            return Binary64 { bits: NAN_BITS };
        }
        if left == INFINITY_CODE || right == INFINITY_CODE {
            if left == 0 || right == 0 {
                return Binary64 { bits: NAN_BITS };
            }
            return Binary64::assemble(negative, INFINITY_CODE);
        }
        let (a, s) = split(left);
        let (b, t) = split(right);
        proof {
            assert(a as u128 * b as u128 <= 0x1f_ffff_ffff_ffff * 0x1f_ffff_ffff_ffff)
                by (nonlinear_arith)
                requires
                    a <= 0x1f_ffff_ffff_ffff,
                    b <= 0x1f_ffff_ffff_ffff,
            ;
        }
        let exact: u128 = a as u128 * b as u128;
        let code = round_shifted(exact, 1, s as i32 + t as i32 - UNIT_EXPONENT as i32);
        proof {
            lemma_pow2_adds(s as nat, t as nat);
            let p = pow2(s as nat);
            let q = pow2(t as nat);
            assert((a * p) * (b * q) == (a * b) * (p * q)) by (nonlinear_arith);
            lemma_shifted(exact as nat, 1, (s + t) as nat, UNIT_EXPONENT as nat);
            assert(1 * one_units() == one_units());
        }
        Binary64::assemble(negative, code)
    }

    /// The quotient of two numbers.
    pub fn divide(self, other: Binary64) -> (x: Binary64)
        ensures
            x == quotient(self, other),
    {
        let (negative_left, left) = self.parts();
        let (negative_right, right) = other.parts();
        let negative: bool = negative_left != negative_right;
        if left > INFINITY_CODE || right > INFINITY_CODE {
            return Binary64 { bits: NAN_BITS };
        }
        if left == INFINITY_CODE {
            if right == INFINITY_CODE {
                return Binary64 { bits: NAN_BITS };
            }
            return Binary64::assemble(negative, INFINITY_CODE);
        }
        if right == INFINITY_CODE {
            return Binary64::assemble(negative, 0);
        }
        if right == 0 {
            if left == 0 {
                return Binary64 { bits: NAN_BITS };
            }
            return Binary64::assemble(negative, INFINITY_CODE);
        }
        let (a, s) = split(left);
        let (b, t) = split(right);
        proof {
            rounding::lemma_units_lower_bound(right as nat, 1);
            assert(b > 0) by (nonlinear_arith)
                requires
                    b * pow2(t as nat) >= 1,
            ;
        }
        let code = round_shifted(a as u128, b, s as i32 + UNIT_EXPONENT as i32 - t as i32);
        proof {
            let p = pow2(s as nat);
            let one = one_units();
            lemma_pow2_adds(s as nat, UNIT_EXPONENT as nat);
            assert((a * p) * one == a * (p * one)) by (nonlinear_arith);
            lemma_shifted(a as nat, b as nat, (s + UNIT_EXPONENT) as nat, t as nat);
        }
        Binary64::assemble(negative, code)
    }

    /// The sum of two numbers that are not negative.
    pub fn add(self, other: Binary64) -> (x: Binary64)
        requires
            !self.is_negative(),
            !other.is_negative(),
        ensures
            x == sum(self, other),
    {
        let (_, first) = self.parts();
        let (_, second) = other.parts();
        if first > INFINITY_CODE || second > INFINITY_CODE {
            return Binary64 { bits: NAN_BITS };
        }
        if first == INFINITY_CODE || second == INFINITY_CODE {
            return Binary64::assemble(false, INFINITY_CODE);
        }
        let code = if first < second {
            add_codes(second, first)
        } else {
            add_codes(first, second)
        };
        Binary64::assemble(false, code)
    }

    /// Whether the number is at most `other`; false where one is NaN.
    pub fn is_at_most(self, other: Binary64) -> (result: bool)
        ensures
            result == (!self.is_nan() && !other.is_nan() && self.signed_code()
                <= other.signed_code()),
    {
        let (negative_left, left) = self.parts();
        let (negative_right, right) = other.parts();
        if left > INFINITY_CODE || right > INFINITY_CODE {
            false
        } else if negative_left {
            if negative_right {
                left >= right
            } else {
                true
            }
        } else if negative_right {
            left == 0 && right == 0
        } else {
            left <= right
        }
    }

    /// Whether two numbers are equal; NaN equals nothing, and both zeros are equal.
    pub fn equals(self, other: Binary64) -> (result: bool)
        ensures
            result == equal_numbers(self, other),
    {
        self.is_at_most(other) && other.is_at_most(self)
    }

    /// The greater of two numbers; the other one where one is NaN.
    pub fn max(self, other: Binary64) -> (x: Binary64)
        ensures
            x == greater(self, other),
    {
        let (_, left) = self.parts();
        let (_, right) = other.parts();
        if left > INFINITY_CODE {
            other
        } else if right > INFINITY_CODE {
            self
        } else if other.is_at_most(self) {
            self
        } else {
            other
        }
    }

    /// The number cut to an integer and held to the range of `u64`; 0 for NaN.
    pub fn to_u64(self) -> (n: u64)
        ensures
            n == saturated_integer(self),
    {
        let (negative, code) = self.parts();
        if negative || code > INFINITY_CODE {
            return 0;
        }
        if code == INFINITY_CODE {
            return u64::MAX;
        }
        let (a, s) = split(code);
        let one: u32 = UNIT_EXPONENT;
        proof {
            lemma_pow2_pos(one as nat);
        }
        if s >= one {
            let k: u32 = s - one;
            proof {
                lemma_pow2_adds(k as nat, one as nat);
                let p = pow2(k as nat);
                let q = pow2(one as nat);
                assert(a * (p * q) == (a * p) * q) by (nonlinear_arith);
                rounding::lemma_quotient((a * pow2(s as nat)) as nat, q, (a * p) as nat, 0);
            }
            if k > 11 {
                proof {
                    lemma2_to64();
                    if k > 12 {
                        lemma_pow2_strictly_increases(12, k as nat);
                    }
                    assert(a * pow2(k as nat) > u64::MAX) by (nonlinear_arith)
                        requires
                            a >= 0x10_0000_0000_0000,
                            pow2(k as nat) >= 4096,
                    ;
                }
                u64::MAX
            } else {
                proof {
                    lemma2_to64();
                    if k < 11 {
                        lemma_pow2_strictly_increases(k as nat, 11);
                    }
                    assert(a * pow2(k as nat) <= u64::MAX) by (nonlinear_arith)
                        requires
                            a <= 0x1f_ffff_ffff_ffff,
                            pow2(k as nat) <= 2048,
                    ;
                    lemma_u64_shl_is_mul(a, k as u64);
                }
                a << (k as u64)
            }
        } else {
            let k: u32 = one - s;
            proof {
                lemma_pow2_adds(s as nat, k as nat);
                lemma_pow2_pos(s as nat);
                lemma_pow2_pos(k as nat);
                let p = pow2(s as nat);
                let q = pow2(k as nat);
                assert(a * p == p * a) by (nonlinear_arith);
                lemma_cancel(a as nat, p, q);
            }
            if k >= 64 {
                proof {
                    lemma2_to64();
                    if k > 64 {
                        lemma_pow2_strictly_increases(64, k as nat);
                    }
                    rounding::lemma_quotient(a as nat, pow2(k as nat), 0, a as nat);
                }
                0
            } else {
                proof {
                    lemma_u64_shr_is_div(a, k as u64);
                }
                a >> (k as u64)
            }
        }
    }
}

/// Common factors cancel out of a quotient.
proof fn lemma_cancel(a: nat, p: nat, q: nat)
    requires
        p > 0,
        q > 0,
    ensures
        (a * p) / (p * q) == a / q,
{
    rounding::lemma_split(a, q);
    let d = a / q;
    let r = a % q;
    assert(a * p == d * (p * q) + r * p) by (nonlinear_arith)
        requires
            a == d * q + r,
    ;
    assert(r * p < p * q) by (nonlinear_arith)
        requires
            r < q,
            p > 0,
    ;
    rounding::lemma_quotient(a * p, p * q, d, r * p);
}

/// Splits a code into a significand and the binary logarithm of its step.
pub(crate) fn split(code: u64) -> (parts: (u64, u32))
    requires
        code < INFINITY_CODE,
    ensures
        rounding::units(code as nat) == parts.0 * pow2(parts.1 as nat),
        code == parts.1 * BINADE + parts.0,
        parts.0 < EXACT_CODES,
        parts.1 > 0 ==> parts.0 >= BINADE,
        parts.1 <= 2045,
{
    let field: u64 = code / BINADE;
    let fraction: u64 = code % BINADE;
    if field == 0 {
        proof {
            lemma2_to64();
            lemma_split_units(fraction as nat, 0);
        }
        (fraction, 0)
    } else {
        let shift: u32 = (field - 1) as u32;
        let significand: u64 = fraction + BINADE;
        proof {
            lemma_split_units(significand as nat, shift as nat);
        }
        (significand, shift)
    }
}

/// The magnitude of a significand and a step.
pub(crate) proof fn lemma_split_units(significand: nat, shift: nat)
    requires
        significand < EXACT_CODES,
        shift > 0 ==> significand >= BINADE,
    ensures
        rounding::units((shift * BINADE + significand) as nat) == significand * pow2(shift),
    decreases shift,
{
    if shift == 0 {
        lemma2_to64();
        assert(significand * pow2(0) == significand) by (nonlinear_arith)
            requires
                pow2(0) == 1,
        ;
    } else {
        let less = (shift - 1) as nat;
        lemma_split_units(significand, less);
        lemma_pow2_unfold(shift);
        assert(significand * (2 * pow2(less)) == 2 * (significand * pow2(less)))
            by (nonlinear_arith);
    }
}

/// The two ways of writing a shifted ratio round alike.
pub(crate) proof fn lemma_shifted(num: nat, den: nat, up: nat, down: nat)
    requires
        den > 0,
    ensures
        rounding::nearest_code(num * pow2(up), den * pow2(down))
            == rounding::nearest_code_shifted(num, den, up - down),
{
    lemma_pow2_pos(up);
    lemma_pow2_pos(down);
    if up >= down {
        let k = (up - down) as nat;
        let p = pow2(down);
        lemma_pow2_adds(k, down);
        assert(num * pow2(up) == p * (num * pow2(k))) by (nonlinear_arith)
            requires
                pow2(up) == pow2(k) * p,
        ;
        assert(den * p == p * den) by (nonlinear_arith);
        rounding::lemma_nearest_scales(num * pow2(k), den, p);
    } else {
        let k = (down - up) as nat;
        let p = pow2(up);
        lemma_pow2_adds(k, up);
        lemma_pow2_pos(k);
        assert(den * pow2(down) == p * (den * pow2(k))) by (nonlinear_arith)
            requires
                pow2(down) == pow2(k) * p,
        ;
        assert(den * pow2(k) > 0) by (nonlinear_arith)
            requires
                den > 0,
                pow2(k) > 0,
        ;
        assert(num * p == p * num) by (nonlinear_arith);
        rounding::lemma_nearest_scales(num, den * pow2(k), p);
    }
}

/// Integers of this size lie far below the greatest finite number.
pub(crate) proof fn lemma_integer_is_finite(n: nat)
    requires
        n < 0x4000_0000_0000_0000_0000_0000_0000,
    ensures
        rounding::nearest_code(n * one_units(), 1) < INFINITY_CODE,
{
    // 2^110 has the code 1133 * 2^52.
    let code = (1132 * BINADE + BINADE) as nat;
    lemma_split_units(BINADE as nat, 1132);
    lemma2_to64_rest();
    lemma_pow2_adds(52, 1132);
    lemma_pow2_adds(55, 55);
    lemma_pow2_adds(110, 1074);
    let one = one_units();
    assert(rounding::units(code) == pow2(110) * one);
    assert((n * one) * 1 <= rounding::units(code) * 1) by (nonlinear_arith)
        requires
            n <= pow2(110),
            rounding::units(code) == pow2(110) * one,
    ;
    rounding::lemma_nearest_monotone(n * one, 1, rounding::units(code), 1);
    rounding::lemma_nearest_exact(code, 1);
    assert(rounding::units(code) * 1 == rounding::units(code));
}

/// The code of the sum of two magnitudes, the greater one first.
fn add_codes(first: u64, second: u64) -> (code: u64)
    requires
        second <= first < INFINITY_CODE,
    ensures
        code == rounding::nearest_code(
            rounding::units(first as nat) + rounding::units(second as nat),
            1,
        ),
{
    let (a, s) = split(first);
    let (b, t) = split(second);
    proof {
        assert(t <= s) by (nonlinear_arith)
            requires
                second <= first,
                first == s * BINADE + a,
                second == t * BINADE + b,
                a < 2 * BINADE,
                t > 0 ==> b >= BINADE,
                BINADE > 0,
        ;
    }
    let gap: u32 = s - t;
    let ghost p = pow2(t as nat);
    let ghost total = (rounding::units(first as nat) + rounding::units(
        second as nat,
    )) as nat;
    proof {
        lemma_pow2_adds(gap as nat, t as nat);
        lemma_pow2_pos(gap as nat);
        lemma_pow2_pos(t as nat);
    }
    if gap <= 55 {
        proof {
            lemma2_to64_rest();
            if gap < 55 {
                lemma_pow2_strictly_increases(gap as nat, 55);
            }
            assert(a as u128 * pow2(gap as nat) <= 0x1f_ffff_ffff_ffff * 0x80_0000_0000_0000)
                by (nonlinear_arith)
                requires
                    a <= 0x1f_ffff_ffff_ffff,
                    pow2(gap as nat) <= 0x80_0000_0000_0000,
            ;
            lemma_u64_shl_is_mul(1, gap as u64);
            assert(1 * pow2(gap as nat) == pow2(gap as nat));
        }
        let factor: u64 = 1u64 << (gap as u64);
        let exact: u128 = a as u128 * factor as u128 + b as u128;
        proof {
            let g = pow2(gap as nat);
            assert(exact * p == a * (g * p) + b * p) by (nonlinear_arith)
                requires
                    exact == a * g + b,
            ;
            lemma_shifted(exact as nat, 1, t as nat, 0);
            lemma2_to64();
            assert(1 * pow2(0) == 1);
        }
        round_shifted(exact, 1, t as i32)
    } else {
        proof {
            // The smaller magnitude is below a quarter of the step of the greater one.
            let step = pow2(s as nat);
            lemma2_to64_rest();
            lemma_pow2_strictly_increases(55, gap as nat);
            assert(2 * (b * p) < step) by (nonlinear_arith)
                requires
                    b < 0x20_0000_0000_0000,
                    step == pow2(gap as nat) * p,
                    pow2(gap as nat) >= 0x80_0000_0000_0000,
                    p > 0,
            ;
            lemma_absorbed(a as nat, s as nat, (b * p) as nat);
        }
        first
    }
}

/// A summand below half a step changes nothing.
pub(crate) proof fn lemma_absorbed(significand: nat, shift: nat, rest: nat)
    requires
        BINADE <= significand < EXACT_CODES,
        2 * rest < pow2(shift),
    ensures
        rounding::nearest_code_unbounded(significand * pow2(shift) + rest, 1) == shift
            * BINADE + significand,
{
    lemma_absorbed_from(significand, shift, rest, shift);
    lemma2_to64();
}

proof fn lemma_absorbed_from(significand: nat, shift: nat, rest: nat, left: nat)
    requires
        left <= shift,
        BINADE <= significand < EXACT_CODES,
        2 * rest < pow2(shift),
    ensures
        rounding::nearest_code_unbounded(
            significand * pow2(shift) + rest,
            pow2((shift - left) as nat),
        ) == left * BINADE + significand,
    decreases left,
{
    let den = pow2((shift - left) as nat);
    let num = significand * pow2(shift) + rest;
    lemma_pow2_pos((shift - left) as nat);
    if left == 0 {
        assert(num < den * EXACT_CODES) by (nonlinear_arith)
            requires
                num == significand * den + rest,
                rest < den,
                significand + 1 <= EXACT_CODES,
        ;
        rounding::lemma_quotient(num, den, significand, rest);
    } else {
        lemma_absorbed_from(significand, shift, rest, (left - 1) as nat);
        lemma_pow2_unfold((shift - left + 1) as nat);
        lemma_pow2_adds((shift - left) as nat, left);
        lemma_pow2_unfold(left);
        lemma_pow2_pos((left - 1) as nat);
        assert(significand * pow2(shift) >= den * EXACT_CODES) by (nonlinear_arith)
            requires
                pow2(shift) == den * pow2(left),
                pow2(left) >= 2,
                significand >= BINADE,
                EXACT_CODES == 2 * BINADE,
        ;
        assert((left - 1) * BINADE + BINADE == left * BINADE) by (nonlinear_arith);
    }
}

} // verus!
