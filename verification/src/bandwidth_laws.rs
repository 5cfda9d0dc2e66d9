//! What holds of bandwidth texts.
use vstd::arithmetic::power2::{lemma_pow2_adds, lemma_pow2_pos, pow2};
use vstd::prelude::*;

use crate::binary64;
use crate::binary64::{Binary64, UNIT_EXPONENT};
use crate::congestion_control;
use crate::decimal;
use crate::decimal_laws;
use crate::rounding;
use crate::rounding::{BINADE, EXACT_CODES, INFINITY_CODE};
use crate::text;

verus! {

/// The integer, held to the range of `u64`.
pub open spec fn held(n: nat) -> u64 {
    if n > u64::MAX {
        u64::MAX
    } else {
        n as u64
    }
}

/// A magnitude that is doubled several times still has a code.
proof fn lemma_doubled(code: nat, times: nat) -> (result: nat)
    ensures
        rounding::units(result) == rounding::units(code) * pow2(times),
    decreases times,
{
    if times == 0 {
        vstd::arithmetic::power2::lemma2_to64();
        let u = rounding::units(code);
        assert(u * pow2(0) == u) by (nonlinear_arith)
            requires
                pow2(0) == 1,
        ;
        code
    } else {
        let less = lemma_doubled(code, (times - 1) as nat);
        vstd::arithmetic::power2::lemma_pow2_unfold(times);
        let u = rounding::units(code);
        let p = pow2((times - 1) as nat);
        assert(u * (2 * p) == 2 * (u * p)) by (nonlinear_arith);
        if less < BINADE {
            assert(rounding::units(2 * less) == 2 * less);
            2 * less
        } else {
            assert(rounding::units(less + BINADE as nat) == 2 * rounding::units(less));
            less + BINADE as nat
        }
    }
}

/// A power of two is a number of its own.
proof fn lemma_power_of_two(j: nat)
    requires
        j <= 30,
    ensures
        ({
            let x = binary64::nearest_to_integer(pow2(j));
            x.is_finite() && !x.is_negative() && x.units() == pow2(j) * binary64::one_units()
        }),
{
    vstd::arithmetic::power2::lemma2_to64_rest();
    lemma_pow2_adds(j, UNIT_EXPONENT as nat);
    let shift = (j + UNIT_EXPONENT - 52) as nat;
    binary64::lemma_split_units(BINADE as nat, shift);
    lemma_pow2_adds(52, shift);
    let code = (shift * BINADE + BINADE) as nat;
    assert(code < INFINITY_CODE);
    rounding::lemma_nearest_exact(code, 1);
    assert(rounding::units(code) * 1 == rounding::units(code));
}

/// A suffix scales a number exactly: the bandwidth is the whole part of the number times
/// the factor, held to the range of `u64`.
pub proof fn law_suffix_scales_exactly(x: Binary64, j: nat)
    requires
        x.is_finite(),
        !x.is_negative(),
        j <= 30,
    ensures
        binary64::saturated_integer(binary64::product(x, binary64::nearest_to_integer(pow2(j))))
            == held((x.units() * pow2(j)) / binary64::one_units()),
{
    let one = binary64::one_units();
    let u = x.units();
    let p = pow2(j);
    lemma_pow2_pos(UNIT_EXPONENT as nat);
    lemma_power_of_two(j);
    assert(u * (p * one) == one * (u * p)) by (nonlinear_arith);
    assert(one * 1 == one);
    rounding::lemma_nearest_scales(u * p, 1, one);
    let code = lemma_doubled(x.code(), j);
    rounding::lemma_nearest_exact(code, 1);
    assert((u * p) * 1 == u * p);
    if code >= INFINITY_CODE {
        decimal::lemma_infinity_units();
        if code > INFINITY_CODE {
            rounding::lemma_units_increase(INFINITY_CODE as nat, code);
        }
        vstd::arithmetic::power2::lemma_pow2_strictly_increases(64, 1024);
        vstd::arithmetic::power2::lemma2_to64();
        rounding::lemma_split(u * p, one);
        let q = (u * p) / one;
        let r = (u * p) % one;
        assert(q > u64::MAX) by (nonlinear_arith)
            requires
                q * one + r >= pow2(1024) * one,
                r < one,
                pow2(1024) > 0xffff_ffff_ffff_ffff + 1,
        ;
    }
}

/// Whether the integer is a number of its own, so that rounding leaves it as it is.
pub open spec fn is_exact(n: nat) -> bool {
    let x = binary64::nearest_to_integer(n);
    x.is_finite() && x.units() == n * binary64::one_units()
}

/// Integers up to 2^53 are numbers of their own.
pub proof fn law_small_integers_are_exact(n: nat)
    requires
        n <= EXACT_CODES,
    ensures
        is_exact(n),
{
    if n < EXACT_CODES {
        crate::controller_laws::lemma_exact_multiple(n, UNIT_EXPONENT as nat);
    } else {
        let shift = (UNIT_EXPONENT + 1) as nat;
        vstd::arithmetic::power2::lemma_pow2_unfold(shift);
        let one = binary64::one_units();
        assert(BINADE * (2 * one) == n * one) by (nonlinear_arith)
            requires
                n == 2 * BINADE,
        ;
        crate::controller_laws::lemma_exact_multiple(BINADE as nat, shift);
    }
}

/// A whole number, written without an exponent.
proof fn lemma_whole_number(n: nat)
    requires
        n > 0,
    ensures
        ({
            let x = binary64::number(false, decimal::decimal_code(n, 0));
            x == binary64::nearest_to_integer(n) && !x.is_negative() && !x.is_nan() && x.code() > 0
        }),
{
    let one = binary64::one_units();
    assert(n * decimal::ten_to(0) * one == n * one) by (nonlinear_arith)
        requires
            decimal::ten_to(0) == 1,
    ;
    crate::controller_laws::lemma_one();
    crate::controller_laws::lemma_integers_ordered(1, n);
    assert(1 * one == one);
}

/// The bandwidth of a whole number is held to the range of `u64` where that is less.
proof fn lemma_whole_scaled(n: nat, j: nat)
    requires
        n > 0,
        is_exact(n) || n > u64::MAX,
        j <= 30,
    ensures
        binary64::saturated_integer(
            binary64::product(
                binary64::nearest_to_integer(n),
                binary64::nearest_to_integer(pow2(j)),
            ),
        ) == held(n * pow2(j)),
{
    let one = binary64::one_units();
    let x = binary64::nearest_to_integer(n);
    let p = pow2(j);
    lemma_pow2_pos(UNIT_EXPONENT as nat);
    lemma_pow2_pos(j);
    lemma_whole_number(n);
    if is_exact(n) {
        law_suffix_scales_exactly(x, j);
        assert((n * one) * p == (n * p) * one) by (nonlinear_arith);
        rounding::lemma_quotient((n * p) * one, one, n * p, 0);
    } else {
        // Rounding does not bring the number below 2^64.
        let bound = 0x1_0000_0000_0000_0000nat;
        vstd::arithmetic::power2::lemma2_to64();
        lemma_pow2_adds(64, UNIT_EXPONENT as nat);
        crate::controller_laws::lemma_exact_multiple(1, (UNIT_EXPONENT + 64) as nat);
        assert(1 * pow2(1138) == pow2(1138));
        crate::controller_laws::lemma_integers_ordered(bound, n);
        crate::controller_laws::lemma_units_ordered(
            binary64::nearest_to_integer(bound).code(),
            x.code(),
        );
        assert(n * p > u64::MAX) by (nonlinear_arith)
            requires
                n > u64::MAX,
                p >= 1,
        ;
        lemma_power_of_two(j);
        if x.is_finite() {
            law_suffix_scales_exactly(x, j);
            let u = x.units();
            rounding::lemma_split(u * p, one);
            let q = (u * p) / one;
            let r = (u * p) % one;
            assert(q > u64::MAX) by (nonlinear_arith)
                requires
                    u * p == q * one + r,
                    r < one,
                    u >= 0x1_0000_0000_0000_0000 * one,
                    p >= 1,
            ;
        } else {
            let factor = binary64::nearest_to_integer(p);
            assert(p * one > 0) by (nonlinear_arith)
                requires
                    p >= 1,
                    one > 0,
            ;
            assert(!factor.is_zero());
        }
    }
}

/// Digits at both ends, or a letter behind them, leave nothing to trim.
proof fn lemma_nothing_to_trim(s: Seq<char>)
    requires
        s.len() > 0,
        !text::is_white_space(s[0]),
        !text::is_white_space(s.last()),
    ensures
        text::trimmed(s) == s,
{
}

/// The exponent of two that a suffix stands for.
pub open spec fn suffix_exponent(suffix: char) -> nat {
    if suffix == 'K' || suffix == 'k' {
        10
    } else if suffix == 'M' || suffix == 'm' {
        20
    } else {
        30
    }
}

/// Whether `c` is a bandwidth suffix.
pub open spec fn is_suffix(c: char) -> bool {
    c == 'K' || c == 'k' || c == 'M' || c == 'm' || c == 'G' || c == 'g'
}

/// Positive whole numbers that are numbers of their own (all up to 2^53 are) are read
/// exactly: as they are without a suffix, times 1024, 1024^2 or 1024^3 with one. Results
/// are held to the range of `u64`, as are those of all numbers beyond it.
pub proof fn law_whole_bandwidth(n: nat, suffix: char)
    requires
        n > 0,
        is_exact(n) || n > u64::MAX,
        is_suffix(suffix),
    ensures
        congestion_control::bandwidth(decimal::decimal_digits(n)) == Ok::<u64, Seq<char>>(held(n)),
        congestion_control::bandwidth(decimal::decimal_digits(n).push(suffix)) == Ok::<
            u64,
            Seq<char>,
        >(held(n * pow2(suffix_exponent(suffix)))),
{
    let s = decimal::decimal_digits(n);
    vstd::arithmetic::power2::lemma2_to64();
    decimal_laws::lemma_decimal_digits(n);
    assert(text::is_digit(s[0]) && text::is_digit(s.last()));
    decimal_laws::lemma_plain_decimal(s);
    decimal_laws::lemma_signed_number(s, n, 0);
    lemma_whole_number(n);
    lemma_nothing_to_trim(s);
    lemma_whole_scaled(n, 0);
    assert(n * 1 == n);
    let long = s.push(suffix);
    assert(long[0] == s[0] && long.last() == suffix && long.drop_last() == s);
    lemma_nothing_to_trim(long);
    lemma_whole_scaled(n, suffix_exponent(suffix));
}

/// What lies before the last character, trimmed at its start.
proof fn lemma_trim_keeps_end(s: Seq<char>, c: char)
    requires
        !text::is_white_space(c),
    ensures
        text::trimmed(s.push(c)).len() > 0,
        text::trimmed(s.push(c)).last() == c,
        text::trimmed(s.push(c)).drop_last() == text::trimmed_start(s),
    decreases s.len(),
{
    let long = s.push(c);
    if s.len() > 0 && text::is_white_space(s[0]) {
        lemma_trim_keeps_end(s.skip(1), c);
        assert(long[0] == s[0]);
        assert(long.skip(1) == s.skip(1).push(c));
    } else {
        if s.len() > 0 {
            assert(long[0] == s[0]);
        } else {
            assert(long[0] == c);
        }
        assert(text::trimmed_start(long) == long);
        assert(long.last() == c);
        assert(long.drop_last() == s);
    }
}

/// The case of the suffix does not matter.
pub proof fn law_suffix_case(s: Seq<char>)
    ensures
        congestion_control::bandwidth(s.push('K')) == congestion_control::bandwidth(s.push('k')),
        congestion_control::bandwidth(s.push('M')) == congestion_control::bandwidth(s.push('m')),
        congestion_control::bandwidth(s.push('G')) == congestion_control::bandwidth(s.push('g')),
{
    lemma_trim_keeps_end(s, 'K');
    lemma_trim_keeps_end(s, 'k');
    lemma_trim_keeps_end(s, 'M');
    lemma_trim_keeps_end(s, 'm');
    lemma_trim_keeps_end(s, 'G');
    lemma_trim_keeps_end(s, 'g');
}

/// Whether the text is white space all through.
pub open spec fn is_blank(s: Seq<char>) -> bool {
    forall|i: int| 0 <= i < s.len() ==> text::is_white_space(#[trigger] s[i])
}

proof fn lemma_blank_before(blank: Seq<char>, s: Seq<char>)
    requires
        is_blank(blank),
    ensures
        text::trimmed_start(blank + s) == text::trimmed_start(s),
    decreases blank.len(),
{
    if blank.len() == 0 {
        assert(blank + s == s);
    } else {
        let rest = blank.skip(1);
        assert forall|i: int| 0 <= i < rest.len() implies text::is_white_space(
            #[trigger] rest[i],
        ) by {
            assert(rest[i] == blank[i + 1]);
        }
        lemma_blank_before(rest, s);
        assert((blank + s)[0] == blank[0]);
        assert((blank + s).skip(1) == rest + s);
    }
}

proof fn lemma_blank_behind(s: Seq<char>, blank: Seq<char>)
    requires
        is_blank(blank),
    ensures
        text::trimmed_end(s + blank) == text::trimmed_end(s),
    decreases blank.len(),
{
    if blank.len() == 0 {
        assert(s + blank == s);
    } else {
        let rest = blank.drop_last();
        assert forall|i: int| 0 <= i < rest.len() implies text::is_white_space(
            #[trigger] rest[i],
        ) by {
            assert(rest[i] == blank[i]);
        }
        lemma_blank_behind(s, rest);
        assert((s + blank).last() == blank.last());
        assert(text::is_white_space(blank[blank.len() - 1]));
        assert((s + blank).drop_last() == s + rest);
    }
}

/// White space behind a text does not reach across its start.
proof fn lemma_blank_trims(s: Seq<char>, blank: Seq<char>)
    requires
        is_blank(blank),
    ensures
        text::trimmed(s + blank) == text::trimmed(s),
    decreases s.len(),
{
    if s.len() == 0 {
        assert(s + blank == blank);
        assert(blank + Seq::<char>::empty() == blank);
        lemma_blank_before(blank, Seq::empty());
        assert(text::trimmed(s + blank) == text::trimmed_end(Seq::<char>::empty()));
        assert(s == Seq::<char>::empty());
    } else if text::is_white_space(s[0]) {
        lemma_blank_trims(s.skip(1), blank);
        assert((s + blank)[0] == s[0]);
        assert((s + blank).skip(1) == s.skip(1) + blank);
    } else {
        assert((s + blank)[0] == s[0]);
        lemma_blank_behind(s, blank);
    }
}

/// White space around a text does not matter: the bandwidth is the same, and where there
/// is none without it there is none with it.
pub proof fn law_white_space_around(before: Seq<char>, s: Seq<char>, behind: Seq<char>)
    requires
        is_blank(before),
        is_blank(behind),
    ensures
        congestion_control::bandwidth(before + s + behind) is Ok <==> congestion_control::bandwidth(
            s,
        ) is Ok,
        congestion_control::bandwidth(s) matches Ok(bps) ==> congestion_control::bandwidth(
            before + s + behind,
        ) == Ok::<u64, Seq<char>>(bps),
{
    lemma_blank_trims(before + s, behind);
    lemma_blank_before(before, s);
}

/// A number that is 0 or below is never a bandwidth.
pub proof fn law_bandwidth_is_positive(s: Seq<char>)
    requires
        congestion_control::bandwidth(s) is Ok,
    ensures
        decimal::parsed_number(
            congestion_control::bandwidth_digits(text::trimmed(s)),
        ) matches Some(x) && !congestion_control::is_not_positive(x),
{
}

/// What a suffix multiplies by.
pub open spec fn suffix_factor(suffix: char) -> nat {
    if suffix == 'K' || suffix == 'k' {
        1024
    } else if suffix == 'M' || suffix == 'm' {
        1024 * 1024
    } else {
        1024 * 1024 * 1024
    }
}

/// A number text does not start with white space.
proof fn lemma_number_start(d: Seq<char>)
    requires
        decimal::parsed_number(d) is Some,
    ensures
        d.len() > 0,
        !text::is_white_space(d[0]),
{
    decimal_laws::law_number_texts(d);
    let body = decimal_laws::behind_sign(d);
    reveal_strlit("inf");
    reveal_strlit("infinity");
    reveal_strlit("nan");
    assert("inf"@[0] == 'i' && "infinity"@[0] == 'i' && "nan"@[0] == 'n');
    assert("inf"@.len() == 3 && "infinity"@.len() == 8 && "nan"@.len() == 3);
    if decimal_laws::is_decimal(body) {
        decimal_laws::lemma_decimal_start(body);
    } else {
        let lowered = text::ascii_lowered(body);
        assert(lowered.len() == body.len());
        assert(lowered[0] == text::ascii_lower(body[0]));
    }
}

/// A suffix multiplies every number in front of it, whole or not, by 1024, 1024^2 or 1024^3:
/// the bandwidth is the whole part of the product, held to the range of `u64`. Without a
/// suffix it is the whole part of the number. Numbers that are 0 or below are refused.
pub proof fn law_suffix_scales_every_number(d: Seq<char>, x: Binary64, suffix: char)
    requires
        decimal::parsed_number(d) == Some(x),
        is_suffix(suffix),
    ensures
        x.is_finite() && !x.is_negative() && !x.is_zero() ==> {
            &&& congestion_control::bandwidth(d.push(suffix)) == Ok::<u64, Seq<char>>(
                held((x.units() * suffix_factor(suffix)) / binary64::one_units()),
            )
            &&& '0' <= d.last() <= '9' ==> congestion_control::bandwidth(d) == Ok::<u64, Seq<char>>(
                held(x.units() / binary64::one_units()),
            )
        },
        x.is_infinite() && !x.is_negative() ==> congestion_control::bandwidth(d.push(suffix))
            == Ok::<u64, Seq<char>>(u64::MAX),
        x.is_infinite() && !x.is_negative() && '0' <= d.last() <= '9'
            ==> congestion_control::bandwidth(d) == Ok::<u64, Seq<char>>(u64::MAX),
        x.is_nan() ==> congestion_control::bandwidth(d.push(suffix)) == Ok::<u64, Seq<char>>(0),
        !x.is_nan() && (x.is_negative() || x.is_zero()) ==> {
            let refused = Err::<u64, Seq<char>>(
                "bandwidth must be positive, got "@ + decimal::number_text(x),
            );
            &&& congestion_control::bandwidth(d.push(suffix)) == refused
            &&& '0' <= d.last() <= '9' ==> congestion_control::bandwidth(d) == refused
        },
{
    let long = d.push(suffix);
    let one = binary64::one_units();
    vstd::arithmetic::power2::lemma2_to64();
    lemma_pow2_pos(UNIT_EXPONENT as nat);
    lemma_number_start(d);
    assert(long[0] == d[0] && long.last() == suffix && long.drop_last() == d);
    lemma_nothing_to_trim(long);
    let j = suffix_exponent(suffix);
    assert(pow2(j) == suffix_factor(suffix));
    lemma_power_of_two(j);
    lemma_power_of_two(0);
    let factor = binary64::nearest_to_integer(pow2(j));
    assert(factor.units() > 0 && binary64::nearest_to_integer(1).units() > 0) by {
        assert(pow2(j) * one > 0 && 1 * one > 0) by (nonlinear_arith)
            requires
                pow2(j) >= 1,
                one > 0,
        ;
    }
    if '0' <= d.last() <= '9' {
        lemma_nothing_to_trim(d);
    }
    if x.is_finite() && !x.is_negative() {
        law_suffix_scales_exactly(x, j);
        law_suffix_scales_exactly(x, 0);
        assert(x.units() * 1 == x.units());
    }
}

/// What is no number in front of a suffix is refused with the text and the reason.
pub proof fn law_no_number(d: Seq<char>, suffix: char)
    requires
        decimal::parsed_number(d) is None,
        d.len() > 0 ==> !text::is_white_space(d[0]),
        is_suffix(suffix),
    ensures
        d.len() == 0 ==> congestion_control::bandwidth(d.push(suffix)) == Err::<u64, Seq<char>>(
            "invalid bandwidth number \""@ + d + "\": "@ + "cannot parse float from empty string"@,
        ),
        d.len() > 0 ==> congestion_control::bandwidth(d.push(suffix)) == Err::<u64, Seq<char>>(
            "invalid bandwidth number \""@ + d + "\": "@ + "invalid float literal"@,
        ),
        d.len() > 0 && '0' <= d.last() <= '9' ==> congestion_control::bandwidth(d) == Err::<
            u64,
            Seq<char>,
        >("invalid bandwidth number \""@ + d + "\": "@ + "invalid float literal"@),
{
    let long = d.push(suffix);
    if d.len() > 0 {
        assert(long[0] == d[0]);
    } else {
        assert(long[0] == suffix);
    }
    assert(long.last() == suffix && long.drop_last() == d);
    lemma_nothing_to_trim(long);
    if d.len() > 0 && '0' <= d.last() <= '9' {
        lemma_nothing_to_trim(d);
    }
}

/// A text that ends, but for white space, in neither a suffix nor a digit is refused and
/// shown as it was given; a blank text is refused as empty.
pub proof fn law_no_suffix(before: Seq<char>, s: Seq<char>, behind: Seq<char>)
    requires
        is_blank(before),
        is_blank(behind),
        s.len() > 0,
        !text::is_white_space(s[0]),
        !text::is_white_space(s.last()),
        !is_suffix(s.last()),
        !('0' <= s.last() <= '9'),
    ensures
        congestion_control::bandwidth(before + s + behind) == Err::<u64, Seq<char>>(
            "invalid bandwidth suffix in: "@ + (before + s + behind),
        ),
        congestion_control::bandwidth(before) == Err::<u64, Seq<char>>("empty bandwidth string"@),
{
    lemma_blank_trims(before + s, behind);
    lemma_blank_before(before, s);
    lemma_nothing_to_trim(s);
    assert(before + Seq::<char>::empty() == before);
    lemma_blank_before(before, Seq::empty());
    assert(text::trimmed(before) == text::trimmed_end(text::trimmed_start(Seq::<char>::empty())));
}

/// White space around a text that ends in a suffix or a digit changes nothing at all.
pub proof fn law_white_space_is_dropped(before: Seq<char>, s: Seq<char>, behind: Seq<char>)
    requires
        is_blank(before),
        is_blank(behind),
        s.len() > 0,
        is_suffix(s.last()) || '0' <= s.last() <= '9',
    ensures
        congestion_control::bandwidth(before + s + behind) == congestion_control::bandwidth(s),
{
    lemma_blank_trims(before + s, behind);
    lemma_blank_before(before, s);
    let rest = s.drop_last();
    assert(rest.push(s.last()) == s);
    lemma_trim_keeps_end(rest, s.last());
}

/// The white space of Unicode.
pub proof fn law_white_space(c: char)
    ensures
        text::is_white_space(c) <==> {
            let n = c as u32;
            ||| 0x9 <= n <= 0xd
            ||| n == 0x20
            ||| n == 0x85
            ||| n == 0xa0
            ||| n == 0x1680
            ||| 0x2000 <= n <= 0x200a
            ||| n == 0x2028
            ||| n == 0x2029
            ||| n == 0x202f
            ||| n == 0x205f
            ||| n == 0x3000
        },
{
}

} // verus!
