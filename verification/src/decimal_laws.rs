//! What holds of decimal text: what is read as a number, and that numbers that are written
//! are read back.
use vstd::prelude::*;

use crate::binary64;
use crate::binary64::Binary64;
use crate::binary64_laws;
use crate::decimal;
use crate::text;

verus! {

proof fn lemma_position_none(s: Seq<char>, a: char, b: char)
    requires
        forall|i: int| 0 <= i < s.len() ==> s[i] != a && s[i] != b,
    ensures
        decimal::first_position(s, a, b) == s.len(),
    decreases s.len(),
{
    if s.len() > 0 {
        assert(s[0] != a && s[0] != b);
        lemma_position_none(s.skip(1), a, b);
    }
}

proof fn lemma_position_at(s: Seq<char>, k: int, a: char, b: char)
    requires
        0 <= k < s.len(),
        s[k] == a || s[k] == b,
        forall|i: int| 0 <= i < k ==> s[i] != a && s[i] != b,
    ensures
        decimal::first_position(s, a, b) == k,
    decreases s.len(),
{
    if k > 0 {
        assert(s[0] != a && s[0] != b);
        lemma_position_at(s.skip(1), k - 1, a, b);
    }
}

/// The digits of a number stand for it.
pub(crate) proof fn lemma_decimal_digits(n: nat)
    ensures
        decimal::decimal_digits(n).len() > 0,
        decimal::all_digits(decimal::decimal_digits(n)),
        decimal::digits_value(decimal::decimal_digits(n)) == n,
    decreases n,
{
    let row = decimal::decimal_digits(n);
    if n < 10 {
        assert(row.drop_last() == Seq::<char>::empty());
        assert(row.last() == text::digit_char(n));
        assert(decimal::digits_value(row.drop_last()) == 0);
    } else {
        let rest = decimal::decimal_digits(n / 10);
        lemma_decimal_digits(n / 10);
        assert(row == rest.push(text::digit_char(n % 10)));
        assert(row.drop_last() == rest);
        assert(row.last() == text::digit_char(n % 10));
        assert forall|i: int| 0 <= i < row.len() implies text::is_digit(#[trigger] row[i]) by {
            if i < rest.len() {
                assert(row[i] == rest[i]);
            }
        }
    }
}

/// Zeros behind a number multiply it by a power of ten.
proof fn lemma_trailing_zeros(digits: Seq<char>, count: nat)
    ensures
        decimal::digits_value(digits + decimal::zeros(count)) == decimal::digits_value(digits)
            * decimal::ten_to(count),
    decreases count,
{
    let s = digits + decimal::zeros(count);
    let v = decimal::digits_value(digits);
    if count == 0 {
        assert(s == digits);
        assert(v * decimal::ten_to(0) == v) by (nonlinear_arith)
            requires
                decimal::ten_to(0) == 1,
        ;
    } else {
        let less = (count - 1) as nat;
        lemma_trailing_zeros(digits, less);
        assert(s.drop_last() == digits + decimal::zeros(less));
        assert(s.last() == '0');
        let t = decimal::ten_to(less);
        assert((v * t) * 10 == v * (10 * t)) by (nonlinear_arith);
    }
}

/// A row of digits is a number without a scale.
pub(crate) proof fn lemma_plain_decimal(s: Seq<char>)
    requires
        s.len() > 0,
        decimal::all_digits(s),
    ensures
        decimal::parsed_decimal(s) == Some((decimal::digits_value(s), 0int)),
{
    assert forall|i: int| 0 <= i < s.len() implies s[i] != 'e' && s[i] != 'E' && s[i] != '.' by {
        assert(text::is_digit(s[i]));
    }
    lemma_position_none(s, 'e', 'E');
    assert(s.take(s.len() as int) == s);
    lemma_position_none(s, '.', '.');
    assert(s + Seq::<char>::empty() == s);
}

/// Digits behind a point scale a number down.
proof fn lemma_pointed_decimal(whole: Seq<char>, fraction: Seq<char>)
    requires
        whole.len() + fraction.len() > 0,
        decimal::all_digits(whole),
        decimal::all_digits(fraction),
    ensures
        decimal::parsed_decimal(whole + "."@ + fraction) == Some(
            (decimal::digits_value(whole + fraction), -(fraction.len() as int)),
        ),
{
    reveal_strlit(".");
    let s = whole + "."@ + fraction;
    let k = whole.len() as int;
    assert("."@.len() == 1 && "."@[0] == '.');
    assert forall|i: int| 0 <= i < s.len() implies s[i] != 'e' && s[i] != 'E' && (i != k ==> s[i]
        != '.') by {
        if i < k {
            assert(s[i] == whole[i]);
            assert(text::is_digit(whole[i]));
        } else if i > k {
            assert(s[i] == fraction[i - k - 1]);
            assert(text::is_digit(fraction[i - k - 1]));
        } else {
            assert(s[i] == '.');
        }
    }
    lemma_position_none(s, 'e', 'E');
    assert(s.take(s.len() as int) == s);
    assert(s[k] == '.');
    lemma_position_at(s, k, '.', '.');
    assert(s.take(k) == whole);
    assert(s.skip(k + 1) == fraction);
    let all = whole + fraction;
    assert forall|i: int| 0 <= i < all.len() implies text::is_digit(#[trigger] all[i]) by {
        if i < k {
            assert(all[i] == whole[i]);
        } else {
            assert(all[i] == fraction[i - k]);
        }
    }
}

/// A text that starts with a digit or a point is none of the words.
proof fn lemma_no_word(s: Seq<char>)
    requires
        s.len() > 0,
        text::is_digit(s[0]) || s[0] == '.',
    ensures
        !text::is_word(s, "inf"@),
        !text::is_word(s, "infinity"@),
        !text::is_word(s, "nan"@),
{
    reveal_strlit("inf");
    reveal_strlit("infinity");
    reveal_strlit("nan");
    assert("inf"@[0] == 'i' && "infinity"@[0] == 'i' && "nan"@[0] == 'n');
    assert(text::ascii_lowered(s)[0] == s[0]);
}

/// A number that starts with a digit or a point, alone and behind a minus.
pub(crate) proof fn lemma_signed_number(s: Seq<char>, digits: nat, exponent: int)
    requires
        s.len() > 0,
        text::is_digit(s[0]) || s[0] == '.',
        decimal::parsed_decimal(s) == Some((digits, exponent)),
    ensures
        decimal::parsed_number(s) == Some(
            binary64::number(false, decimal::decimal_code(digits, exponent)),
        ),
        decimal::parsed_number("-"@ + s) == Some(
            binary64::number(true, decimal::decimal_code(digits, exponent)),
        ),
{
    reveal_strlit("-");
    lemma_no_word(s);
    let signed = "-"@ + s;
    assert("-"@.len() == 1 && "-"@[0] == '-');
    assert(signed[0] == '-');
    assert(signed.skip(1) == s);
}

/// The text of a decimal number is read as that number.
proof fn lemma_decimal_text(digits: nat, exponent: int)
    ensures
        ({
            let s = decimal::decimal_text(digits, exponent);
            &&& s.len() > 0
            &&& text::is_digit(s[0])
            &&& decimal::parsed_decimal(s) matches Some((d, e)) && decimal::decimal_code(d, e)
                == decimal::decimal_code(digits, exponent)
        }),
{
    let row = decimal::decimal_digits(digits);
    let s = decimal::decimal_text(digits, exponent);
    lemma_decimal_digits(digits);
    assert(text::is_digit(row[0]));
    if exponent >= 0 {
        let count = exponent as nat;
        assert(s == row + decimal::zeros(count));
        assert forall|i: int| 0 <= i < s.len() implies text::is_digit(#[trigger] s[i]) by {
            if i < row.len() {
                assert(s[i] == row[i]);
            } else {
                assert(s[i] == '0');
            }
        }
        assert(s[0] == row[0]);
        lemma_plain_decimal(s);
        lemma_trailing_zeros(row, count);
        let scaled = digits * decimal::ten_to(count);
        let one = binary64::one_units();
        assert(scaled * decimal::ten_to(0) * one == scaled * one) by (nonlinear_arith)
            requires
                decimal::ten_to(0) == 1,
        ;
    } else if row.len() + exponent > 0 {
        let cut = row.len() + exponent;
        let whole = row.take(cut);
        let fraction = row.skip(cut);
        assert forall|i: int| 0 <= i < whole.len() implies text::is_digit(#[trigger] whole[i]) by {
            assert(whole[i] == row[i]);
        }
        assert forall|i: int| 0 <= i < fraction.len() implies text::is_digit(
            #[trigger] fraction[i],
        ) by {
            assert(fraction[i] == row[i + cut]);
        }
        lemma_pointed_decimal(whole, fraction);
        assert(whole + fraction == row);
        assert(s[0] == row[0]);
    } else {
        reveal_strlit("0.");
        reveal_strlit(".");
        let count = (-exponent - row.len()) as nat;
        let whole = seq!['0'];
        let fraction = decimal::zeros(count) + row;
        assert("0."@.len() == 2 && "0."@[0] == '0' && "0."@[1] == '.');
        assert("."@.len() == 1 && "."@[0] == '.');
        assert("0."@ == whole + "."@);
        assert(s == whole + "."@ + fraction);
        assert forall|i: int| 0 <= i < fraction.len() implies text::is_digit(
            #[trigger] fraction[i],
        ) by {
            if i < count {
                assert(fraction[i] == '0');
            } else {
                assert(fraction[i] == row[i - count]);
            }
        }
        lemma_pointed_decimal(whole, fraction);
        let all = whole + fraction;
        assert forall|i: int| 0 <= i < count + 1 implies all[i] == '0' by {
            if i > 0 {
                assert(all[i] == fraction[i - 1]);
            }
        }
        decimal::lemma_leading_zeros(all, count + 1);
        assert(all.skip((count + 1) as int) == row);
        assert(s[0] == '0');
    }
}

/// The text of a number is read as that number.
pub proof fn law_number_text_reads_back(x: Binary64)
    requires
        !x.is_nan(),
    ensures
        decimal::parsed_number(decimal::number_text(x)) == Some(x),
{
    reveal_strlit("");
    reveal_strlit("-");
    reveal_strlit("0");
    reveal_strlit("inf");
    assert(""@.len() == 0);
    assert("-"@.len() == 1 && "-"@[0] == '-');
    assert("inf"@.len() == 3 && "inf"@[0] == 'i' && "inf"@[1] == 'n' && "inf"@[2] == 'f');
    let s = decimal::number_text(x);
    if x.is_infinite() {
        assert(text::ascii_lowered("inf"@) =~= "inf"@);
        if x.is_negative() {
            assert(s.skip(1) == "inf"@);
            assert(s[0] == '-');
        } else {
            assert(s == "inf"@);
        }
    } else {
        let body = if x.is_zero() {
            "0"@
        } else {
            decimal::decimal_text(
                decimal::shortest_decimal(x.code()).0,
                decimal::shortest_decimal(x.code()).1,
            )
        };
        if x.is_zero() {
            assert("0"@.len() == 1 && "0"@[0] == '0');
            assert(decimal::all_digits("0"@));
            lemma_plain_decimal("0"@);
            assert("0"@.drop_last() == Seq::<char>::empty());
            assert(decimal::digits_value("0"@) == 0) by {
                reveal_with_fuel(decimal::digits_value, 2);
                assert("0"@.last() == '0');
            }
            decimal::lemma_decimal_zero(0);
            lemma_signed_number(body, 0, 0);
        } else {
            decimal::lemma_shortest_decimal_exists(x.code());
            let (digits, exponent) = decimal::shortest_decimal(x.code());
            lemma_decimal_text(digits, exponent);
            let (d, e) = decimal::parsed_decimal(body)->0;
            lemma_signed_number(body, d, e);
        }
        if x.is_negative() {
            assert(s == "-"@ + body);
        } else {
            assert(s == body);
        }
    }
}

/// A row of digits is read from left to right, ten times what is before for each digit, and
/// the digits of a number are such a row without zeros in front.
pub proof fn law_digits(row: Seq<char>, digit: char, n: nat)
    requires
        '0' <= digit <= '9',
    ensures
        decimal::digits_value(Seq::empty()) == 0,
        decimal::digits_value(row.push(digit)) == 10 * decimal::digits_value(row) + (digit as u32
            - '0' as u32),
        decimal::digits_value(decimal::decimal_digits(n)) == n,
        decimal::decimal_digits(n).len() > 0,
        forall|i: int|
            0 <= i < decimal::decimal_digits(n).len() ==> '0' <= (
            #[trigger] decimal::decimal_digits(n)[i]) <= '9',
        n > 0 ==> decimal::decimal_digits(n)[0] != '0',
    decreases n,
{
    assert(row.push(digit).drop_last() == row);
    lemma_decimal_digits(n);
    assert forall|i: int| 0 <= i < decimal::decimal_digits(n).len() implies '0' <= (
    #[trigger] decimal::decimal_digits(n)[i]) <= '9' by {
        assert(text::is_digit(decimal::decimal_digits(n)[i]));
    }
    if n >= 10 {
        law_digits(row, digit, n / 10);
        assert(decimal::decimal_digits(n)[0] == decimal::decimal_digits(n / 10)[0]);
    }
}

/// Powers of ten.
pub proof fn law_powers_of_ten(n: nat)
    ensures
        decimal::ten_to(0) == 1,
        decimal::ten_to(n + 1) == 10 * decimal::ten_to(n),
{
}

/// Whether all characters are digits.
pub open spec fn is_row(s: Seq<char>) -> bool {
    forall|i: int| 0 <= i < s.len() ==> '0' <= #[trigger] s[i] <= '9'
}

proof fn lemma_row(s: Seq<char>)
    ensures
        is_row(s) <==> decimal::all_digits(s),
{
    if is_row(s) {
        assert forall|i: int| 0 <= i < s.len() implies text::is_digit(#[trigger] s[i]) by {
            assert('0' <= s[i] <= '9');
        }
    }
    if decimal::all_digits(s) {
        assert forall|i: int| 0 <= i < s.len() implies '0' <= #[trigger] s[i] <= '9' by {
            assert(text::is_digit(s[i]));
        }
    }
}

/// Digits stand for themselves; digits behind a point scale down by ten each.
pub proof fn law_decimal_notation(whole: Seq<char>, fraction: Seq<char>)
    requires
        is_row(whole),
        is_row(fraction),
        whole.len() + fraction.len() > 0,
    ensures
        decimal::parsed_decimal(whole + fraction) == Some(
            (decimal::digits_value(whole + fraction), 0int),
        ),
        decimal::parsed_decimal(whole + seq!['.'] + fraction) == Some(
            (decimal::digits_value(whole + fraction), -(fraction.len() as int)),
        ),
{
    reveal_strlit(".");
    assert("."@ =~= seq!['.']);
    let all = whole + fraction;
    assert forall|i: int| 0 <= i < all.len() implies '0' <= #[trigger] all[i] <= '9' by {
        if i < whole.len() {
            assert(all[i] == whole[i]);
        } else {
            assert(all[i] == fraction[i - whole.len()]);
        }
    }
    lemma_row(whole);
    lemma_row(fraction);
    lemma_row(all);
    lemma_plain_decimal(all);
    lemma_pointed_decimal(whole, fraction);
}

/// The position lies where the spec says.
proof fn lemma_first_position(s: Seq<char>, a: char, b: char)
    ensures
        ({
            let k = decimal::first_position(s, a, b);
            &&& k <= s.len()
            &&& forall|i: int| 0 <= i < k ==> #[trigger] s[i] != a && s[i] != b
            &&& k < s.len() ==> s[k as int] == a || s[k as int] == b
        }),
    decreases s.len(),
{
    if s.len() > 0 && s[0] != a && s[0] != b {
        lemma_first_position(s.skip(1), a, b);
        let k = decimal::first_position(s, a, b);
        assert forall|i: int| 0 <= i < k implies #[trigger] s[i] != a && s[i] != b by {
            if i > 0 {
                assert(s.skip(1)[i - 1] == s[i]);
            }
        }
    }
}

/// Digits, with a sign in front or without.
pub open spec fn is_signed_row(s: Seq<char>) -> bool {
    s.len() > 0 && if s[0] == '+' || s[0] == '-' {
        s.len() > 1 && is_row(s.skip(1))
    } else {
        is_row(s)
    }
}

/// What a signed row of digits stands for.
pub open spec fn signed_value(s: Seq<char>) -> int {
    if s[0] == '-' {
        -decimal::digits_value(s.skip(1))
    } else if s[0] == '+' {
        decimal::digits_value(s.skip(1)) as int
    } else {
        decimal::digits_value(s) as int
    }
}

proof fn lemma_signed_row(s: Seq<char>)
    ensures
        decimal::parsed_integer(s) is Some <==> is_signed_row(s),
        is_signed_row(s) ==> decimal::parsed_integer(s) == Some(signed_value(s)),
{
    lemma_row(s);
    if s.len() > 0 {
        lemma_row(s.skip(1));
    }
}

/// An exponent behind `e` or `E` scales by a power of ten.
pub proof fn law_exponent_notation(
    mantissa: Seq<char>,
    digits: nat,
    scale: int,
    mark: char,
    exponent: Seq<char>,
)
    requires
        forall|i: int|
            0 <= i < mantissa.len() ==> #[trigger] mantissa[i] != 'e' && mantissa[i] != 'E',
        decimal::parsed_decimal(mantissa) == Some((digits, scale)),
        mark == 'e' || mark == 'E',
        is_signed_row(exponent),
    ensures
        decimal::parsed_decimal(mantissa + seq![mark] + exponent) == Some(
            (digits, scale + signed_value(exponent)),
        ),
{
    let s = mantissa + seq![mark] + exponent;
    let k = mantissa.len() as int;
    assert(s[k] == mark);
    assert forall|i: int| 0 <= i < k implies s[i] != 'e' && s[i] != 'E' by {
        assert(s[i] == mantissa[i]);
    }
    lemma_position_at(s, k, 'e', 'E');
    lemma_position_none(mantissa, 'e', 'E');
    assert(s.take(k) == mantissa);
    assert(mantissa.take(k) == mantissa);
    assert(s.skip(k + 1) == exponent);
    lemma_signed_row(exponent);
}

/// Whether the text is a row of digits with at most one point among them.
pub open spec fn is_mantissa(s: Seq<char>) -> bool {
    ||| s.len() > 0 && is_row(s)
    ||| exists|k: int|
        0 <= k < s.len() && #[trigger] s[k] == '.' && s.len() > 1 && is_row(s.take(k)) && is_row(
            s.skip(k + 1),
        )
}

/// Whether the text is a mantissa, alone or with an exponent behind `e` or `E`.
pub open spec fn is_decimal(s: Seq<char>) -> bool {
    ||| is_mantissa(s)
    ||| exists|k: int|
        0 <= k < s.len() && (#[trigger] s[k] == 'e' || s[k] == 'E') && is_mantissa(s.take(k))
            && is_signed_row(s.skip(k + 1))
}

/// A mantissa is read, and holds no `e`.
proof fn lemma_mantissa(s: Seq<char>)
    requires
        is_mantissa(s),
    ensures
        decimal::parsed_decimal(s) is Some,
        forall|i: int| 0 <= i < s.len() ==> #[trigger] s[i] != 'e' && s[i] != 'E',
{
    if s.len() > 0 && is_row(s) {
        assert(s + Seq::<char>::empty() == s);
        law_decimal_notation(s, Seq::empty());
    } else {
        let k = choose|k: int|
            0 <= k < s.len() && #[trigger] s[k] == '.' && s.len() > 1 && is_row(s.take(k))
                && is_row(s.skip(k + 1));
        let whole = s.take(k);
        let fraction = s.skip(k + 1);
        assert(s == whole + seq!['.'] + fraction);
        law_decimal_notation(whole, fraction);
        assert forall|i: int| 0 <= i < s.len() implies #[trigger] s[i] != 'e' && s[i] != 'E' by {
            if i < k {
                assert(s[i] == whole[i]);
            } else if i > k {
                assert(s[i] == fraction[i - k - 1]);
            }
        }
    }
}

/// Decimal numbers are read, and nothing else is read as one.
pub proof fn law_decimal_texts(s: Seq<char>)
    ensures
        decimal::parsed_decimal(s) is Some <==> is_decimal(s),
{
    if is_decimal(s) {
        if is_mantissa(s) {
            lemma_mantissa(s);
        } else {
            let k = choose|k: int|
                0 <= k < s.len() && (#[trigger] s[k] == 'e' || s[k] == 'E') && is_mantissa(
                    s.take(k),
                ) && is_signed_row(s.skip(k + 1));
            lemma_mantissa(s.take(k));
            assert(s == s.take(k) + seq![s[k]] + s.skip(k + 1));
            let (digits, scale) = decimal::parsed_decimal(s.take(k))->0;
            law_exponent_notation(s.take(k), digits, scale, s[k], s.skip(k + 1));
        }
    }
    if decimal::parsed_decimal(s) is Some {
        lemma_first_position(s, 'e', 'E');
        let mark = decimal::first_position(s, 'e', 'E') as int;
        let mantissa = s.take(mark);
        lemma_first_position(mantissa, '.', '.');
        let point = decimal::first_position(mantissa, '.', '.') as int;
        let whole = mantissa.take(point);
        let fraction = if point < mantissa.len() {
            mantissa.skip(point + 1)
        } else {
            Seq::empty()
        };
        let all = whole + fraction;
        lemma_row(all);
        assert forall|i: int| 0 <= i < whole.len() implies '0' <= #[trigger] whole[i] <= '9' by {
            assert(all[i] == whole[i]);
        }
        assert forall|i: int| 0 <= i < fraction.len() implies '0' <= #[trigger] fraction[i]
            <= '9' by {
            assert(all[i + whole.len()] == fraction[i]);
        }
        assert(is_mantissa(mantissa)) by {
            if point < mantissa.len() {
                assert(mantissa[point] == '.');
            } else {
                assert(whole == mantissa);
            }
        }
        if mark < s.len() {
            lemma_signed_row(s.skip(mark + 1));
            assert(s[mark] == 'e' || s[mark] == 'E');
        } else {
            assert(mantissa == s);
        }
    }
}

/// What a number text is behind its sign.
pub open spec fn behind_sign(s: Seq<char>) -> Seq<char> {
    if s.len() > 0 && (s[0] == '+' || s[0] == '-') {
        s.skip(1)
    } else {
        s
    }
}

/// Numbers are decimal numbers and the words `inf`, `infinity` and `nan` in any case, with a
/// sign in front or without; nothing else is. A minus makes them negative.
pub proof fn law_number_texts(s: Seq<char>)
    ensures
        decimal::parsed_number(s) is Some <==> {
            ||| is_decimal(behind_sign(s))
            ||| text::is_word(behind_sign(s), "inf"@)
            ||| text::is_word(behind_sign(s), "infinity"@)
            ||| text::is_word(behind_sign(s), "nan"@)
        },
        decimal::parsed_number(s) matches Some(x) ==> x.is_negative() == (s[0] == '-'),
        text::is_word(behind_sign(s), "inf"@) || text::is_word(behind_sign(s), "infinity"@) ==> {
            decimal::parsed_number(s) matches Some(x) && x.is_infinite()
        },
        text::is_word(behind_sign(s), "nan"@) ==> {
            decimal::parsed_number(s) matches Some(x) && x.is_nan()
        },
{
    reveal_strlit("inf");
    reveal_strlit("infinity");
    reveal_strlit("nan");
    assert("inf"@.len() == 3 && "infinity"@.len() == 8 && "nan"@.len() == 3);
    assert("inf"@[0] == 'i' && "nan"@[0] == 'n');
    law_decimal_texts(behind_sign(s));
    let b = behind_sign(s);
    if text::is_word(b, "nan"@) {
        assert(text::ascii_lowered(b)[0] == 'n');
        assert(text::ascii_lowered(b).len() == b.len());
    }
    assert(s.len() == 0 ==> text::ascii_lowered(s).len() == 0);
}

/// Whether `c` is the given character of a word, or its upper-case form.
pub open spec fn is_letter(c: char, letter: char) -> bool {
    if 'A' <= c <= 'Z' {
        'a' <= letter <= 'z' && letter as u32 - c as u32 == 32
    } else {
        c == letter
    }
}

/// Whether the text is the word, each letter in either case.
pub open spec fn spells(s: Seq<char>, word: Seq<char>) -> bool {
    s.len() == word.len() && forall|i: int|
        0 <= i < s.len() ==> is_letter(#[trigger] s[i], word[i])
}

/// A text is a word where each of its letters is that of the word, in either case.
pub proof fn law_words(s: Seq<char>, word: Seq<char>)
    ensures
        text::is_word(s, word) <==> spells(s, word),
{
    let lowered = text::ascii_lowered(s);
    assert(lowered.len() == s.len());
    if text::is_word(s, word) {
        assert forall|i: int| 0 <= i < s.len() implies is_letter(#[trigger] s[i], word[i]) by {
            assert(lowered[i] == text::ascii_lower(s[i]));
        }
    }
    if spells(s, word) {
        assert forall|i: int| 0 <= i < s.len() implies lowered[i] == word[i] by {
            assert(lowered[i] == text::ascii_lower(s[i]));
            assert(is_letter(s[i], word[i]));
        }
        assert(lowered =~= word);
    }
}

/// A decimal number becomes the number nearest to it, behind a sign as without one.
pub proof fn law_reading_is_nearest(s: Seq<char>, digits: nat, exponent: int)
    requires
        decimal::parsed_decimal(s) == Some((digits, exponent)),
    ensures
        decimal::parsed_number(s) matches Some(x) && !x.is_negative() && (exponent >= 0 ==>
            binary64_laws::is_nearest(
                x.code(),
                digits * decimal::ten_to(exponent as nat) * binary64::one_units(),
                1,
            )) && (exponent < 0 ==> binary64_laws::is_nearest(
            x.code(),
            digits * binary64::one_units(),
            decimal::ten_to((-exponent) as nat),
        )),
        decimal::parsed_number(seq!['+'] + s) == decimal::parsed_number(s),
        decimal::parsed_number(seq!['-'] + s) matches Some(y) && y.is_negative() && y.code()
            == decimal::parsed_number(s)->0.code(),
{
    law_decimal_texts(s);
    lemma_decimal_start(s);
    lemma_no_word(s);
    decimal::lemma_decimal_den_positive(exponent);
    binary64_laws::law_rounding_is_nearest(
        decimal::decimal_num(digits, exponent),
        decimal::decimal_den(exponent),
    );
    lemma_signed_number(s, digits, exponent);
    reveal_strlit("-");
    assert("-"@ =~= seq!['-']);
    let plus = seq!['+'] + s;
    assert(plus[0] == '+' && plus.skip(1) == s);
}

/// A decimal number starts with a digit or a point.
pub(crate) proof fn lemma_decimal_start(s: Seq<char>)
    requires
        is_decimal(s),
    ensures
        s.len() > 0,
        text::is_digit(s[0]) || s[0] == '.',
{
    let mantissa = if is_mantissa(s) {
        s
    } else {
        let k = choose|k: int|
            0 <= k < s.len() && (#[trigger] s[k] == 'e' || s[k] == 'E') && is_mantissa(s.take(k))
                && is_signed_row(s.skip(k + 1));
        s.take(k)
    };
    assert(mantissa.len() > 0 && mantissa[0] == s[0]);
    if !is_row(mantissa) {
        let k = choose|k: int|
            0 <= k < mantissa.len() && #[trigger] mantissa[k] == '.' && mantissa.len() > 1
                && is_row(mantissa.take(k)) && is_row(mantissa.skip(k + 1));
        if k > 0 {
            assert(mantissa.take(k)[0] == mantissa[0]);
        }
    }
}

/// A number is written by the decimal number with the fewest digits that is read as it: no
/// multiple of a greater power of ten is, no multiple of the same power is nearer or, where it
/// is equally near, greater, and its last digit is not 0.
pub proof fn law_number_text_is_shortest(x: Binary64, digits: nat, exponent: int)
    requires
        x.is_finite(),
        !x.is_zero(),
        digits > 0,
        decimal::decimal_code(digits, exponent) == x.code(),
    ensures
        ({
            let (d, e) = decimal::shortest_decimal(x.code());
            &&& !x.is_negative() ==> decimal::number_text(x) == decimal::decimal_text(d, e)
            &&& x.is_negative() ==> decimal::number_text(x) == seq!['-'] + decimal::decimal_text(
                d,
                e,
            )
            &&& d > 0
            &&& d % 10 != 0
            &&& decimal::decimal_code(d, e) == x.code()
            &&& exponent <= e
            &&& exponent == e ==> decimal::decimal_distance(x.code(), d, e)
                <= decimal::decimal_distance(x.code(), digits, exponent)
            &&& exponent == e && decimal::decimal_distance(x.code(), d, e)
                == decimal::decimal_distance(x.code(), digits, exponent) ==> digits <= d
        }),
{
    reveal_strlit("-");
    reveal_strlit("");
    assert("-"@ =~= seq!['-']);
    assert(""@ =~= Seq::<char>::empty());
    decimal::lemma_shortest_decimal_exists(x.code());
    let (d, e) = decimal::shortest_decimal(x.code());
    let t = decimal::decimal_text(d, e);
    assert(Seq::<char>::empty() + t =~= t);
    assert(decimal::has_decimal(x.code(), exponent));
    if d % 10 == 0 {
        lemma_same_decimal(d / 10, e);
        assert(decimal::has_decimal(x.code(), e + 1));
    }
}

/// Ten times the digits are the same number as one more in the exponent.
proof fn lemma_same_decimal(d: nat, e: int)
    ensures
        decimal::decimal_code(10 * d, e) == decimal::decimal_code(d, e + 1),
{
    let one = binary64::one_units();
    decimal::lemma_decimal_den_positive(e);
    decimal::lemma_decimal_den_positive(e + 1);
    if e >= 0 {
        let t = decimal::ten_to(e as nat);
        assert((10 * d) * t * one == d * (10 * t) * one) by (nonlinear_arith);
    } else {
        let t = decimal::decimal_den(e + 1);
        let n = (-e - 1) as nat;
        law_powers_of_ten(n);
        assert(n + 1 == (-e) as nat);
        assert(t == decimal::ten_to(n));
        assert(decimal::decimal_den(e) == 10 * t);
        if e + 1 == 0 {
            assert(d * decimal::ten_to(0) * one == d * one) by (nonlinear_arith)
                requires
                    decimal::ten_to(0) == 1,
            ;
        }
        assert((10 * d) * one == 10 * (d * one)) by (nonlinear_arith);
        crate::rounding::lemma_nearest_scales(d * one, t, 10);
    }
}

/// The layout of a decimal number: its digits, then zeros for a power of ten; or its digits
/// with a point among them; or a zero, a point, zeros and its digits.
pub proof fn law_decimal_layout(digits: nat, exponent: int)
    ensures
        ({
            let row = decimal::decimal_digits(digits);
            let s = decimal::decimal_text(digits, exponent);
            let cut = row.len() + exponent;
            &&& exponent >= 0 ==> s.len() == cut && forall|i: int|
                0 <= i < s.len() ==> #[trigger] s[i] == if i < row.len() {
                    row[i]
                } else {
                    '0'
                }
            &&& exponent < 0 < cut ==> s.len() == row.len() + 1 && forall|i: int|
                0 <= i < s.len() ==> #[trigger] s[i] == if i < cut {
                    row[i]
                } else if i == cut {
                    '.'
                } else {
                    row[i - 1]
                }
            &&& exponent < 0 && cut <= 0 ==> s.len() == 2 - exponent && forall|i: int|
                0 <= i < s.len() ==> #[trigger] s[i] == if i == 1 {
                    '.'
                } else if i < 2 - cut {
                    '0'
                } else {
                    row[i - 2 + cut]
                }
        }),
{
    reveal_strlit(".");
    reveal_strlit("0.");
    assert("."@ =~= seq!['.']);
    assert("0."@ =~= seq!['0', '.']);
}

/// The texts of zeros, infinities and NaN.
pub proof fn law_special_texts(x: Binary64)
    ensures
        x.is_nan() ==> decimal::number_text(x) == "NaN"@,
        x.is_infinite() && !x.is_negative() ==> decimal::number_text(x) == "inf"@,
        x.is_infinite() && x.is_negative() ==> decimal::number_text(x) == "-inf"@,
        x.is_zero() && !x.is_negative() ==> decimal::number_text(x) == "0"@,
        x.is_zero() && x.is_negative() ==> decimal::number_text(x) == "-0"@,
{
    reveal_strlit("");
    reveal_strlit("-");
    reveal_strlit("0");
    reveal_strlit("inf");
    reveal_strlit("-inf");
    reveal_strlit("-0");
    assert(""@ + "inf"@ =~= "inf"@);
    assert("-"@ + "inf"@ =~= "-inf"@);
    assert(""@ + "0"@ =~= "0"@);
    assert("-"@ + "0"@ =~= "-0"@);
}

} // verus!
