//! Characters and strings.
use vstd::prelude::*;

verus! {

/// Whether Unicode counts `c` as white space.
pub open spec fn is_white_space(c: char) -> bool {
    ||| '\u{9}' <= c <= '\u{d}'
    ||| c == '\u{20}'
    ||| c == '\u{85}'
    ||| c == '\u{a0}'
    ||| c == '\u{1680}'
    ||| '\u{2000}' <= c <= '\u{200a}'
    ||| c == '\u{2028}'
    ||| c == '\u{2029}'
    ||| c == '\u{202f}'
    ||| c == '\u{205f}'
    ||| c == '\u{3000}'
}

/// The text from its first character that is not white space.
pub open spec fn trimmed_start(s: Seq<char>) -> Seq<char>
    decreases s.len(),
{
    if s.len() > 0 && is_white_space(s[0]) {
        trimmed_start(s.skip(1))
    } else {
        s
    }
}

/// The text up to its last character that is not white space.
pub open spec fn trimmed_end(s: Seq<char>) -> Seq<char>
    decreases s.len(),
{
    if s.len() > 0 && is_white_space(s.last()) {
        trimmed_end(s.drop_last())
    } else {
        s
    }
}

/// The text without the white space at both ends.
pub open spec fn trimmed(s: Seq<char>) -> Seq<char> {
    trimmed_end(trimmed_start(s))
}

/// The lower-case form of an ASCII letter; any other character as it is.
pub open spec fn ascii_lower(c: char) -> char {
    if 'A' <= c <= 'Z' {
        ((c as u32 + 32) as u32) as char
    } else {
        c
    }
}

/// The text with its ASCII letters in lower case.
pub open spec fn ascii_lowered(s: Seq<char>) -> Seq<char> {
    s.map_values(|c: char| ascii_lower(c))
}

/// Whether `c` is one of the digits 0 to 9.
pub open spec fn is_digit(c: char) -> bool {
    '0' <= c <= '9'
}

fn white_space(c: char) -> (result: bool)
    ensures
        result == is_white_space(c),
{
    ('\u{9}' <= c && c <= '\u{d}') || c == '\u{20}' || c == '\u{85}' || c == '\u{a0}' || c
        == '\u{1680}' || ('\u{2000}' <= c && c <= '\u{200a}') || c == '\u{2028}' || c
        == '\u{2029}' || c == '\u{202f}' || c == '\u{205f}' || c == '\u{3000}'
}

/// The lower-case form of an ASCII letter; any other character as it is.
pub(crate) fn lower(c: char) -> (result: char)
    ensures
        result == ascii_lower(c),
{
    if 'A' <= c && c <= 'Z' {
        (c as u8 + 32) as char
    } else {
        c
    }
}

/// The characters of a string.
pub(crate) fn characters(s: &str) -> (chars: Vec<char>)
    ensures
        chars@ == s@,
{
    let mut chars: Vec<char> = Vec::new();
    for c in it: s.chars()
        invariant
            it.seq() == s@,
            chars@ == it.seq().take(it.index()),
    {
        chars.push(c);
    }
    chars
}

/// The string without the white space at both ends.
pub(crate) fn trim(s: &str) -> (result: &str)
    ensures
        result@ == trimmed(s@),
{
    let chars = characters(s);
    let count: usize = chars.len();
    let mut from: usize = 0;
    assert(s@.skip(0) == s@);
    while from < count && white_space(chars[from])
        invariant
            from <= count,
            chars@ == s@,
            count == s@.len(),
            trimmed_start(s@) == trimmed_start(s@.skip(from as int)),
        decreases count - from,
    {
        assert(s@.skip(from as int).skip(1) == s@.skip(from + 1));
        from += 1;
    }
    let mut to: usize = count;
    assert(s@.subrange(from as int, count as int) == s@.skip(from as int));
    while from < to && white_space(chars[to - 1])
        invariant
            from <= to <= count,
            chars@ == s@,
            count == s@.len(),
            trimmed(s@) == trimmed_end(s@.subrange(from as int, to as int)),
        decreases to - from,
    {
        assert(s@.subrange(from as int, to as int).drop_last() == s@.subrange(
            from as int,
            to - 1,
        ));
        to -= 1;
    }
    s.substring_char(from, to)
}

/// The character of a decimal digit.
pub open spec fn digit_char(digit: nat) -> char {
    ((48 + digit) as u32) as char
}

/// Appends a decimal digit.
pub(crate) fn push_digit(s: &mut String, digit: u32)
    requires
        digit < 10,
    ensures
        final(s)@ == old(s)@.push(digit_char(digit as nat)),
{
    let ghost before = s@;
    proof {
        reveal_strlit("0");
        reveal_strlit("1");
        reveal_strlit("2");
        reveal_strlit("3");
        reveal_strlit("4");
        reveal_strlit("5");
        reveal_strlit("6");
        reveal_strlit("7");
        reveal_strlit("8");
        reveal_strlit("9");
    }
    let piece: &str = if digit == 0 {
        "0"
    } else if digit == 1 {
        "1"
    } else if digit == 2 {
        "2"
    } else if digit == 3 {
        "3"
    } else if digit == 4 {
        "4"
    } else if digit == 5 {
        "5"
    } else if digit == 6 {
        "6"
    } else if digit == 7 {
        "7"
    } else if digit == 8 {
        "8"
    } else {
        "9"
    };
    assert(piece@ == seq![digit_char(digit as nat)]);
    s.append(piece);
    assert(s@ == before.push(digit_char(digit as nat)));
}

/// What `str::to_lowercase` returns.
pub uninterp spec fn lowercase(s: Seq<char>) -> Seq<char>;

/// Calls `str::to_lowercase`: the lower-case form of a string, which depends on the string
/// alone. Of a string of ASCII characters it is the string with the letters A to Z
/// replaced by a to z.
#[verifier::external_body]
pub(crate) fn to_lowercase(s: &str) -> (result: String)
    ensures
        result@ == lowercase(s@),
        vstd::utf8::is_ascii_chars(s@) ==> result@ == ascii_lowered(s@),
{
    s.to_lowercase()
}

/// What `{:?}` shows of a string.
pub uninterp spec fn debug_text(s: Seq<char>) -> Seq<char>;

/// Whether `c` is an ASCII letter or digit.
pub open spec fn is_ascii_alphanumeric(c: char) -> bool {
    'a' <= c <= 'z' || 'A' <= c <= 'Z' || is_digit(c)
}

/// Whether the text holds ASCII letters and digits only.
pub open spec fn is_plain(s: Seq<char>) -> bool {
    forall|i: int| 0 <= i < s.len() ==> is_ascii_alphanumeric(#[trigger] s[i])
}

/// Formats a string with `{:?}`: the string in double quotes, with escapes where
/// characters need them, which depends on the string alone. ASCII letters and digits
/// need none.
#[verifier::external_body]
pub(crate) fn quoted(s: &str) -> (result: String)
    ensures
        result@ == debug_text(s@),
        is_plain(s@) ==> result@ == "\""@ + s@ + "\""@,
{
    format!("{:?}", s)
}

/// Whether two strings are the same.
pub(crate) fn same(a: &str, b: &str) -> (result: bool)
    ensures
        result == (a@ == b@),
{
    let x = characters(a);
    let y = characters(b);
    if x.len() != y.len() {
        return false;
    }
    let mut i: usize = 0;
    while i < x.len()
        invariant
            i <= x@.len(),
            x@ == a@,
            y@ == b@,
            x@.len() == y@.len(),
            forall|j: int| 0 <= j < i ==> x@[j] == y@[j],
        decreases x@.len() - i,
    {
        if x[i] != y[i] {
            return false;
        }
        i += 1;
    }
    assert(a@ == b@);
    true
}

/// Whether the text is the given word but for the case of ASCII letters.
pub open spec fn is_word(s: Seq<char>, word: Seq<char>) -> bool {
    ascii_lowered(s) == word
}

/// Whether the text is the given word but for the case of ASCII letters.
pub(crate) fn equals_word(s: &[char], word: &str) -> (result: bool)
    ensures
        result == is_word(s@, word@),
{
    let letters = characters(word);
    let ghost lowered = ascii_lowered(s@);
    if s.len() != letters.len() {
        return false;
    }
    let mut i: usize = 0;
    while i < s.len()
        invariant
            i <= s@.len(),
            letters@ == word@,
            s@.len() == word@.len(),
            lowered == ascii_lowered(s@),
            forall|j: int| 0 <= j < i ==> lowered[j] == word@[j],
        decreases s@.len() - i,
    {
        assert(lowered[i as int] == ascii_lower(s@[i as int]));
        if lower(s[i]) != letters[i] {
            return false;
        }
        i += 1;
    }
    assert(lowered == word@);
    true
}

} // verus!
