//! Character-level vocabulary: letter and digit classification, letter
//! values in the bijective base-26 alphabet, decimal digit values, and
//! ASCII upper-casing.

use vstd::prelude::*;

verus! {

/// `c` is an uppercase ASCII letter `A`..=`Z`.
pub open spec fn is_upper_letter(c: char) -> bool {
    'A' <= c && c <= 'Z'
}

/// `c` is a lowercase ASCII letter `a`..=`z`.
pub open spec fn is_lower_letter(c: char) -> bool {
    'a' <= c && c <= 'z'
}

/// `c` is an ASCII letter of either case.
pub open spec fn is_letter(c: char) -> bool {
    is_upper_letter(c) || is_lower_letter(c)
}

/// `c` is an ASCII decimal digit `0`..=`9`.
pub open spec fn is_digit_char(c: char) -> bool {
    '0' <= c && c <= '9'
}

/// The alphabet position of a letter of either case: `A`/`a` is 0, `Z`/`z` is 25.
pub open spec fn letter_val(c: char) -> int {
    if is_lower_letter(c) {
        c as int - 'a' as int
    } else {
        c as int - 'A' as int
    }
}

/// The numeric value of a decimal digit character.
pub open spec fn digit_val(c: char) -> int {
    c as int - '0' as int
}

/// The uppercase letter at alphabet position `i` (0 is `A`, 25 is `Z`).
pub open spec fn letter_char(i: int) -> char {
    ((('A' as int) + i) as char)
}

/// The digit character for value `i` (0 is `0`, 9 is `9`).
pub open spec fn digit_char(i: int) -> char {
    ((('0' as int) + i) as char)
}

/// ASCII upper-casing of one character: lowercase letters are shifted to
/// their uppercase form, every other character is left unchanged.
pub open spec fn upper_of(c: char) -> char {
    if is_lower_letter(c) {
        letter_char(letter_val(c))
    } else {
        c
    }
}

/// ASCII upper-casing of a character sequence, pointwise.
pub open spec fn upper_seq(s: Seq<char>) -> Seq<char> {
    s.map_values(|c: char| upper_of(c))
}

/// Upper-casing a character twice is the same as doing it once.
pub proof fn lemma_upper_of_idempotent(c: char)
    ensures
        upper_of(upper_of(c)) == upper_of(c),
{
}

/// Upper-casing keeps letters letters, with the same alphabet position,
/// and leaves non-letters (in particular digits) unchanged.
pub proof fn lemma_upper_of_letter(c: char)
    ensures
        is_letter(c) ==> is_upper_letter(upper_of(c)) && letter_val(upper_of(c)) == letter_val(c),
        !is_letter(c) ==> upper_of(c) == c,
{
}

/// Upper-cases one character, executably.
pub fn to_upper_char(c: char) -> (r: char)
    ensures
        r == upper_of(c),
{
    if 'a' <= c && c <= 'z' {
        (((c as u32) - 32) as u8) as char
    } else {
        c
    }
}

/// The alphabet position of `c` if it is a letter of either case.
pub fn char_letter_val(c: char) -> (r: Option<u32>)
    ensures
        match r {
            Some(v) => is_letter(c) && v == letter_val(c),
            None => !is_letter(c),
        },
{
    if 'A' <= c && c <= 'Z' {
        Some((c as u32) - 65)
    } else if 'a' <= c && c <= 'z' {
        Some((c as u32) - 97)
    } else {
        None
    }
}

/// The numeric value of `c` if it is a decimal digit.
pub fn char_digit_val(c: char) -> (r: Option<u32>)
    ensures
        match r {
            Some(v) => is_digit_char(c) && v == digit_val(c),
            None => !is_digit_char(c),
        },
{
    if '0' <= c && c <= '9' {
        Some((c as u32) - 48)
    } else {
        None
    }
}

} // verus!
