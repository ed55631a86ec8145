//! The bijective base-26 column codec.
//!
//! A zero-based column index is rendered as a non-empty string of
//! uppercase letters in the numeral system with digits `A`..=`Z` standing
//! for 1..=26 and no digit for zero, so every non-negative integer has
//! exactly one rendering: 0 is `A`, 25 is `Z`, 26 is `AA`, 701 is `ZZ`,
//! 702 is `AAA`, and so on.

use vstd::prelude::*;

use crate::chars::char_letter_val;
use crate::chars::is_letter;
use crate::chars::is_upper_letter;
use crate::chars::letter_char;
use crate::chars::letter_val;
use crate::chars::upper_of;
use crate::chars::upper_seq;
use crate::error::ParseError;

verus! {

/// Every character of `s` is an ASCII letter of either case.
pub open spec fn all_letters(s: Seq<char>) -> bool {
    forall|i: int| 0 <= i < s.len() ==> is_letter(#[trigger] s[i])
}

/// Every character of `s` is an uppercase ASCII letter.
pub open spec fn all_upper_letters(s: Seq<char>) -> bool {
    forall|i: int| 0 <= i < s.len() ==> is_upper_letter(#[trigger] s[i])
}

/// `s` is a well-formed column rendering: at least one letter, any case.
pub open spec fn letters_format_ok(s: Seq<char>) -> bool {
    s.len() >= 1 && all_letters(s)
}

/// The canonical uppercase rendering of the zero-based column index `n`
/// in the bijective base-26 system.
pub open spec fn col_letters(n: nat) -> Seq<char>
    decreases n,
{
    if n < 26 {
        seq![letter_char(n as int)]
    } else {
        col_letters((n / 26 - 1) as nat).push(letter_char((n % 26) as int))
    }
}

/// The one-based value of a letter sequence read as a bijective base-26
/// numeral, case-insensitively: each letter is a digit 1..=26, so `"A"`
/// is 1, `"Z"` is 26, `"AA"` is 27.  The empty sequence has value 0.
pub open spec fn letters_one_val(s: Seq<char>) -> int
    decreases s.len(),
{
    if s.len() == 0 {
        0
    } else {
        letters_one_val(s.drop_last()) * 26 + letter_val(s.last()) + 1
    }
}

/// The zero-based column index encoded by a letter sequence: the
/// one-based bijective value, minus one.
pub open spec fn letters_value(s: Seq<char>) -> int {
    letters_one_val(s) - 1
}

/// A single bijective base-26 numeral: a zero-based value together with
/// its canonical uppercase rendering.
#[derive(Debug, PartialEq)]
pub struct AlphaNumber {
    /// The zero-based value the letters encode.
    pub number: u32,
    /// The canonical uppercase rendering of `number`.
    pub letters: String,
}

impl AlphaNumber {
    /// The letters are exactly the canonical rendering of the number.
    pub open spec fn wf(self) -> bool {
        self.letters@ == col_letters(self.number as nat)
    }
}

impl Clone for AlphaNumber {
    /// Duplicates a numeral, keeping value and letters.
    fn clone(&self) -> (r: Self)
        ensures
            r.number == self.number,
            r.letters@ == self.letters@,
    {
        AlphaNumber { number: self.number, letters: self.letters.clone() }
    }
}

/// The one-based value of a non-empty all-letter sequence is at least 1,
/// and of any all-letter sequence at least 0.
pub proof fn lemma_letters_one_val_nonneg(s: Seq<char>)
    requires
        all_letters(s),
    ensures
        letters_one_val(s) >= 0,
        s.len() >= 1 ==> letters_one_val(s) >= 1,
    decreases s.len(),
{
    if s.len() > 0 {
        assert(all_letters(s.drop_last())) by {
            assert(forall|i: int|
                0 <= i < s.len() - 1 ==> #[trigger] s.drop_last()[i] == s[i]);
        }
        lemma_letters_one_val_nonneg(s.drop_last());
        assert(is_letter(s.last()));
        assert(letter_val(s.last()) >= 0);
    }
}

/// Extending an all-letter sequence on the right never decreases its
/// one-based value: the value of a prefix bounds the value of the whole.
pub proof fn lemma_letters_one_val_prefix_le(s: Seq<char>, i: int)
    requires
        all_letters(s),
        0 <= i <= s.len(),
    ensures
        letters_one_val(s.take(i)) <= letters_one_val(s),
    decreases s.len() - i,
{
    if i < s.len() {
        lemma_letters_one_val_prefix_le(s, i + 1);
        let t = s.take(i + 1);
        assert(t.drop_last() =~= s.take(i));
        assert(all_letters(s.take(i))) by {
            assert(forall|j: int|
                0 <= j < i ==> #[trigger] s.take(i)[j] == s[j]);
        }
        lemma_letters_one_val_nonneg(s.take(i));
        assert(t.last() == s[i]);
        assert(is_letter(s[i]));
        assert(letters_one_val(t) == letters_one_val(s.take(i)) * 26 + letter_val(s[i]) + 1);
        assert(letters_one_val(s.take(i)) * 26 >= letters_one_val(s.take(i))) by (nonlinear_arith)
            requires letters_one_val(s.take(i)) >= 0;
    } else {
        assert(s.take(i) =~= s);
    }
}

/// The canonical rendering is never empty and consists of uppercase
/// letters only.
pub proof fn lemma_col_letters_shape(n: nat)
    ensures
        col_letters(n).len() >= 1,
        all_upper_letters(col_letters(n)),
    decreases n,
{
    if n < 26 {
        assert(is_upper_letter(letter_char(n as int)));
        assert(forall|i: int| 0 <= i < 1 ==> is_upper_letter(#[trigger] col_letters(n)[i]));
    } else {
        let m = (n / 26 - 1) as nat;
        lemma_col_letters_shape(m);
        assert(0 <= n % 26 < 26);
        assert(is_upper_letter(letter_char((n % 26) as int)));
        assert(forall|i: int|
            0 <= i < col_letters(n).len() ==> is_upper_letter(#[trigger] col_letters(n)[i]));
    }
}

/// Decoding the canonical rendering gives back the value: the one-based
/// value of `col_letters(n)` is exactly `n + 1`.
pub proof fn lemma_col_letters_value(n: nat)
    ensures
        letters_value(col_letters(n)) == n,
    decreases n,
{
    assert(letters_one_val(Seq::<char>::empty()) == 0);
    if n < 26 {
        assert(letter_val(letter_char(n as int)) == n);
        assert(col_letters(n).drop_last() =~= Seq::<char>::empty());
    } else {
        let m = (n / 26 - 1) as nat;
        lemma_col_letters_value(m);
        let s = col_letters(n);
        assert(s.drop_last() =~= col_letters(m));
        assert(s.last() == letter_char((n % 26) as int));
        assert(letter_val(letter_char((n % 26) as int)) == n % 26);
        assert(letters_one_val(s) == (m + 1) * 26 + n % 26 + 1);
        assert((n / 26) * 26 + n % 26 == n) by {
            vstd::arithmetic::div_mod::lemma_fundamental_div_mod(n as int, 26);
        }
        assert((m + 1) * 26 == (n / 26) * 26);
    }
}

/// Encoding the decoded value gives back the letters: a non-empty
/// uppercase letter sequence is the canonical rendering of the value it
/// encodes.  Renderings are unique.
pub proof fn lemma_col_letters_of_value(s: Seq<char>)
    requires
        s.len() >= 1,
        all_upper_letters(s),
    ensures
        letters_one_val(s) >= 1,
        col_letters((letters_one_val(s) - 1) as nat) == s,
    decreases s.len(),
{
    assert(all_letters(s));
    lemma_letters_one_val_nonneg(s);
    let n = letters_one_val(s) - 1;
    if s.len() == 1 {
        assert(s.drop_last() =~= Seq::<char>::empty());
        assert(letters_one_val(Seq::<char>::empty()) == 0);
        assert(n == letter_val(s.last()));
        assert(is_upper_letter(s.last()));
        assert(0 <= n < 26);
        assert(letter_char(n) == s.last());
        assert(col_letters(n as nat) =~= s);
    } else {
        let p = s.drop_last();
        assert(all_upper_letters(p)) by {
            assert(forall|i: int| 0 <= i < p.len() ==> #[trigger] p[i] == s[i]);
        }
        lemma_col_letters_of_value(p);
        let a = letters_one_val(p);
        let b = letter_val(s.last());
        assert(is_upper_letter(s.last()));
        assert(0 <= b < 26);
        assert(n == a * 26 + b);
        assert(a >= 1);
        assert(n >= 26) by (nonlinear_arith)
            requires n == a * 26 + b, a >= 1, b >= 0;
        assert(n / 26 == a && n % 26 == b) by {
            vstd::arithmetic::div_mod::lemma_fundamental_div_mod_converse(n, 26, a, b);
        }
        assert(col_letters(n as nat) == col_letters((a - 1) as nat).push(letter_char(b)));
        assert(letter_char(b) == s.last());
        assert(col_letters((a - 1) as nat).push(s.last()) =~= s);
    }
}

/// The letter value is blind to case, so the encoded value of a sequence
/// equals that of its uppercased form, and upper-casing keeps the
/// all-letter shape.
pub proof fn lemma_letters_value_upper(s: Seq<char>)
    ensures
        all_letters(upper_seq(s)) == all_letters(s),
        letters_one_val(upper_seq(s)) == letters_one_val(s),
        upper_seq(s).len() == s.len(),
    decreases s.len(),
{
    let u = upper_seq(s);
    assert(u.len() == s.len());
    assert(forall|i: int| 0 <= i < s.len() ==> #[trigger] u[i] == upper_of(s[i]));
    if all_letters(s) {
        assert forall|i: int| 0 <= i < u.len() implies is_letter(#[trigger] u[i]) by {
            crate::chars::lemma_upper_of_letter(s[i]);
        }
    }
    if all_letters(u) {
        assert forall|i: int| 0 <= i < s.len() implies is_letter(#[trigger] s[i]) by {
            crate::chars::lemma_upper_of_letter(s[i]);
            assert(is_letter(u[i]));
        }
    }
    if s.len() > 0 {
        lemma_letters_value_upper(s.drop_last());
        assert(u.drop_last() =~= upper_seq(s.drop_last()));
        assert(u.last() == upper_of(s.last()));
        crate::chars::lemma_upper_of_letter(s.last());
    } else {
        assert(u =~= s);
    }
}

/// Returns the one-character string holding the uppercase letter at
/// alphabet position `d`.
fn letter_str(d: u32) -> (r: &'static str)
    requires
        d < 26,
    ensures
        r@ =~= seq![letter_char(d as int)],
{
    let table = "ABCDEFGHIJKLMNOPQRSTUVWXYZ";
    proof {
        reveal_strlit("ABCDEFGHIJKLMNOPQRSTUVWXYZ");
    }
    let r = table.substring_ascii(d as usize, d as usize + 1);
    proof {
        assert(table@[d as int] == letter_char(d as int));
    }
    r
}

/// Appends the canonical rendering of the zero-based column index `x` to
/// `txt`, most significant letter first.
pub fn unpack_integer_to_chars(x: u32, txt: &mut String)
    ensures
        final(txt)@ == old(txt)@ + col_letters(x as nat),
    decreases x,
{
    if x < 26 {
        txt.append(letter_str(x));
        proof {
            assert(txt@ =~= old(txt)@ + col_letters(x as nat));
        }
    } else {
        unpack_integer_to_chars(x / 26 - 1, txt);
        txt.append(letter_str(x % 26));
        proof {
            assert(txt@ =~= old(txt)@ + col_letters(x as nat));
        }
    }
}

impl AlphaNumber {
    /// Encodes a zero-based value into its canonical uppercase letters.
    /// Total: every `u32` has a rendering.
    pub fn from(x: u32) -> (r: AlphaNumber)
        ensures
            r.number == x,
            r.letters@ == col_letters(x as nat),
            r.wf(),
    {
        let mut letters = String::new();
        unpack_integer_to_chars(x, &mut letters);
        proof {
            assert(letters@ =~= col_letters(x as nat));
        }
        AlphaNumber { number: x, letters }
    }

    /// Decodes a letter string, case-insensitively, into its zero-based
    /// value; the stored letters are the uppercased input.
    ///
    /// Succeeds exactly on non-empty all-letter input whose value fits in
    /// a `u32`; an input of any other shape is `InvalidFormat`, and a
    /// well-formed input whose value is too large is `Overflow`.
    pub fn from_str(s: &str) -> (r: Result<AlphaNumber, ParseError>)
        ensures
            match r {
                Ok(a) => letters_format_ok(s@) && letters_value(s@) <= u32::MAX
                    && a.number == letters_value(s@)
                    && a.letters@ == upper_seq(s@)
                    && a.wf(),
                Err(ParseError::InvalidFormat) => !letters_format_ok(s@),
                Err(ParseError::Overflow) => letters_format_ok(s@)
                    && letters_value(s@) > u32::MAX,
            },
    {
        let n = s.unicode_len();
        if n == 0 {
            return Err(ParseError::InvalidFormat);
        }
        let mut up = String::new();
        let mut i: usize = 0;
        while i < n
            invariant
                n == s@.len(),
                0 <= i <= n,
                up@ == upper_seq(s@.take(i as int)),
                all_letters(s@.take(i as int)),
            decreases n - i,
        {
            let c = s.get_char(i);
            match char_letter_val(c) {
                None => {
                    proof {
                        assert(!is_letter(s@[i as int]));
                        assert(!all_letters(s@));
                    }
                    return Err(ParseError::InvalidFormat);
                },
                Some(v) => {
                    up.append(letter_str(v));
                    proof {
                        crate::chars::lemma_upper_of_letter(c);
                        assert(letter_char(v as int) == upper_of(c));
                        assert(s@.take(i + 1).drop_last() =~= s@.take(i as int));
                        assert(upper_seq(s@.take(i + 1)) =~= upper_seq(s@.take(i as int))
                            .push(upper_of(c)));
                        assert(up@ =~= upper_seq(s@.take(i + 1)));
                        assert(forall|j: int| 0 <= j < i + 1
                            ==> is_letter(#[trigger] s@.take(i + 1)[j]));
                    }
                },
            }
            i = i + 1;
        }
        proof {
            assert(s@.take(n as int) =~= s@);
        }
        // Second pass: accumulate the one-based value with an overflow
        // bound checked at every step.
        let bound: u64 = u32::MAX as u64 + 1;
        let mut acc: u64 = 0;
        i = 0;
        while i < n
            invariant
                n == s@.len(),
                0 <= i <= n,
                all_letters(s@),
                acc == letters_one_val(s@.take(i as int)),
                acc <= u32::MAX as u64 + 1,
                bound == u32::MAX as u64 + 1,
            decreases n - i,
        {
            let c = s.get_char(i);
            let v = match char_letter_val(c) {
                Some(v) => v,
                None => {
                    proof {
                        assert(is_letter(s@[i as int]));
                    }
                    return Err(ParseError::InvalidFormat);
                },
            };
            proof {
                assert(s@.take(i + 1).drop_last() =~= s@.take(i as int));
                assert(s@.take(i + 1).last() == s@[i as int]);
            }
            acc = acc * 26 + v as u64 + 1;
            i = i + 1;
            if acc > bound {
                proof {
                    lemma_letters_one_val_prefix_le(s@, i as int);
                    assert(letters_one_val(s@) >= letters_one_val(s@.take(i as int)));
                }
                return Err(ParseError::Overflow);
            }
        }
        proof {
            assert(s@.take(n as int) =~= s@);
            lemma_letters_one_val_nonneg(s@);
            lemma_letters_value_upper(s@);
            lemma_col_letters_of_value(upper_seq(s@));
        }
        let number = (acc - 1) as u32;
        Ok(AlphaNumber { number, letters: up })
    }
}

} // verus!
