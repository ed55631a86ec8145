//! Cell addresses and range traversal.
//!
//! An `ExcelIndex` pairs a zero-based `(column, row)` coordinate with its
//! textual label: the column letters from the codec followed by the
//! one-based row number in decimal.  An `ExcelIndexRange` walks addresses
//! either unboundedly along a row or inside an inclusive rectangle in
//! row-major order.

use vstd::prelude::*;

use crate::chars::digit_char;
use crate::chars::digit_val;
use crate::chars::is_digit_char;
use crate::chars::is_letter;
use crate::chars::is_upper_letter;
use crate::chars::upper_of;
use crate::chars::upper_seq;
use crate::chars::char_digit_val;
use crate::chars::char_letter_val;
use crate::error::ParseError;
use crate::helper::all_letters;
use crate::helper::all_upper_letters;
use crate::helper::col_letters;
use crate::helper::letters_value;
use crate::helper::AlphaNumber;

verus! {

/// Every character of `s` is an ASCII decimal digit.
pub open spec fn all_digits(s: Seq<char>) -> bool {
    forall|i: int| 0 <= i < s.len() ==> is_digit_char(#[trigger] s[i])
}

/// The decimal rendering of `n`, with no leading zero (a bare `0` for 0).
pub open spec fn dec_digits(n: nat) -> Seq<char>
    decreases n,
{
    if n < 10 {
        seq![digit_char(n as int)]
    } else {
        dec_digits(n / 10).push(digit_char((n % 10) as int))
    }
}

/// The numeric value of a digit sequence read in decimal; the empty
/// sequence has value 0.
pub open spec fn digits_value(s: Seq<char>) -> int
    decreases s.len(),
{
    if s.len() == 0 {
        0
    } else {
        digits_value(s.drop_last()) * 10 + digit_val(s.last())
    }
}

/// The number of leading ASCII letters (of either case) in `s`.
pub open spec fn letters_prefix_len(s: Seq<char>) -> int
    decreases s.len(),
{
    if s.len() == 0 {
        0
    } else if !is_letter(s[0]) {
        0
    } else {
        1 + letters_prefix_len(s.drop_first())
    }
}

/// `s` has the shape of a cell label: one or more letters, then one or
/// more digits, nothing else.
pub open spec fn label_format_ok(s: Seq<char>) -> bool {
    let l = letters_prefix_len(s);
    1 <= l && l < s.len() && all_digits(s.skip(l))
}

/// The canonical label of the zero-based coordinate `(x, y)`: the column
/// letters followed by the one-based row number in decimal.
pub open spec fn spec_label(x: nat, y: nat) -> Seq<char> {
    col_letters(x) + dec_digits(y + 1)
}

/// The leading-letter count is between 0 and the length, the prefix it
/// names consists of letters, and the first character past it (if any)
/// is not a letter.
pub proof fn lemma_letters_prefix_basic(s: Seq<char>)
    ensures
        0 <= letters_prefix_len(s) <= s.len(),
        all_letters(s.take(letters_prefix_len(s))),
        letters_prefix_len(s) < s.len() ==> !is_letter(s[letters_prefix_len(s)]),
    decreases s.len(),
{
    let l = letters_prefix_len(s);
    if s.len() == 0 {
        assert(s.take(0) =~= Seq::<char>::empty());
    } else if !is_letter(s[0]) {
        assert(s.take(0) =~= Seq::<char>::empty());
    } else {
        let t = s.drop_first();
        lemma_letters_prefix_basic(t);
        assert(forall|i: int| 0 <= i < t.len() ==> #[trigger] t[i] == s[i + 1]);
        let lt = letters_prefix_len(t);
        assert(l == 1 + lt);
        assert(s.take(l).drop_first() =~= t.take(lt));
        assert forall|i: int| 0 <= i < l implies is_letter(#[trigger] s.take(l)[i]) by {
            if i == 0 {
                assert(s.take(l)[0] == s[0]);
            } else {
                assert(s.take(l)[i] == t.take(lt)[i - 1]);
            }
        }
    }
}

/// In a sequence made of an all-letter block followed by anything that
/// does not start with a letter, the leading-letter count is exactly the
/// block's length.
pub proof fn lemma_letters_prefix_concat(a: Seq<char>, b: Seq<char>)
    requires
        all_letters(a),
        b.len() > 0 ==> !is_letter(b[0]),
    ensures
        letters_prefix_len(a + b) == a.len(),
    decreases a.len(),
{
    let s = a + b;
    if a.len() == 0 {
        assert(s =~= b);
        if b.len() > 0 {
            assert(!is_letter(s[0]));
        }
    } else {
        assert(s[0] == a[0]);
        assert(is_letter(s[0]));
        assert(s.drop_first() =~= a.drop_first() + b);
        assert(all_letters(a.drop_first())) by {
            assert(forall|i: int|
                0 <= i < a.len() - 1 ==> #[trigger] a.drop_first()[i] == a[i + 1]);
        }
        lemma_letters_prefix_concat(a.drop_first(), b);
    }
}

/// A digit-sequence value is never negative, and extending the sequence
/// on the right never decreases it.
pub proof fn lemma_digits_value_nonneg(s: Seq<char>)
    requires
        all_digits(s),
    ensures
        digits_value(s) >= 0,
    decreases s.len(),
{
    if s.len() > 0 {
        assert(all_digits(s.drop_last())) by {
            assert(forall|i: int|
                0 <= i < s.len() - 1 ==> #[trigger] s.drop_last()[i] == s[i]);
        }
        lemma_digits_value_nonneg(s.drop_last());
        assert(is_digit_char(s.last()));
        assert(digits_value(s.drop_last()) * 10 >= 0) by (nonlinear_arith)
            requires digits_value(s.drop_last()) >= 0;
    }
}

/// The value of a digit prefix bounds the value of the whole sequence.
pub proof fn lemma_digits_value_prefix_le(s: Seq<char>, l: int, i: int)
    requires
        all_digits(s.skip(l)),
        0 <= l <= i <= s.len(),
    ensures
        digits_value(s.subrange(l, i)) <= digits_value(s.skip(l)),
    decreases s.len() - i,
{
    if i < s.len() {
        lemma_digits_value_prefix_le(s, l, i + 1);
        let t = s.subrange(l, i + 1);
        assert(t.drop_last() =~= s.subrange(l, i));
        assert(t.last() == s[i]);
        assert(s[i] == s.skip(l)[i - l]);
        assert(is_digit_char(s[i]));
        assert(all_digits(s.subrange(l, i))) by {
            assert(forall|j: int|
                0 <= j < i - l ==> #[trigger] s.subrange(l, i)[j] == s.skip(l)[j]);
        }
        lemma_digits_value_nonneg(s.subrange(l, i));
        assert(digits_value(s.subrange(l, i)) * 10 >= digits_value(s.subrange(l, i)))
            by (nonlinear_arith)
            requires digits_value(s.subrange(l, i)) >= 0;
    } else {
        assert(s.subrange(l, i) =~= s.skip(l));
    }
}

/// The decimal rendering is non-empty, consists of digits, and reads
/// back to the value it renders.
pub proof fn lemma_dec_digits(n: nat)
    ensures
        dec_digits(n).len() >= 1,
        all_digits(dec_digits(n)),
        digits_value(dec_digits(n)) == n,
    decreases n,
{
    assert(digits_value(Seq::<char>::empty()) == 0);
    if n < 10 {
        assert(is_digit_char(digit_char(n as int)));
        assert(dec_digits(n).drop_last() =~= Seq::<char>::empty());
        assert(forall|i: int| 0 <= i < 1 ==> is_digit_char(#[trigger] dec_digits(n)[i]));
    } else {
        let m = n / 10;
        lemma_dec_digits(m);
        let s = dec_digits(n);
        assert(s.drop_last() =~= dec_digits(m));
        assert(s.last() == digit_char((n % 10) as int));
        assert(is_digit_char(digit_char((n % 10) as int)));
        assert(digit_val(digit_char((n % 10) as int)) == n % 10);
        assert((n / 10) * 10 + n % 10 == n) by {
            vstd::arithmetic::div_mod::lemma_fundamental_div_mod(n as int, 10);
        }
        assert(forall|i: int|
            0 <= i < s.len() ==> is_digit_char(#[trigger] s[i]));
    }
}

/// Upper-casing leaves a digit sequence unchanged.
pub proof fn lemma_upper_seq_digits(s: Seq<char>)
    requires
        all_digits(s),
    ensures
        upper_seq(s) == s,
{
    assert forall|i: int| 0 <= i < s.len() implies #[trigger] upper_seq(s)[i] == s[i] by {
        assert(is_digit_char(s[i]));
        crate::chars::lemma_upper_of_letter(s[i]);
    }
    assert(upper_seq(s) =~= s);
}

/// Upper-casing distributes over concatenation.
pub proof fn lemma_upper_seq_concat(a: Seq<char>, b: Seq<char>)
    ensures
        upper_seq(a + b) == upper_seq(a) + upper_seq(b),
{
    assert(upper_seq(a + b) =~= upper_seq(a) + upper_seq(b));
}

/// Returns the one-character string holding the digit of value `d`.
fn digit_str(d: u64) -> (r: &'static str)
    requires
        d < 10,
    ensures
        r@ =~= seq![digit_char(d as int)],
{
    let table = "0123456789";
    proof {
        reveal_strlit("0123456789");
    }
    let r = table.substring_ascii(d as usize, d as usize + 1);
    proof {
        assert(table@[d as int] == digit_char(d as int));
    }
    r
}

/// Appends the decimal rendering of `n` to `txt`, most significant digit
/// first, with no leading zero.
fn push_decimal_digits(n: u64, txt: &mut String)
    ensures
        final(txt)@ == old(txt)@ + dec_digits(n as nat),
    decreases n,
{
    if n < 10 {
        txt.append(digit_str(n));
        proof {
            assert(txt@ =~= old(txt)@ + dec_digits(n as nat));
        }
    } else {
        push_decimal_digits(n / 10, txt);
        txt.append(digit_str(n % 10));
        proof {
            assert(txt@ =~= old(txt)@ + dec_digits(n as nat));
        }
    }
}

/// A zero-based spreadsheet cell address (examples: `A3`, `J18`) together
/// with its textual label.
#[derive(Debug, PartialEq, PartialOrd)]
pub struct ExcelIndex {
    /// Zero-based `(column, row)` coordinate.
    pub coordinates: (u32, u32),
    /// The label: column letters, then the one-based row in decimal.
    pub letters: String,
}

impl ExcelIndex {
    /// The stored label is a well-formed cell label whose letter part
    /// (all uppercase) decodes to the column and whose digit part reads
    /// as the one-based row number.
    pub open spec fn wf(self) -> bool {
        let s = self.letters@;
        let l = letters_prefix_len(s);
        &&& label_format_ok(s)
        &&& all_upper_letters(s.take(l))
        &&& letters_value(s.take(l)) == self.coordinates.0
        &&& digits_value(s.skip(l)) == self.coordinates.1 + 1
    }

    /// Builds the address of zero-based column `x` and row `y`, with the
    /// canonical label.  Total: every coordinate pair has a label.
    pub fn from_tuple(x: u32, y: u32) -> (r: ExcelIndex)
        ensures
            r.coordinates == (x, y),
            r.letters@ == spec_label(x as nat, y as nat),
            r.wf(),
    {
        let mut letters = String::new();
        crate::helper::unpack_integer_to_chars(x, &mut letters);
        push_decimal_digits(y as u64 + 1, &mut letters);
        proof {
            assert(letters@ =~= spec_label(x as nat, y as nat));
            lemma_spec_label_parts(x as nat, y as nat);
        }
        ExcelIndex { coordinates: (x, y), letters }
    }
}

impl ExcelIndex {
    /// Parses a textual label, case-insensitively, into an address; the
    /// stored label is the uppercased input.
    ///
    /// Succeeds exactly on input of the shape letters-then-digits whose
    /// column value and one-based row number both fit in a `u32`, the
    /// row being at least 1.  Input of any other shape, and a row of
    /// `0`, is `InvalidFormat`; a well-formed input whose column or row
    /// is too large is `Overflow`.
    pub fn from_str(s: &str) -> (r: Result<ExcelIndex, ParseError>)
        ensures
            match r {
                Ok(e) => {
                    let l = letters_prefix_len(s@);
                    &&& label_format_ok(s@)
                    &&& letters_value(s@.take(l)) <= u32::MAX
                    &&& 1 <= digits_value(s@.skip(l)) <= u32::MAX
                    &&& e.coordinates.0 == letters_value(s@.take(l))
                    &&& e.coordinates.1 == digits_value(s@.skip(l)) - 1
                    &&& e.letters@ == upper_seq(s@)
                    &&& e.wf()
                },
                Err(ParseError::InvalidFormat) => {
                    let l = letters_prefix_len(s@);
                    ||| !label_format_ok(s@)
                    ||| (label_format_ok(s@) && letters_value(s@.take(l)) <= u32::MAX
                        && digits_value(s@.skip(l)) == 0)
                },
                Err(ParseError::Overflow) => {
                    let l = letters_prefix_len(s@);
                    &&& label_format_ok(s@)
                    &&& (letters_value(s@.take(l)) > u32::MAX
                        || (letters_value(s@.take(l)) <= u32::MAX
                            && digits_value(s@.skip(l)) > u32::MAX))
                },
            },
    {
        let n = s.unicode_len();
        // Find the end of the leading letter run.
        let mut l: usize = 0;
        loop
            invariant
                n == s@.len(),
                0 <= l <= n,
                all_letters(s@.take(l as int)),
            ensures
                0 <= l <= n,
                all_letters(s@.take(l as int)),
                l < n ==> !is_letter(s@[l as int]),
            decreases n - l,
        {
            if l >= n {
                break;
            }
            let c = s.get_char(l);
            match char_letter_val(c) {
                None => {
                    break;
                },
                Some(_) => {
                    proof {
                        assert(forall|j: int| 0 <= j < l + 1
                            ==> is_letter(#[trigger] s@.take(l + 1)[j]));
                    }
                    l = l + 1;
                },
            }
        }
        proof {
            assert(s@ =~= s@.take(l as int) + s@.skip(l as int));
            if l < n {
                assert(s@.skip(l as int)[0] == s@[l as int]);
            }
            lemma_letters_prefix_concat(s@.take(l as int), s@.skip(l as int));
            assert(s@.take(l as int).len() == l);
            assert(letters_prefix_len(s@) == l);
        }
        if l == 0 {
            return Err(ParseError::InvalidFormat);
        }
        if l == n {
            return Err(ParseError::InvalidFormat);
        }
        // The rest must be all digits.
        let mut i: usize = l;
        while i < n
            invariant
                n == s@.len(),
                1 <= l < n,
                l <= i <= n,
                letters_prefix_len(s@) == l,
                all_digits(s@.subrange(l as int, i as int)),
            decreases n - i,
        {
            let c = s.get_char(i);
            match char_digit_val(c) {
                None => {
                    proof {
                        assert(s@.skip(l as int)[i - l] == s@[i as int]);
                        assert(!all_digits(s@.skip(l as int)));
                    }
                    return Err(ParseError::InvalidFormat);
                },
                Some(_) => {
                    proof {
                        assert(forall|j: int| 0 <= j < i + 1 - l
                            ==> #[trigger] s@.subrange(l as int, i + 1)[j] == s@[l + j]);
                        assert(forall|j: int| 0 <= j < i - l
                            ==> #[trigger] s@.subrange(l as int, i as int)[j] == s@[l + j]);
                        assert(all_digits(s@.subrange(l as int, i + 1)));
                    }
                    i = i + 1;
                },
            }
        }
        proof {
            assert(s@.subrange(l as int, n as int) =~= s@.skip(l as int));
            assert(label_format_ok(s@));
        }
        // Decode the column letters.
        let letters_part = s.substring_char(0, l);
        proof {
            assert(letters_part@ =~= s@.take(l as int));
            assert(crate::helper::letters_format_ok(letters_part@));
        }
        let alpha = match AlphaNumber::from_str(letters_part) {
            Ok(a) => a,
            Err(ParseError::Overflow) => {
                return Err(ParseError::Overflow);
            },
            Err(ParseError::InvalidFormat) => {
                proof {
                    assert(false);
                }
                return Err(ParseError::InvalidFormat);
            },
        };
        // Read the one-based row number.
        let mut acc: u64 = 0;
        let bound: u64 = u32::MAX as u64;
        let mut i: usize = l;
        while i < n
            invariant
                n == s@.len(),
                l <= i <= n,
                1 <= l < n,
                all_digits(s@.skip(l as int)),
                letters_prefix_len(s@) == l,
                label_format_ok(s@),
                acc == digits_value(s@.subrange(l as int, i as int)),
                acc <= u32::MAX as u64,
                bound == u32::MAX as u64,
                letters_value(s@.take(l as int)) <= u32::MAX,
            decreases n - i,
        {
            let c = s.get_char(i);
            proof {
                assert(s@.skip(l as int)[i - l] == s@[i as int]);
                assert(is_digit_char(s@[i as int]));
            }
            let v = match char_digit_val(c) {
                Some(v) => v,
                None => {
                    proof {
                        assert(false);
                    }
                    return Err(ParseError::InvalidFormat);
                },
            };
            proof {
                assert(s@.subrange(l as int, i + 1).drop_last() =~= s@.subrange(
                    l as int,
                    i as int,
                ));
                assert(s@.subrange(l as int, i + 1).last() == s@[i as int]);
            }
            acc = acc * 10 + v as u64;
            i = i + 1;
            if acc > bound {
                proof {
                    lemma_digits_value_prefix_le(s@, l as int, i as int);
                }
                return Err(ParseError::Overflow);
            }
        }
        proof {
            assert(s@.subrange(l as int, n as int) =~= s@.skip(l as int));
        }
        if acc == 0 {
            return Err(ParseError::InvalidFormat);
        }
        let row = (acc - 1) as u32;
        let col = alpha.number;
        let digits_part = s.substring_char(l, n);
        let mut stored = alpha.letters;
        stored.append(digits_part);
        proof {
            assert(digits_part@ =~= s@.skip(l as int));
            lemma_upper_seq_concat(s@.take(l as int), s@.skip(l as int));
            lemma_upper_seq_digits(s@.skip(l as int));
            assert(stored@ == upper_seq(s@.take(l as int)) + s@.skip(l as int));
            assert(upper_seq(s@) == upper_seq(s@.take(l as int) + s@.skip(l as int)));
            assert(stored@ == upper_seq(s@));
            // Well-formedness of the result.
            crate::helper::lemma_letters_value_upper(s@.take(l as int));
            crate::helper::lemma_col_letters_shape(col as nat);
            assert(stored@.take(l as int) =~= upper_seq(s@.take(l as int)));
            assert(stored@.skip(l as int) =~= s@.skip(l as int));
            assert(all_letters(stored@.take(l as int)));
            lemma_letters_prefix_concat(stored@.take(l as int), stored@.skip(l as int));
            assert(stored@ =~= stored@.take(l as int) + stored@.skip(l as int));
            assert(letters_prefix_len(stored@) == l);
            assert(all_upper_letters(stored@.take(l as int))) by {
                assert(upper_seq(s@.take(l as int)) == col_letters(col as nat));
            }
        }
        Ok(ExcelIndex { coordinates: (col, row), letters: stored })
    }
}

/// Two addresses carry the same coordinate and the same label text.
pub open spec fn ei_eq(a: ExcelIndex, b: ExcelIndex) -> bool {
    a.coordinates == b.coordinates && a.letters@ == b.letters@
}

/// Column-major order on coordinates: compare columns first, then rows.
/// Used for range-bound checks; distinct from the row-major traversal
/// order.
pub open spec fn col_major_lt(a: (u32, u32), b: (u32, u32)) -> bool {
    a.0 < b.0 || (a.0 == b.0 && a.1 < b.1)
}

impl Clone for ExcelIndex {
    /// Duplicates an address, keeping coordinate and label.
    fn clone(&self) -> (r: Self)
        ensures
            ei_eq(r, *self),
    {
        ExcelIndex { coordinates: self.coordinates, letters: self.letters.clone() }
    }
}

/// A one-shot, forward-only cursor over cell addresses.
///
/// Without an `end` bound it walks along the starting row forever,
/// column by column.  With an inclusive `end` bound it walks the
/// rectangle between `start` and `end` in row-major order, wrapping each
/// row back to `start`'s column, and is exhausted once the cursor has
/// moved past the bound.
#[derive(Debug)]
pub struct ExcelIndexRange {
    /// The next address to be produced.
    pub current: ExcelIndex,
    /// The address traversal began at; anchors the wraparound column.
    pub start: ExcelIndex,
    /// Inclusive rectangular bound; absent means unbounded traversal.
    pub end: Option<ExcelIndex>,
}

impl ExcelIndexRange {
    /// The cursor's addresses are all well formed.
    pub open spec fn wf(self) -> bool {
        &&& self.current.wf()
        &&& self.start.wf()
        &&& match self.end {
            Some(e) => e.wf(),
            None => true,
        }
    }

    /// Advancing the cursor will not need a column or row beyond `u32`:
    /// false only for an unbounded cursor already at the last
    /// representable column, or a bounded one about to produce a
    /// terminal cell in that column.
    pub open spec fn can_step(self) -> bool {
        match self.end {
            None => self.current.coordinates.0 < u32::MAX,
            Some(e) => !(e.coordinates.0 == u32::MAX
                && self.current.coordinates.0 == u32::MAX
                && self.current.coordinates.1 == e.coordinates.1),
        }
    }

    /// An unbounded cursor starting (and anchored) at `current`.
    pub fn new(current: ExcelIndex) -> (r: ExcelIndexRange)
        ensures
            ei_eq(r.current, current),
            ei_eq(r.start, current),
            r.end is None,
            current.wf() ==> r.wf(),
    {
        let start = current.clone();
        ExcelIndexRange { start, current, end: None }
    }

    /// A cursor over the inclusive rectangle from `start` to `end`.
    pub fn range(start: ExcelIndex, end: ExcelIndex) -> (r: ExcelIndexRange)
        ensures
            ei_eq(r.current, start),
            ei_eq(r.start, start),
            r.end matches Some(e) && ei_eq(e, end),
            start.wf() && end.wf() ==> r.wf(),
    {
        let current = start.clone();
        ExcelIndexRange { current, start, end: Some(end) }
    }

    /// A cursor over the inclusive rectangle from `start` to `end`.
    pub fn range_bounded(start: ExcelIndex, end: ExcelIndex) -> (r: ExcelIndexRange)
        ensures
            ei_eq(r.current, start),
            ei_eq(r.start, start),
            r.end matches Some(e) && ei_eq(e, end),
            start.wf() && end.wf() ==> r.wf(),
    {
        ExcelIndexRange::range(start, end)
    }

    /// An unbounded cursor starting at `start`.
    pub fn range_unbounded(start: ExcelIndex) -> (r: ExcelIndexRange)
        ensures
            ei_eq(r.current, start),
            ei_eq(r.start, start),
            r.end is None,
            start.wf() ==> r.wf(),
    {
        ExcelIndexRange::new(start)
    }

    /// Produces the next address of the traversal, or nothing once the
    /// cursor is exhausted.
    ///
    /// Unbounded: always produces the cursor's address and moves one
    /// column right, the row fixed.  Bounded: once the cursor stands
    /// past the bound in column-major order the cursor is exhausted and
    /// never changes again; otherwise it produces its address and moves
    /// one column right, except that short of the bound's row it wraps
    /// from the bound's column back to the starting column of the next
    /// row.  The terminal cell is produced with the cursor moving past
    /// the bound, so exhaustion is only detected on the following call.
    ///
    /// Whenever an address is produced, the advanced cursor carries the
    /// canonical label of its coordinates, so every produced address
    /// after the first (which is the start cell verbatim) is canonical.
    pub fn next(&mut self) -> (r: Option<ExcelIndex>)
        requires
            old(self).can_step(),
        ensures
            ei_eq(final(self).start, old(self).start),
            r is Some ==> final(self).current.letters@ == spec_label(
                final(self).current.coordinates.0 as nat,
                final(self).current.coordinates.1 as nat,
            ),
            match old(self).end {
                None => {
                    &&& final(self).end is None
                    &&& r matches Some(it) && ei_eq(it, old(self).current)
                    &&& final(self).current.coordinates.0 == old(self).current.coordinates.0 + 1
                    &&& final(self).current.coordinates.1 == old(self).current.coordinates.1
                    &&& final(self).current.wf()
                },
                Some(e) => {
                    let cur = old(self).current.coordinates;
                    let ex = e.coordinates.0;
                    let ey = e.coordinates.1;
                    &&& final(self).end matches Some(e2) && ei_eq(e2, e)
                    &&& if col_major_lt(e.coordinates, cur) {
                        &&& r is None
                        &&& ei_eq(final(self).current, old(self).current)
                    } else {
                        &&& r matches Some(it) && ei_eq(it, old(self).current)
                        &&& final(self).current.wf()
                        &&& if ex == cur.0 && ey > cur.1 {
                            final(self).current.coordinates.0 == old(self).start.coordinates.0
                                && final(self).current.coordinates.1 == cur.1 + 1
                        } else {
                            final(self).current.coordinates.0 == cur.0 + 1
                                && final(self).current.coordinates.1 == cur.1
                        }
                    }
                },
            },
    {
        match &self.end {
            Some(end) => {
                let (x, y) = end.coordinates;
                let (r, t) = self.current.coordinates;
                if x < r || (x == r && y < t) {
                    // Past the bound: exhausted, and stays so.
                    None
                } else if x == r && y == t {
                    // Terminal cell: produce it and step past the bound.
                    let next = ExcelIndex::from_tuple(r + 1, t);
                    let current = self.current.clone();
                    self.current = next;
                    Some(current)
                } else if x == r {
                    // Same column as the bound, rows to go: wrap to the
                    // starting column of the next row.
                    let (s, _) = self.start.coordinates;
                    let next = ExcelIndex::from_tuple(s, t + 1);
                    let current = self.current.clone();
                    self.current = next;
                    Some(current)
                } else {
                    // Columns to go on this row.
                    let next = ExcelIndex::from_tuple(r + 1, t);
                    let current = self.current.clone();
                    self.current = next;
                    Some(current)
                }
            },
            None => {
                let (x, y) = self.current.coordinates;
                let next = ExcelIndex::from_tuple(x + 1, y);
                let current = self.current.clone();
                self.current = next;
                Some(current)
            },
        }
    }
}

impl ExcelIndex {
    /// Starts an unbounded traversal at this address.
    pub fn into_iter(self) -> (r: ExcelIndexRange)
        ensures
            ei_eq(r.current, self),
            ei_eq(r.start, self),
            r.end is None,
            self.wf() ==> r.wf(),
    {
        ExcelIndexRange::new(self)
    }

    /// Starts an inclusive bounded traversal from this address to `end`.
    pub fn into_range(self, end: ExcelIndex) -> (r: ExcelIndexRange)
        ensures
            ei_eq(r.current, self),
            ei_eq(r.start, self),
            r.end matches Some(e) && ei_eq(e, end),
            self.wf() && end.wf() ==> r.wf(),
    {
        ExcelIndexRange::range(self, end)
    }
}

/// The canonical label of `(x, y)` splits at the end of the column
/// letters: the letter part is the column rendering, the digit part the
/// one-based row, and both have their expected decoded values.
pub proof fn lemma_spec_label_parts(x: nat, y: nat)
    ensures
        letters_prefix_len(spec_label(x, y)) == col_letters(x).len(),
        label_format_ok(spec_label(x, y)),
        spec_label(x, y).take(col_letters(x).len() as int) == col_letters(x),
        spec_label(x, y).skip(col_letters(x).len() as int) == dec_digits(y + 1),
        all_upper_letters(spec_label(x, y).take(col_letters(x).len() as int)),
        letters_value(spec_label(x, y).take(col_letters(x).len() as int)) == x,
        digits_value(spec_label(x, y).skip(col_letters(x).len() as int)) == y + 1,
        upper_seq(spec_label(x, y)) == spec_label(x, y),
{
    let a = col_letters(x);
    let b = dec_digits(y + 1);
    let s = spec_label(x, y);
    crate::helper::lemma_col_letters_shape(x);
    crate::helper::lemma_col_letters_value(x);
    lemma_dec_digits(y + 1);
    assert(all_letters(a)) by {
        assert(forall|i: int| 0 <= i < a.len() ==> is_upper_letter(#[trigger] a[i]));
    }
    assert(!is_letter(b[0])) by {
        assert(is_digit_char(b[0]));
    }
    lemma_letters_prefix_concat(a, b);
    assert(s.take(a.len() as int) =~= a);
    assert(s.skip(a.len() as int) =~= b);
    lemma_upper_seq_concat(a, b);
    lemma_upper_seq_digits(b);
    crate::helper::lemma_letters_value_upper(a);
    assert(upper_seq(a) =~= a) by {
        assert forall|i: int| 0 <= i < a.len() implies #[trigger] upper_seq(a)[i] == a[i] by {
            assert(is_upper_letter(a[i]));
            crate::chars::lemma_upper_of_letter(a[i]);
        }
    }
}

/// Round-trip law: the canonical label of a coordinate pair parses back
/// to exactly that pair.  Together with the contracts of
/// [`ExcelIndex::from_tuple`] and [`ExcelIndex::from_str`] this says
/// that parsing the formatted label of `(x, y)` succeeds and returns an
/// address with coordinates `(x, y)` and the same label.  The row bound
/// is forced by the machine: for `y == u32::MAX` the one-based row
/// number no longer fits in a `u32`, so parsing reports `Overflow`.
pub proof fn lemma_label_round_trip(x: u32, y: u32)
    requires
        y < u32::MAX,
    ensures
        ({
            let s = spec_label(x as nat, y as nat);
            let l = letters_prefix_len(s);
            &&& label_format_ok(s)
            &&& letters_value(s.take(l)) == x
            &&& digits_value(s.skip(l)) == y + 1
            &&& digits_value(s.skip(l)) <= u32::MAX
            &&& upper_seq(s) == s
        }),
{
    lemma_spec_label_parts(x as nat, y as nat);
}

/// The leading-letter count is blind to case.
pub proof fn lemma_letters_prefix_upper(s: Seq<char>)
    ensures
        letters_prefix_len(upper_seq(s)) == letters_prefix_len(s),
    decreases s.len(),
{
    let u = upper_seq(s);
    assert(forall|i: int| 0 <= i < s.len() ==> #[trigger] u[i] == upper_of(s[i]));
    if s.len() > 0 {
        crate::chars::lemma_upper_of_letter(s[0]);
        assert(u[0] == upper_of(s[0]));
        if is_letter(s[0]) {
            assert(u.drop_first() =~= upper_seq(s.drop_first()));
            lemma_letters_prefix_upper(s.drop_first());
        }
    }
}

/// Case-insensitivity law: parsing a label and parsing its uppercased
/// form give the same outcome.  The quantities that the contract of
/// [`ExcelIndex::from_str`] is phrased over — format validity, the
/// decoded column value, the row digits and the stored label — are all
/// unchanged by upper-casing the input.
pub proof fn lemma_parse_case_insensitive(s: Seq<char>)
    ensures
        letters_prefix_len(upper_seq(s)) == letters_prefix_len(s),
        label_format_ok(upper_seq(s)) == label_format_ok(s),
        letters_value(upper_seq(s).take(letters_prefix_len(s)))
            == letters_value(s.take(letters_prefix_len(s))),
        upper_seq(upper_seq(s)) == upper_seq(s),
        label_format_ok(s) ==> upper_seq(s).skip(letters_prefix_len(s))
            == s.skip(letters_prefix_len(s)),
{
    let u = upper_seq(s);
    let l = letters_prefix_len(s);
    assert(forall|i: int| 0 <= i < s.len() ==> #[trigger] u[i] == upper_of(s[i]));
    lemma_letters_prefix_upper(s);
    lemma_letters_prefix_basic(s);
    // The letter prefix has the same decoded value.
    assert(u.take(l) =~= upper_seq(s.take(l)));
    crate::helper::lemma_letters_value_upper(s.take(l));
    // Upper-casing is idempotent.
    assert forall|i: int| 0 <= i < s.len() implies #[trigger] upper_seq(u)[i] == u[i] by {
        assert(u[i] == upper_of(s[i]));
        crate::chars::lemma_upper_of_idempotent(s[i]);
    }
    assert(upper_seq(u) =~= u);
    // A character is a digit exactly when its uppercased form is.
    assert forall|i: int| 0 <= i < s.len()
        implies is_digit_char(#[trigger] u[i]) == is_digit_char(s[i]) by {
        crate::chars::lemma_upper_of_letter(s[i]);
    }
    if all_digits(s.skip(l)) {
        assert forall|j: int| 0 <= j < u.skip(l).len()
            implies is_digit_char(#[trigger] u.skip(l)[j]) by {
            assert(s.skip(l)[j] == s[l + j]);
            assert(is_digit_char(s.skip(l)[j]));
            assert(u.skip(l)[j] == u[l + j]);
            crate::chars::lemma_upper_of_letter(s[l + j]);
        }
    }
    if all_digits(u.skip(l)) {
        assert forall|j: int| 0 <= j < s.skip(l).len()
            implies is_digit_char(#[trigger] s.skip(l)[j]) by {
            assert(u.skip(l)[j] == u[l + j]);
            assert(is_digit_char(u.skip(l)[j]));
            assert(s.skip(l)[j] == s[l + j]);
            crate::chars::lemma_upper_of_letter(s[l + j]);
        }
    }
    if label_format_ok(s) {
        assert forall|j: int| 0 <= j < s.skip(l).len()
            implies #[trigger] u.skip(l)[j] == s.skip(l)[j] by {
            assert(s.skip(l)[j] == s[l + j]);
            assert(is_digit_char(s.skip(l)[j]));
            assert(u.skip(l)[j] == u[l + j]);
            crate::chars::lemma_upper_of_letter(s[l + j]);
        }
        assert(u.skip(l) =~= s.skip(l));
    }
}

} // verus!
