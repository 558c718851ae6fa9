//! The range-specification parser: a compact textual expression, either a
//! single decimal number `"N"` or a pair `"A..B"`, denoting a half-open
//! interval of character codes.

use vstd::prelude::*;
use vstd::string::StrSliceExecFns;
use vstd::string::StringExecFns;

verus! {

/// A half-open interval `[start, end)` of character codes. `end <= start` is
/// allowed and denotes an empty range.
#[derive(Clone, Copy, Debug, PartialEq, Eq, Structural)]
pub struct RangeSpec {
    pub start: usize,
    pub end: usize,
}

impl RangeSpec {
    /// Number of character codes in the interval; zero when `end <= start`.
    pub open spec fn spec_len(&self) -> nat {
        if self.start <= self.end {
            (self.end - self.start) as nat
        } else {
            0
        }
    }

    /// Number of character codes in the interval; zero when `end <= start`.
    pub fn len(&self) -> (n: usize)
        ensures
            n == self.spec_len(),
    {
        if self.start <= self.end {
            self.end - self.start
        } else {
            0
        }
    }
}

/// Why a range expression was rejected.
#[derive(Clone, Copy, Debug, PartialEq, Eq, Structural)]
pub enum RangeError {
    /// The expression is the empty string.
    Empty,
    /// The expression does not begin with a decimal digit.
    FirstNotDigit,
    /// A `.` after the first number is not followed by a second `.`.
    ExpectedDot,
    /// Nothing, or a non-digit, follows the `..` token.
    DigitAfterDots,
    /// A character that is neither a digit nor part of a `..` token occurs.
    InvalidChar,
    /// A bound does not fit in the machine's integer width.
    Overflow,
}

impl RangeError {
    /// A short human-readable reason for the rejection.
    pub fn message(&self) -> (m: String)
        ensures
            m@ == match self {
                RangeError::Empty => "Empty string is an invalid range"@,
                RangeError::FirstNotDigit => "First char must be an integer"@,
                RangeError::ExpectedDot => "Expected '.'"@,
                RangeError::DigitAfterDots => "Character after '.' must be a digit"@,
                RangeError::InvalidChar => "Invalid char"@,
                RangeError::Overflow => "Range bound is too large"@,
            },
    {
        match self {
            RangeError::Empty => String::from_str("Empty string is an invalid range"),
            RangeError::FirstNotDigit => String::from_str("First char must be an integer"),
            RangeError::ExpectedDot => String::from_str("Expected '.'"),
            RangeError::DigitAfterDots => String::from_str("Character after '.' must be a digit"),
            RangeError::InvalidChar => String::from_str("Invalid char"),
            RangeError::Overflow => String::from_str("Range bound is too large"),
        }
    }
}

/// Whether `c` is a decimal digit.
pub open spec fn is_digit_ch(c: char) -> bool {
    48 <= c as u32 <= 57
}

/// Numeric value of a digit character; meaningful only when `is_digit_ch(c)`.
pub open spec fn digit_val(c: char) -> nat {
    if is_digit_ch(c) {
        (c as u32 - 48) as nat
    } else {
        0
    }
}

/// Whether every character of `t` in `[from, t.len())` is a decimal digit.
pub open spec fn all_digits_from(t: Seq<char>, from: int) -> bool {
    forall|i: int| from <= i < t.len() ==> is_digit_ch(#[trigger] t[i])
}

/// The value of a run of decimal digits read in base 10.
pub open spec fn dec_value(t: Seq<char>) -> nat
    decreases t.len(),
{
    if t.len() == 0 {
        0
    } else {
        dec_value(t.drop_last()) * 10 + digit_val(t.last())
    }
}

/// Length of the maximal run of decimal digits at the front of `t`.
pub open spec fn digit_run(t: Seq<char>) -> nat
    decreases t.len(),
{
    if t.len() == 0 || !is_digit_ch(t[0]) {
        0
    } else {
        1 + digit_run(t.skip(1))
    }
}

/// What the grammar assigns to a range expression: the two bounds as
/// unbounded naturals, or the reason the expression is malformed. The
/// expression is a run of digits, optionally followed by the token `..` and a
/// second run of digits; a lone number `N` denotes `[N, N+1)`.
pub open spec fn spec_parse(t: Seq<char>) -> Result<(nat, nat), RangeError> {
    if t.len() == 0 {
        Err(RangeError::Empty)
    } else if !is_digit_ch(t[0]) {
        Err(RangeError::FirstNotDigit)
    } else {
        let k = digit_run(t) as int;
        if k == t.len() {
            Ok((dec_value(t), dec_value(t) + 1))
        } else if t[k] != '.' {
            Err(RangeError::InvalidChar)
        } else if k + 1 == t.len() || t[k + 1] != '.' {
            Err(RangeError::ExpectedDot)
        } else if k + 2 == t.len() || !is_digit_ch(t[k + 2]) {
            Err(RangeError::DigitAfterDots)
        } else if !all_digits_from(t, k + 2) {
            Err(RangeError::InvalidChar)
        } else {
            Ok((dec_value(t.take(k)), dec_value(t.skip(k + 2))))
        }
    }
}

proof fn lemma_dec_value_step(t: Seq<char>, i: int)
    requires
        0 <= i < t.len(),
    ensures
        dec_value(t.take(i + 1)) == dec_value(t.take(i)) * 10 + digit_val(t[i]),
{
    assert(t.take(i + 1).drop_last() =~= t.take(i));
    assert(t.take(i + 1).last() == t[i]);
}

proof fn lemma_dec_value_take_mono(t: Seq<char>, i: int, j: int)
    requires
        0 <= i <= j <= t.len(),
    ensures
        dec_value(t.take(i)) <= dec_value(t.take(j)),
    decreases j - i,
{
    if i < j {
        lemma_dec_value_take_mono(t, i, j - 1);
        lemma_dec_value_step(t, j - 1);
        let v = dec_value(t.take(j - 1));
        assert(v * 10 >= v) by (nonlinear_arith);
    }
}

/// Parses the digit run `s[a..b]` as a base-10 number, or reports that its
/// value does not fit in `usize`.
fn parse_dec(s: &str, a: usize, b: usize) -> (r: Option<usize>)
    requires
        a < b <= s@.len(),
        forall|i: int| a <= i < b ==> is_digit_ch(#[trigger] s@[i]),
    ensures
        ({
            let t = s@.subrange(a as int, b as int);
            match r {
                Some(v) => v == dec_value(t),
                None => dec_value(t) > usize::MAX,
            }
        }),
{
    let ghost t = s@.subrange(a as int, b as int);
    let mut v: usize = 0;
    let mut i: usize = a;
    assert(t.take(0) =~= Seq::<char>::empty());
    while i < b
        invariant
            a <= i <= b <= s@.len(),
            forall|k: int| a <= k < b ==> is_digit_ch(#[trigger] s@[k]),
            t == s@.subrange(a as int, b as int),
            v == dec_value(t.take(i - a)),
        decreases b - i,
    {
        let c = s.get_char(i);
        assert(c == t[i - a]);
        let d = ((c as u32) - 48) as usize;
        proof {
            lemma_dec_value_step(t, i - a);
        }
        let step = match v.checked_mul(10) {
            Some(w) => w.checked_add(d),
            None => None,
        };
        match step {
            Some(w) => {
                v = w;
            },
            None => {
                proof {
                    lemma_dec_value_take_mono(t, i - a + 1, t.len() as int);
                    assert(t.take(t.len() as int) =~= t);
                }
                return None;
            },
        }
        i = i + 1;
    }
    proof {
        assert(t.take(t.len() as int) =~= t);
    }
    Some(v)
}

/// Parses a textual range expression.
///
/// The result is `Ok` exactly when the expression matches the grammar and
/// both bounds fit in `usize`; each rejection carries the reason tied to the
/// first offending position, exactly as `spec_parse` assigns it.
pub fn range_parser(range: &str) -> (r: Result<RangeSpec, RangeError>)
    ensures
        match spec_parse(range@) {
            Ok(v) => if v.0 <= usize::MAX && v.1 <= usize::MAX {
                r == Ok::<RangeSpec, RangeError>(
                    RangeSpec { start: v.0 as usize, end: v.1 as usize },
                )
            } else {
                r == Err::<RangeSpec, RangeError>(RangeError::Overflow)
            },
            Err(e) => r == Err::<RangeSpec, RangeError>(e),
        },
{
    let ghost t = range@;
    let n = range.unicode_len();
    if n == 0 {
        return Err(RangeError::Empty);
    }
    let first = range.get_char(0);
    if (first as u32) < 48 || (first as u32) > 57 {
        return Err(RangeError::FirstNotDigit);
    }
    // Scan the maximal run of digits that opens the expression.
    let mut i: usize = 1;
    loop
        invariant_except_break
            1 <= i <= n == t.len(),
            t == range@,
            t.len() > 0 && is_digit_ch(t[0]),
            forall|k: int| 0 <= k < i ==> is_digit_ch(#[trigger] t[k]),
        ensures
            1 <= i <= n == t.len(),
            forall|k: int| 0 <= k < i ==> is_digit_ch(#[trigger] t[k]),
            i == n || !is_digit_ch(t[i as int]),
        decreases n - i,
    {
        if i >= n {
            break;
        }
        let c = range.get_char(i);
        if (c as u32) < 48 || (c as u32) > 57 {
            break;
        }
        i = i + 1;
    }
    proof {
        lemma_digit_run_at(t, i as int);
    }
    let start_end = i;
    if start_end == n {
        // A single number `N`: the interval is `[N, N + 1)`.
        proof {
            assert(t.subrange(0, t.len() as int) =~= t);
        }
        let start = match parse_dec(range, 0, start_end) {
            Some(v) => v,
            None => {
                return Err(RangeError::Overflow);
            },
        };
        if start == usize::MAX {
            return Err(RangeError::Overflow);
        }
        return Ok(RangeSpec { start, end: start + 1 });
    }
    if range.get_char(start_end) != '.' {
        return Err(RangeError::InvalidChar);
    }
    if start_end + 1 == n || range.get_char(start_end + 1) != '.' {
        return Err(RangeError::ExpectedDot);
    }
    if start_end + 2 == n {
        return Err(RangeError::DigitAfterDots);
    }
    let c2 = range.get_char(start_end + 2);
    if (c2 as u32) < 48 || (c2 as u32) > 57 {
        return Err(RangeError::DigitAfterDots);
    }
    // Everything after the `..` token must be a digit.
    let mut j: usize = start_end + 3;
    while j < n
        invariant
            start_end + 3 <= j <= n == t.len(),
            t == range@,
            t.len() > 0 && is_digit_ch(t[0]),
            digit_run(t) == start_end,
            t[start_end as int] == '.',
            t[start_end + 1] == '.',
            is_digit_ch(t[start_end + 2]),
            forall|k: int| start_end + 2 <= k < j ==> is_digit_ch(#[trigger] t[k]),
        decreases n - j,
    {
        let c = range.get_char(j);
        if (c as u32) < 48 || (c as u32) > 57 {
            proof {
                assert(!is_digit_ch(t[j as int]));
                assert(!all_digits_from(t, start_end + 2));
            }
            return Err(RangeError::InvalidChar);
        }
        j = j + 1;
    }
    proof {
        assert(t.subrange(0, start_end as int) =~= t.take(start_end as int));
        assert(t.subrange(start_end + 2, t.len() as int) =~= t.skip(start_end + 2));
    }
    let start = match parse_dec(range, 0, start_end) {
        Some(v) => v,
        None => {
            return Err(RangeError::Overflow);
        },
    };
    let end = match parse_dec(range, start_end + 2, n) {
        Some(v) => v,
        None => {
            return Err(RangeError::Overflow);
        },
    };
    Ok(RangeSpec { start, end })
}

/// A valid single-number expression: a non-empty run of decimal digits.
pub open spec fn valid_singleton(t: Seq<char>) -> bool {
    t.len() > 0 && all_digits_from(t, 0)
}

/// A valid pair expression split at `k`: a non-empty run of digits, the
/// two-character token `..`, and a second non-empty run of digits.
pub open spec fn is_pair_split(t: Seq<char>, k: int) -> bool {
    &&& 1 <= k
    &&& k + 3 <= t.len()
    &&& (forall|i: int| 0 <= i < k ==> is_digit_ch(#[trigger] t[i]))
    &&& t[k] == '.'
    &&& t[k + 1] == '.'
    &&& all_digits_from(t, k + 2)
}

/// A valid pair expression `"A..B"`.
pub open spec fn valid_pair(t: Seq<char>) -> bool {
    exists|k: int| is_pair_split(t, k)
}

/// Every character before the maximal digit run's end is a digit, and the
/// character that ends it, if any, is not.
proof fn lemma_digit_run_bounds(t: Seq<char>)
    ensures
        digit_run(t) <= t.len(),
        forall|i: int| 0 <= i < digit_run(t) ==> is_digit_ch(#[trigger] t[i]),
        digit_run(t) < t.len() ==> !is_digit_ch(t[digit_run(t) as int]),
    decreases t.len(),
{
    if t.len() == 0 || !is_digit_ch(t[0]) {
    } else {
        lemma_digit_run_bounds(t.skip(1));
        assert forall|i: int| 0 <= i < digit_run(t) implies is_digit_ch(#[trigger] t[i]) by {
            if i > 0 {
                assert(t.skip(1)[i - 1] == t[i]);
            }
        }
    }
}

/// A single-number expression parses to the singleton interval bounds:
/// the number and its successor.
pub proof fn lemma_parse_singleton(t: Seq<char>)
    requires
        valid_singleton(t),
    ensures
        spec_parse(t) == Ok::<(nat, nat), RangeError>((dec_value(t), dec_value(t) + 1)),
{
    lemma_digit_run_at(t, t.len() as int);
}

/// A pair expression `"A..B"` parses to exactly the two literals' values.
pub proof fn lemma_parse_pair(t: Seq<char>, k: int)
    requires
        is_pair_split(t, k),
    ensures
        spec_parse(t) == Ok::<(nat, nat), RangeError>(
            (dec_value(t.take(k)), dec_value(t.skip(k + 2))),
        ),
{
    assert(!is_digit_ch(t[k]));
    lemma_digit_run_at(t, k);
}

/// The parser accepts exactly the grammar: a run of digits, optionally
/// followed by the token `..` and a second run of digits. In particular every
/// other shape — the empty string, a leading non-digit, a lone `.`, a `..`
/// with no digit after it, trailing junk — is rejected.
pub proof fn lemma_parse_complete(t: Seq<char>)
    ensures
        spec_parse(t) is Ok <==> (valid_singleton(t) || valid_pair(t)),
{
    if valid_singleton(t) {
        lemma_parse_singleton(t);
    } else if valid_pair(t) {
        let k = choose|k: int| is_pair_split(t, k);
        lemma_parse_pair(t, k);
    } else if spec_parse(t) is Ok {
        lemma_digit_run_bounds(t);
        let k = digit_run(t) as int;
        if k == t.len() {
            assert(valid_singleton(t));
        } else {
            assert(is_pair_split(t, k));
        }
    }
}

/// Each malformed shape is rejected with the reason tied to the first
/// offending position.
pub proof fn lemma_parser_rejections(t: Seq<char>)
    ensures
        t.len() == 0 ==> spec_parse(t) == Err::<(nat, nat), RangeError>(RangeError::Empty),
        t.len() > 0 && !is_digit_ch(t[0]) ==> spec_parse(t) == Err::<(nat, nat), RangeError>(
            RangeError::FirstNotDigit,
        ),
        ({
            let k = digit_run(t) as int;
            &&& (t.len() > 0 && is_digit_ch(t[0]) && k < t.len() && t[k] != '.' ==> spec_parse(t)
                == Err::<(nat, nat), RangeError>(RangeError::InvalidChar))
            &&& (t.len() > 0 && is_digit_ch(t[0]) && k < t.len() && t[k] == '.' && (k + 1
                == t.len() || t[k + 1] != '.') ==> spec_parse(t) == Err::<(nat, nat), RangeError>(
                RangeError::ExpectedDot,
            ))
            &&& (t.len() > 0 && is_digit_ch(t[0]) && k + 1 < t.len() && t[k] == '.' && t[k + 1]
                == '.' && (k + 2 == t.len() || !is_digit_ch(t[k + 2])) ==> spec_parse(t)
                == Err::<(nat, nat), RangeError>(RangeError::DigitAfterDots))
        }),
        !(valid_singleton(t) || valid_pair(t)) ==> spec_parse(t) is Err,
{
    lemma_parse_complete(t);
    lemma_digit_run_bounds(t);
}

/// The maximal digit run is `k` exactly when the first `k` characters are
/// digits and the next one, if any, is not.
proof fn lemma_digit_run_at(t: Seq<char>, k: int)
    requires
        0 <= k <= t.len(),
        forall|i: int| 0 <= i < k ==> is_digit_ch(#[trigger] t[i]),
        k == t.len() || !is_digit_ch(t[k]),
    ensures
        digit_run(t) == k,
    decreases t.len(),
{
    if k == 0 {
    } else {
        assert(is_digit_ch(t[0]));
        lemma_digit_run_at(t.skip(1), k - 1);
    }
}

} // verus!
