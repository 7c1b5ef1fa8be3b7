//! Reading millidegree values out of channel file texts.
//!
//! A channel file holds one line of text: a whole number of millidegrees
//! Celsius, possibly surrounded by whitespace (sysfs texts end in a
//! newline).  Parsing trims the text and reads an optionally signed run of
//! decimal digits.

use vstd::prelude::*;

verus! {

/// Why a channel file's text could not be read as a millidegree count.
#[derive(Clone, Copy, Debug, PartialEq, Eq, Structural)]
pub enum TempError {
    /// The trimmed text is not an optionally signed run of decimal digits.
    NotANumber,
    /// The written value does not fit in a signed 64-bit millidegree count.
    OutOfRange,
}

/// Whitespace trimmed around a reading: the ASCII whitespace characters.
pub open spec fn is_space_char(c: char) -> bool {
    c == ' ' || c == '\t' || c == '\n' || c == '\r' || c == '\u{b}' || c == '\u{c}'
}

pub open spec fn is_digit_char(c: char) -> bool {
    '0' <= c && c <= '9'
}

/// The numeric value of one decimal digit character.
pub open spec fn digit_val(c: char) -> int {
    c as int - '0' as int
}

/// The text with leading whitespace removed.
pub open spec fn trim_front(s: Seq<char>) -> Seq<char>
    decreases s.len(),
{
    if s.len() > 0 && is_space_char(s[0]) {
        trim_front(s.subrange(1, s.len() as int))
    } else {
        s
    }
}

/// The text with trailing whitespace removed.
pub open spec fn trim_back(s: Seq<char>) -> Seq<char>
    decreases s.len(),
{
    if s.len() > 0 && is_space_char(s.last()) {
        trim_back(s.drop_last())
    } else {
        s
    }
}

/// The text with surrounding whitespace removed.
pub open spec fn trimmed(s: Seq<char>) -> Seq<char> {
    trim_back(trim_front(s))
}

proof fn lemma_trim_front_at(s: Seq<char>, lo: int)
    requires
        0 <= lo <= s.len(),
        forall|i: int| 0 <= i < lo ==> is_space_char(s[i]),
        lo < s.len() ==> !is_space_char(s[lo]),
    ensures
        trim_front(s) == s.subrange(lo, s.len() as int),
    decreases lo,
{
    if lo == 0 {
        assert(s.subrange(0, s.len() as int) =~= s);
    } else {
        let t = s.subrange(1, s.len() as int);
        lemma_trim_front_at(t, lo - 1);
        assert(t.subrange(lo - 1, t.len() as int) =~= s.subrange(lo, s.len() as int));
    }
}

proof fn lemma_trim_back_at(s: Seq<char>, hi: int)
    requires
        0 <= hi <= s.len(),
        forall|i: int| hi <= i < s.len() ==> is_space_char(s[i]),
        hi > 0 ==> !is_space_char(s[hi - 1]),
    ensures
        trim_back(s) == s.subrange(0, hi),
    decreases s.len() - hi,
{
    if hi == s.len() {
        assert(s.subrange(0, hi) =~= s);
    } else {
        let t = s.drop_last();
        lemma_trim_back_at(t, hi);
        assert(t.subrange(0, hi) =~= s.subrange(0, hi));
    }
}

/// Whether `c` counts as whitespace around a reading.
pub fn is_space(c: char) -> (r: bool)
    ensures
        r == is_space_char(c),
{
    c == ' ' || c == '\t' || c == '\n' || c == '\r' || c == '\u{b}' || c == '\u{c}'
}

/// Whether `c` is a decimal digit.
pub fn is_digit(c: char) -> (r: bool)
    ensures
        r == is_digit_char(c),
{
    let u = c as u32;
    ('0' as u32) <= u && u <= ('9' as u32)
}

/// The value of a run of decimal digits, most significant first.
pub open spec fn digits_val(s: Seq<char>) -> int
    decreases s.len(),
{
    if s.len() == 0 {
        0
    } else {
        digits_val(s.drop_last()) * 10 + digit_val(s.last())
    }
}

pub open spec fn all_digits(s: Seq<char>) -> bool {
    forall|i: int| 0 <= i < s.len() ==> is_digit_char(s[i])
}

/// An optionally signed, nonempty run of decimal digits.
pub open spec fn is_int_literal(s: Seq<char>) -> bool {
    if s.len() == 0 {
        false
    } else if s[0] == '-' || s[0] == '+' {
        s.len() > 1 && all_digits(s.subrange(1, s.len() as int))
    } else {
        all_digits(s)
    }
}

/// The value written by an optionally signed run of decimal digits.
pub open spec fn int_literal_val(s: Seq<char>) -> int {
    if s.len() > 0 && s[0] == '-' {
        -digits_val(s.subrange(1, s.len() as int))
    } else if s.len() > 0 && s[0] == '+' {
        digits_val(s.subrange(1, s.len() as int))
    } else {
        digits_val(s)
    }
}

/// Whether a channel file's text parses as a millidegree reading.
pub open spec fn parse_ok(s: Seq<char>) -> bool {
    &&& is_int_literal(trimmed(s))
    &&& i64::MIN <= int_literal_val(trimmed(s)) <= i64::MAX
}

/// The millidegree value a channel file's text parses to.
pub open spec fn parse_val(s: Seq<char>) -> int {
    int_literal_val(trimmed(s))
}

/// The error a channel file's text is rejected with.
pub open spec fn parse_err(s: Seq<char>) -> TempError {
    if !is_int_literal(trimmed(s)) {
        TempError::NotANumber
    } else {
        TempError::OutOfRange
    }
}

pub proof fn lemma_digits_val_nonneg(s: Seq<char>)
    requires
        all_digits(s),
    ensures
        digits_val(s) >= 0,
    decreases s.len(),
{
    if s.len() > 0 {
        assert(all_digits(s.drop_last()));
        lemma_digits_val_nonneg(s.drop_last());
    }
}

proof fn lemma_digits_val_step(s: Seq<char>, k: int)
    requires
        0 <= k < s.len(),
    ensures
        digits_val(s.subrange(0, k + 1)) == 10 * digits_val(s.subrange(0, k)) + digit_val(s[k]),
{
    assert(s.subrange(0, k + 1).drop_last() =~= s.subrange(0, k));
    assert(s.subrange(0, k + 1).last() == s[k]);
}

/// A prefix of a digit run never exceeds the whole run's value.
proof fn lemma_digits_val_prefix_le(s: Seq<char>, k: int)
    requires
        all_digits(s),
        0 <= k <= s.len(),
    ensures
        digits_val(s.subrange(0, k)) <= digits_val(s),
    decreases s.len() - k,
{
    if k == s.len() {
        assert(s.subrange(0, k) =~= s);
    } else {
        lemma_digits_val_step(s, k);
        assert(all_digits(s.subrange(0, k)));
        lemma_digits_val_nonneg(s.subrange(0, k));
        lemma_digits_val_prefix_le(s, k + 1);
    }
}

/// A run holding a nonzero digit has a positive value.
pub proof fn lemma_digits_val_pos(s: Seq<char>, k: int)
    requires
        all_digits(s),
        0 <= k < s.len(),
        s[k] != '0',
    ensures
        digits_val(s) > 0,
{
    lemma_digits_val_step(s, k);
    assert(all_digits(s.subrange(0, k)));
    lemma_digits_val_nonneg(s.subrange(0, k));
    lemma_digits_val_prefix_le(s, k + 1);
}

/// A run of zero digits alone has value zero.
pub proof fn lemma_digits_val_zero(s: Seq<char>)
    requires
        forall|i: int| 0 <= i < s.len() ==> s[i] == '0',
    ensures
        digits_val(s) == 0,
    decreases s.len(),
{
    if s.len() > 0 {
        lemma_digits_val_zero(s.drop_last());
    }
}

/// `s` without surrounding whitespace.
pub fn trim_str<'a>(s: &'a str) -> (r: &'a str)
    ensures
        r@ == trimmed(s@),
{
    let n = s.unicode_len();
    let mut lo: usize = 0;
    while lo < n && is_space(s.get_char(lo))
        invariant
            0 <= lo <= n,
            n == s@.len(),
            forall|i: int| 0 <= i < lo ==> is_space_char(s@[i]),
        decreases n - lo,
    {
        lo = lo + 1;
    }
    let mut hi: usize = n;
    while hi > lo && is_space(s.get_char(hi - 1))
        invariant
            lo <= hi <= n,
            n == s@.len(),
            forall|i: int| 0 <= i < lo ==> is_space_char(s@[i]),
            lo < n ==> !is_space_char(s@[lo as int]),
            forall|i: int| hi <= i < n ==> is_space_char(s@[i]),
        decreases hi,
    {
        hi = hi - 1;
    }
    let r = s.substring_char(lo, hi);
    proof {
        lemma_trim_front_at(s@, lo as int);
        let t = s@.subrange(lo as int, s@.len() as int);
        lemma_trim_back_at(t, hi - lo);
        assert(t.subrange(0, hi - lo) =~= s@.subrange(lo as int, hi as int));
    }
    r
}

/// Reads a channel file's text as a whole number of millidegrees.
///
/// The text is trimmed, then read as an optionally signed run of decimal
/// digits; any other shape is `NotANumber`, and a written value outside the
/// signed 64-bit range is `OutOfRange`.
pub fn parse_millideg(s: &str) -> (r: Result<i64, TempError>)
    ensures
        parse_ok(s@) ==> r == Ok::<i64, TempError>(parse_val(s@) as i64),
        !parse_ok(s@) ==> r == Err::<i64, TempError>(parse_err(s@)),
{
    let t = trim_str(s);
    let n = t.unicode_len();
    if n == 0 {
        return Err(TempError::NotANumber);
    }
    let c0 = t.get_char(0);
    let neg = c0 == '-';
    let start: usize = if c0 == '-' || c0 == '+' {
        1
    } else {
        0
    };
    if start == n {
        return Err(TempError::NotANumber);
    }
    let ghost ds = t@.subrange(start as int, n as int);
    let mut i: usize = start;
    while i < n
        invariant
            start <= i <= n,
            start < n,
            n == t@.len(),
            t@ == trimmed(s@),
            ds == t@.subrange(start as int, n as int),
            start == 0 || start == 1,
            (start == 1) == (t@[0] == '-' || t@[0] == '+'),
            forall|j: int| 0 <= j < i - start ==> is_digit_char(ds[j]),
        decreases n - i,
    {
        let c = t.get_char(i);
        if !is_digit(c) {
            proof {
                assert(ds[i - start] == t@[i as int]);
                if start == 1 {
                    assert(!all_digits(t@.subrange(1, n as int)));
                } else {
                    assert(ds =~= t@);
                    assert(!all_digits(t@));
                }
            }
            return Err(TempError::NotANumber);
        }
        i = i + 1;
    }
    proof {
        assert(all_digits(ds));
        if start == 0 {
            assert(ds =~= t@);
        }
        assert(is_int_literal(t@));
        assert(int_literal_val(t@) == if t@[0] == '-' {
            -digits_val(ds)
        } else {
            digits_val(ds)
        });
        lemma_digits_val_nonneg(ds);
    }
    let ghost m_all = digits_val(ds);
    let mut acc: i64 = 0;
    let mut i2: usize = start;
    while i2 < n
        invariant
            start <= i2 <= n,
            start < n,
            n == t@.len(),
            t@ == trimmed(s@),
            ds == t@.subrange(start as int, n as int),
            start == 0 || start == 1,
            all_digits(ds),
            m_all == digits_val(ds),
            m_all >= 0,
            is_int_literal(t@),
            neg == (t@[0] == '-'),
            int_literal_val(t@) == if neg {
                -m_all
            } else {
                m_all
            },
            acc == -digits_val(ds.subrange(0, i2 - start)),
            acc <= 0,
        decreases n - i2,
    {
        let ghost k = i2 - start;
        let ghost mk = digits_val(ds.subrange(0, k));
        let c = t.get_char(i2);
        proof {
            assert(ds[k] == t@[i2 as int]);
            lemma_digits_val_step(ds, k);
            lemma_digits_val_prefix_le(ds, k + 1);
        }
        let d = (c as u32 - '0' as u32) as i64;
        let step1 = match acc.checked_mul(10) {
            Some(v) => v,
            None => {
                // the magnitude alone already exceeds the representable range
                proof {
                    assert(m_all >= 10 * mk + digit_val(ds[k]));
                }
                return Err(TempError::OutOfRange);
            },
        };
        let acc_next = match step1.checked_sub(d) {
            Some(v) => v,
            None => {
                proof {
                    assert(m_all >= 10 * mk + digit_val(ds[k]));
                }
                return Err(TempError::OutOfRange);
            },
        };
        acc = acc_next;
        i2 = i2 + 1;
        proof {
            assert(ds.subrange(0, k + 1).subrange(0, k) =~= ds.subrange(0, k));
        }
    }
    proof {
        assert(ds.subrange(0, n - start) =~= ds);
    }
    if neg {
        proof {
            assert(acc as int == int_literal_val(t@));
        }
        Ok(acc)
    } else if acc == i64::MIN {
        // the magnitude is one past the largest positive value
        Err(TempError::OutOfRange)
    } else {
        let v = -acc;
        proof {
            assert(v as int == int_literal_val(t@));
        }
        Ok(v)
    }
}

} // verus!
