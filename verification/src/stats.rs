//! Free-standing numeric helpers: the median of a sorted sample and the
//! year prefix of an ISO-style date string.

use vstd::prelude::*;
use vstd::string::StrSliceExecFns;
use crate::ratio::Ratio;

verus! {

/// The median of a sample, assumed already sorted ascending by the caller:
/// the middle value for an odd-sized sample, the mean of the two middle
/// values for an even-sized one, and exactly zero for an empty one.
pub open spec fn spec_median(s: Seq<u32>) -> Ratio {
    let n = s.len() as int;
    if n == 0 {
        Ratio { num: 0u128, den: 1u128 }
    } else if n % 2 == 0 {
        Ratio { num: (s[n / 2 - 1] + s[n / 2]) as u128, den: 2u128 }
    } else {
        Ratio { num: s[n / 2] as u128, den: 1u128 }
    }
}

/// Median of `data`, which the caller has sorted ascending.  Returns the
/// exact rational value: `(a + b) / 2` for even sizes, the single middle
/// value for odd sizes, and `0 / 1` for an empty sample.
pub fn calculate_median(data: &Vec<u32>) -> (r: Ratio)
    ensures
        r == spec_median(data@),
        r.wf(),
{
    let n = data.len();
    if n == 0 {
        return Ratio::zero();
    }
    let mid = n / 2;
    if n % 2 == 0 {
        let a = data[mid - 1];
        let b = data[mid];
        Ratio { num: a as u128 + b as u128, den: 2 }
    } else {
        Ratio { num: data[mid] as u128, den: 1 }
    }
}

/// Whether `c` is an ASCII decimal digit.
pub open spec fn is_digit_char(c: char) -> bool {
    '0' as u32 <= c as u32 && c as u32 <= '9' as u32
}

/// Numeric value of a digit character.
pub open spec fn digit_val(c: char) -> int {
    c as u32 - '0' as u32
}

/// Whether every character of `s` is an ASCII decimal digit.
pub open spec fn all_digits(s: Seq<char>) -> bool {
    forall|i: int| 0 <= i < s.len() ==> is_digit_char(s[i])
}

/// The base-ten value of a digit string.
pub open spec fn digits_val(s: Seq<char>) -> int
    decreases s.len(),
{
    if s.len() == 0 {
        0
    } else {
        digits_val(s.drop_last()) * 10 + digit_val(s.last())
    }
}

/// Index of the first `'-'` in `s`, or `s.len()` if there is none.
pub open spec fn first_dash(s: Seq<char>) -> int
    decreases s.len(),
{
    if s.len() == 0 {
        0
    } else if s[0] == '-' {
        0
    } else {
        1 + first_dash(s.drop_first())
    }
}

/// `s` with one leading `'+'` removed, as the unsigned-integer grammar
/// of the standard library allows.
pub open spec fn strip_plus(s: Seq<char>) -> Seq<char> {
    if s.len() > 0 && s[0] == '+' {
        s.drop_first()
    } else {
        s
    }
}

/// Whether `s` parses as a `u32`: an optional leading `'+'`, then at
/// least one digit, with a value no greater than `u32::MAX`.
pub open spec fn parses_as_u32(s: Seq<char>) -> bool {
    let b = strip_plus(s);
    b.len() > 0 && all_digits(b) && digits_val(b) <= u32::MAX
}

/// The year encoded by a date string: the prefix before the first `'-'`
/// read as a `u32`, or `0` when that prefix does not parse as one.
pub open spec fn year_of_date(s: Seq<char>) -> u32 {
    let p = s.subrange(0, first_dash(s));
    if parses_as_u32(p) {
        digits_val(strip_plus(p)) as u32
    } else {
        0u32
    }
}

proof fn lemma_first_dash_at(s: Seq<char>, k: int)
    requires
        0 <= k <= s.len(),
        forall|i: int| 0 <= i < k ==> s[i] != '-',
        k < s.len() ==> s[k] == '-',
    ensures
        first_dash(s) == k,
    decreases s.len(),
{
    if s.len() == 0 {
    } else if k == 0 {
    } else {
        let t = s.drop_first();
        assert(forall|i: int| 0 <= i < k - 1 ==> t[i] == s[i + 1] && t[i] != '-');
        assert(k - 1 < t.len() ==> t[k - 1] == s[k] && t[k - 1] == '-');
        lemma_first_dash_at(t, k - 1);
    }
}

proof fn lemma_digits_val_nonneg(s: Seq<char>)
    requires
        all_digits(s),
    ensures
        digits_val(s) >= 0,
    decreases s.len(),
{
    if s.len() > 0 {
        let t = s.drop_last();
        assert(forall|i: int| 0 <= i < t.len() ==> t[i] == s[i]);
        lemma_digits_val_nonneg(t);
    }
}

proof fn lemma_digits_val_prefix(s: Seq<char>, j: int)
    requires
        all_digits(s),
        0 <= j <= s.len(),
    ensures
        digits_val(s.subrange(0, j)) <= digits_val(s),
    decreases s.len() - j,
{
    if j == s.len() {
        assert(s.subrange(0, j) =~= s);
    } else {
        let t = s.subrange(0, j + 1);
        assert(t.drop_last() =~= s.subrange(0, j));
        lemma_digits_val_nonneg(s.subrange(0, j));
        assert(digits_val(t) == digits_val(s.subrange(0, j)) * 10 + digit_val(s[j]));
        assert(digits_val(s.subrange(0, j)) <= digits_val(t));
        lemma_digits_val_prefix(s, j + 1);
    }
}

/// Year prefix of `date`: everything before the first `'-'`, read as a
/// `u32`; any string whose prefix is not a valid `u32` yields `0`.
pub fn parse_year_from_date(date: &str) -> (r: u32)
    ensures
        r == year_of_date(date@),
{
    let ghost s = date@;
    let len = date.unicode_len();

    let mut k: usize = 0;
    loop
        invariant
            s == date@,
            0 <= k <= len,
            len == s.len(),
            forall|i: int| 0 <= i < k ==> s[i] != '-',
        ensures
            0 <= k <= len,
            forall|i: int| 0 <= i < k ==> s[i] != '-',
            k < len ==> s[k as int] == '-',
        decreases len - k,
    {
        if k == len {
            break;
        }
        if date.get_char(k) == '-' {
            break;
        }
        k += 1;
    }
    proof {
        lemma_first_dash_at(s, k as int);
    }
    let ghost p = s.subrange(0, k as int);

    let mut start: usize = 0;
    if k > 0 && date.get_char(0) == '+' {
        start = 1;
    }
    let ghost b = s.subrange(start as int, k as int);
    proof {
        assert(strip_plus(p) =~= b);
    }
    if start == k {
        // The prefix is empty, or a bare sign: not a number.
        return 0;
    }

    let mut val: u64 = 0;
    let mut i: usize = start;
    while i < k
        invariant
            s == date@,
            start <= i <= k <= len,
            len == s.len(),
            start < k,
            first_dash(s) == k as int,
            p == s.subrange(0, k as int),
            b == s.subrange(start as int, k as int),
            b == strip_plus(p),
            forall|j: int| start <= j < i ==> is_digit_char(s[j]),
            val == digits_val(s.subrange(start as int, i as int)),
            val <= u32::MAX,
        decreases k - i,
    {
        let c = date.get_char(i);
        let d = c as u32;
        if d < 48 || d > 57 {
            // A non-digit in the prefix: the whole prefix is invalid.
            assert(!is_digit_char(b[i as int - start as int]));
            return 0;
        }
        proof {
            let pre = s.subrange(start as int, i as int);
            let ext = s.subrange(start as int, i as int + 1);
            assert(ext.drop_last() =~= pre);
            assert(ext.last() == s[i as int]);
        }
        val = val * 10 + (d - 48) as u64;
        i += 1;
        if val > u32::MAX as u64 {
            // The value already exceeds u32::MAX, and appending further
            // digits can only grow it.
            proof {
                if all_digits(b) {
                    assert(s.subrange(start as int, i as int)
                        =~= b.subrange(0, i - start as int));
                    lemma_digits_val_prefix(b, i - start as int);
                }
            }
            return 0;
        }
    }
    proof {
        assert(s.subrange(start as int, i as int) =~= b);
        assert(all_digits(b)) by {
            assert(forall|j: int| 0 <= j < b.len() ==> b[j] == s[j + start as int]);
        }
    }
    val as u32
}

} // verus!
