//! Character-level helpers shared by the two line formats.

use vstd::prelude::*;

verus! {

/// Relies on `str::chars` collected into a `Vec`: the characters of `s`, in order.
#[verifier::external_body]
pub(crate) fn chars_of(s: &str) -> (r: Vec<char>)
    ensures
        r@ == s@,
{
    s.chars().collect()
}

/// Relies on `String`'s `FromIterator<char>`: the string made of `cs[from..to]`, in order.
#[verifier::external_body]
pub(crate) fn string_of(cs: &[char], from: usize, to: usize) -> (r: String)
    requires
        from <= to <= cs@.len(),
    ensures
        r@ == cs@.subrange(from as int, to as int),
{
    cs[from..to].iter().collect()
}

/// The models of a sequence of lines.
pub open spec fn lines_view(lines: Seq<String>) -> Seq<Seq<char>> {
    lines.map_values(|l: String| l@)
}

/// Whether `c` is an ASCII decimal digit.
pub open spec fn is_digit(c: char) -> bool {
    '0' <= c && c <= '9'
}

/// The value of the decimal digit `c`.
pub open spec fn digit_value(c: char) -> int {
    c as int - '0' as int
}

/// The character that writes the decimal digit `d` (for `0 <= d <= 9`).
pub open spec fn digit_char(d: int) -> char {
    (d + 48) as u8 as char
}

/// A digit's character reads back as that digit.
pub proof fn lemma_digit_round_trip(d: int)
    requires
        0 <= d <= 9,
    ensures
        is_digit(digit_char(d)),
        digit_value(digit_char(d)) == d,
{
}

/// A line that holds only spaces, tabs and carriage returns.
pub open spec fn is_blank(line: Seq<char>) -> bool {
    forall|i: int| 0 <= i < line.len() ==> (line[i] == ' ' || line[i] == '\t' || line[i] == '\r')
}

/// Whether `line` is blank.
pub fn blank(line: &[char]) -> (r: bool)
    ensures
        r == is_blank(line@),
{
    let mut i: usize = 0;
    while i < line.len()
        invariant
            i <= line@.len(),
            forall|j: int| 0 <= j < i ==> (line@[j] == ' ' || line@[j] == '\t' || line@[j] == '\r'),
        decreases line.len() - i,
    {
        let c = line[i];
        if !(c == ' ' || c == '\t' || c == '\r') {
            return false;
        }
        i = i + 1;
    }
    true
}

/// The character written for the decimal digit `d`.
pub fn digit_to_char(d: u32) -> (c: char)
    requires
        d <= 9,
    ensures
        c == digit_char(d as int),
        is_digit(c),
        digit_value(c) == d,
{
    let b: u8 = (d as u8) + 48;
    b as char
}

/// The position of the first `c` in `s`.
pub open spec fn find_char(s: Seq<char>, c: char) -> Option<int>
    decreases s.len(),
{
    if s.len() == 0 {
        None
    } else if s[0] == c {
        Some(0)
    } else {
        match find_char(s.drop_first(), c) {
            Some(k) => Some(k + 1),
            None => None,
        }
    }
}

/// `find_char` gives the first occurrence, and `None` only where there is none.
pub proof fn lemma_find_char(s: Seq<char>, c: char)
    ensures
        match find_char(s, c) {
            Some(k) => 0 <= k < s.len() && s[k] == c && forall|j: int| 0 <= j < k ==> s[j] != c,
            None => forall|j: int| 0 <= j < s.len() ==> s[j] != c,
        },
    decreases s.len(),
{
    if s.len() > 0 && s[0] != c {
        lemma_find_char(s.drop_first(), c);
        match find_char(s.drop_first(), c) {
            Some(k) => {
                assert forall|j: int| 0 <= j < k + 1 implies s[j] != c by {
                    if j > 0 {
                        assert(s[j] == s.drop_first()[j - 1]);
                    }
                }
            },
            None => {
                assert forall|j: int| 0 <= j < s.len() implies s[j] != c by {
                    if j > 0 {
                        assert(s[j] == s.drop_first()[j - 1]);
                    }
                }
            },
        }
    }
}

/// The position of the first `c` in `s` at or after `from`.
pub open spec fn find_from(s: Seq<char>, c: char, from: int) -> Option<int> {
    match find_char(s.subrange(from, s.len() as int), c) {
        Some(k) => Some(from + k),
        None => None,
    }
}

/// Where the run of characters other than `c` that starts at `from` ends.
pub open spec fn run_end(s: Seq<char>, c: char, from: int) -> int {
    match find_from(s, c, from) {
        Some(k) => k,
        None => s.len() as int,
    }
}

/// `find_from` is pinned down by the first `c` at or after `from`, or by its absence.
pub proof fn lemma_find_from(s: Seq<char>, c: char, from: int, k: int)
    requires
        0 <= from <= k <= s.len(),
        k < s.len() ==> s[k] == c,
        forall|j: int| from <= j < k ==> s[j] != c,
    ensures
        find_from(s, c, from) == (if k < s.len() { Some(k) } else { None::<int> }),
        run_end(s, c, from) == k,
{
    let sub = s.subrange(from, s.len() as int);
    lemma_find_char(sub, c);
    assert(forall|j: int| 0 <= j < sub.len() ==> sub[j] == s[from + j]);
    match find_char(sub, c) {
        Some(q) => {
            if q < k - from {
                assert(s[from + q] == c);
            }
            if k < s.len() {
                assert(sub[k - from] == c);
            }
        },
        None => {
            if k < s.len() {
                assert(sub[k - from] == c);
            }
        },
    }
}

/// Position of the first `c` in `s` at or after `from`.
pub fn find_in(s: &[char], c: char, from: usize) -> (r: Option<usize>)
    requires
        from <= s@.len(),
    ensures
        match find_from(s@, c, from as int) {
            Some(k) => r == Some(k as usize),
            None => r is None,
        },
        r matches Some(k) ==> from <= k < s@.len() && s@[k as int] == c,
        run_end(s@, c, from as int) == match r {
            Some(k) => k as int,
            None => s@.len() as int,
        },
{
    let mut i: usize = from;
    while i < s.len()
        invariant
            from <= i <= s@.len(),
            forall|j: int| from <= j < i ==> s@[j] != c,
        decreases s.len() - i,
    {
        if s[i] == c {
            proof {
                lemma_find_from(s@, c, from as int, i as int);
            }
            return Some(i);
        }
        i = i + 1;
    }
    proof {
        lemma_find_from(s@, c, from as int, s@.len() as int);
    }
    None
}

/// The value of a non-empty run of decimal digits.
pub open spec fn decimal_value(s: Seq<char>) -> int
    decreases s.len(),
{
    if s.len() == 0 {
        0
    } else {
        10 * decimal_value(s.drop_last()) + digit_value(s.last())
    }
}

pub open spec fn all_digits(s: Seq<char>) -> bool {
    s.len() > 0 && forall|i: int| 0 <= i < s.len() ==> is_digit(s[i])
}

/// The integer written in `s`: an optional `+` or `-`, then decimal digits.
pub open spec fn integer_of(s: Seq<char>) -> Option<int> {
    if s.len() > 0 && (s[0] == '-' || s[0] == '+') {
        let digits = s.subrange(1, s.len() as int);
        if all_digits(digits) {
            Some(
                if s[0] == '-' {
                    -decimal_value(digits)
                } else {
                    decimal_value(digits)
                },
            )
        } else {
            None
        }
    } else if all_digits(s) {
        Some(decimal_value(s))
    } else {
        None
    }
}

/// The `i64` written in `s`, `None` where `s` is no integer or it does not fit.
pub open spec fn i64_of(s: Seq<char>) -> Option<i64> {
    match integer_of(s) {
        Some(v) => if i64::MIN <= v <= i64::MAX {
            Some(v as i64)
        } else {
            None
        },
        None => None,
    }
}

proof fn lemma_decimal_nonneg(s: Seq<char>, i: int)
    requires
        0 <= i <= s.len(),
        forall|k: int| 0 <= k < s.len() ==> is_digit(s[k]),
    ensures
        0 <= decimal_value(s.subrange(0, i)),
    decreases i,
{
    if i > 0 {
        lemma_decimal_nonneg(s, i - 1);
        assert(s.subrange(0, i).drop_last() =~= s.subrange(0, i - 1));
    }
}

proof fn lemma_decimal_grows(s: Seq<char>, i: int, j: int)
    requires
        0 <= i <= j <= s.len(),
        forall|k: int| 0 <= k < s.len() ==> is_digit(s[k]),
    ensures
        decimal_value(s.subrange(0, i)) <= decimal_value(s.subrange(0, j)),
    decreases j,
{
    if i < j {
        lemma_decimal_grows(s, i, j - 1);
        lemma_decimal_nonneg(s, j - 1);
        assert(s.subrange(0, j).drop_last() =~= s.subrange(0, j - 1));
    }
}

/// Reads the integer in `s[start..end]` as an `i64`.
pub fn parse_i64(s: &[char], start: usize, end: usize) -> (r: Option<i64>)
    requires
        start <= end <= s@.len(),
    ensures
        r == i64_of(s@.subrange(start as int, end as int)),
{
    let ghost f = s@.subrange(start as int, end as int);
    let mut i: usize = start;
    let mut negative = false;
    if start < end && (s[start] == '-' || s[start] == '+') {
        negative = s[start] == '-';
        i = start + 1;
    }
    let first = i;
    let ghost digits = s@.subrange(first as int, end as int);
    if first == end {
        return None;
    }
    let mut j: usize = first;
    while j < end
        invariant
            first <= j <= end <= s@.len(),
            start <= first,
            digits == s@.subrange(first as int, end as int),
            f == s@.subrange(start as int, end as int),
            first == start + 1 <==> (start < end && (s@[start as int] == '-' || s@[start as int] == '+')),
            first == start || first == start + 1,
            forall|k: int| first <= k < j ==> is_digit(s@[k]),
        decreases end - j,
    {
        if !('0' <= s[j] && s[j] <= '9') {
            proof {
                assert(!is_digit(digits[j - first]));
                assert(f.len() > 0 && (f[0] == '-' || f[0] == '+') ==> f.subrange(1, f.len() as int)
                    =~= digits);
                assert(!(f.len() > 0 && (f[0] == '-' || f[0] == '+')) ==> f =~= digits);
            }
            return None;
        }
        j = j + 1;
    }
    let bound: i128 = 9223372036854775808;
    let mut acc: i128 = 0;
    let mut k: usize = first;
    while k < end
        invariant
            first <= k <= end <= s@.len(),
            start <= first,
            bound == 9223372036854775808,
            digits == s@.subrange(first as int, end as int),
            f == s@.subrange(start as int, end as int),
            first == start + 1 <==> (start < end && (s@[start as int] == '-' || s@[start as int] == '+')),
            first == start || first == start + 1,
            negative <==> (first == start + 1 && s@[start as int] == '-'),
            forall|q: int| 0 <= q < digits.len() ==> is_digit(digits[q]),
            acc == decimal_value(digits.subrange(0, k - first)),
            0 <= acc <= bound,
        decreases end - k,
    {
        proof {
            assert(digits.subrange(0, k + 1 - first).drop_last() =~= digits.subrange(0, k - first));
            assert(digits[k - first] == s@[k as int]);
        }
        let d: u32 = s[k] as u32 - 48;
        acc = acc * 10 + d as i128;
        k = k + 1;
        if acc > bound {
            proof {
                lemma_decimal_grows(digits, k - first, digits.len() as int);
                assert(digits.subrange(0, digits.len() as int) =~= digits);
                assert(f.len() > 0 && (f[0] == '-' || f[0] == '+') ==> f.subrange(1, f.len() as int)
                    =~= digits);
                assert(!(f.len() > 0 && (f[0] == '-' || f[0] == '+')) ==> f =~= digits);
            }
            return None;
        }
    }
    proof {
        assert(digits.subrange(0, k - first) =~= digits);
        assert(f.len() > 0 && (f[0] == '-' || f[0] == '+') ==> f.subrange(1, f.len() as int)
            =~= digits);
        assert(!(f.len() > 0 && (f[0] == '-' || f[0] == '+')) ==> f =~= digits);
    }
    if negative {
        Some((-acc) as i64)
    } else if acc < bound {
        Some(acc as i64)
    } else {
        None
    }
}

} // verus!
