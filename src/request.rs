use vstd::prelude::*;

verus! {

/// `c` is an ASCII decimal digit.
pub open spec fn is_digit(c: char) -> bool {
    '0' <= c && c <= '9'
}

/// The number that a string of decimal digits denotes.
pub open spec fn digits_value(s: Seq<char>) -> int
    decreases s.len(),
{
    if s.len() == 0 {
        0
    } else {
        digits_value(s.drop_last()) * 10 + (s.last() as int - '0' as int)
    }
}

/// `s` is one or more decimal digits.
pub open spec fn all_digits(s: Seq<char>) -> bool {
    s.len() > 0 && forall|i: int| 0 <= i < s.len() ==> is_digit(#[trigger] s[i])
}

/// The integer that `s` writes: decimal digits, after an optional minus sign.
pub open spec fn integer_text_value(s: Seq<char>) -> Option<int> {
    if s.len() > 0 && s[0] == '-' {
        if all_digits(s.drop_first()) {
            Some(-digits_value(s.drop_first()))
        } else {
            None
        }
    } else if all_digits(s) {
        Some(digits_value(s))
    } else {
        None
    }
}

proof fn lemma_digits_value_nonneg(s: Seq<char>)
    requires
        forall|i: int| 0 <= i < s.len() ==> is_digit(#[trigger] s[i]),
    ensures
        digits_value(s) >= 0,
    decreases s.len(),
{
    if s.len() > 0 {
        lemma_digits_value_nonneg(s.drop_last());
    }
}

proof fn lemma_digits_value_grows(s: Seq<char>, c: char)
    requires
        forall|i: int| 0 <= i < s.len() ==> is_digit(#[trigger] s[i]),
        is_digit(c),
    ensures
        digits_value(s.push(c)) >= digits_value(s),
{
    lemma_digits_value_nonneg(s);
    assert(s.push(c).drop_last() =~= s);
}

/// Reads a whole number of seconds (a timestamp or a bucket width) written
/// in decimal, with an optional leading minus sign. `None` when the text is
/// not of that form or its value does not fit in an `i64`.
pub fn parse_seconds(text: &str) -> (r: Option<i64>)
    ensures
        r is Some <==> (integer_text_value(text@) is Some && i64::MIN <= integer_text_value(
            text@,
        )->Some_0 <= i64::MAX),
        r is Some ==> r->Some_0 as int == integer_text_value(text@)->Some_0,
{
    let n = text.unicode_len();
    if n == 0 {
        return None;
    }
    let negative = text.get_char(0) == '-';
    let first: usize = if negative { 1 } else { 0 };
    let ghost digits = text@.subrange(first as int, n as int);
    proof {
        if negative {
            assert(digits =~= text@.drop_first());
        } else {
            assert(digits =~= text@);
        }
    }
    if first == n {
        return None;
    }
    let limit: i128 = if negative { 0x8000_0000_0000_0000 } else { 0x7fff_ffff_ffff_ffff };
    let mut value: i128 = 0;
    let mut i: usize = first;
    while i < n
        invariant
            n == text@.len(),
            first <= i <= n,
            first == (if negative { 1usize } else { 0usize }),
            digits == text@.subrange(first as int, n as int),
            n > 0,
            negative == (text@[0] == '-'),
            digits == (if negative { text@.drop_first() } else { text@ }),
            forall|k: int| first <= k < i ==> is_digit(#[trigger] text@[k]),
            value as int == digits_value(text@.subrange(first as int, i as int)),
            0 <= value <= limit,
            limit == (if negative { 0x8000_0000_0000_0000i128 } else { 0x7fff_ffff_ffff_ffffi128 }),
        decreases n - i,
    {
        let c = text.get_char(i);
        let ghost done = text@.subrange(first as int, i as int);
        if c < '0' || c > '9' {
            assert(digits[i - first] == c);
            assert(!is_digit(c));
            assert(!all_digits(digits));
            assert(integer_text_value(text@) is None);
            return None;
        }
        proof {
            assert(text@.subrange(first as int, i + 1) =~= done.push(c));
            assert(done.push(c).drop_last() =~= done);
        }
        let d: i128 = (c as u32 - '0' as u32) as i128;
        value = value * 10 + d;
        if value > limit {
            proof {
                if all_digits(digits) {
                    assert forall|k: int| first <= k < n implies is_digit(#[trigger] text@[k]) by {
                        assert(text@[k] == digits[k - first]);
                    }
                    lemma_grows_to(text@, first as int, i + 1, n as int);
                    assert(digits_value(text@.subrange(first as int, i + 1)) == value);
                    assert(digits_value(digits) > limit);
                }
            }
            return None;
        }
        i = i + 1;
    }
    assert(text@.subrange(first as int, n as int) =~= digits);
    if negative {
        Some((-value) as i64)
    } else {
        Some(value as i64)
    }
}

proof fn lemma_grows_to(s: Seq<char>, first: int, i: int, m: int)
    requires
        0 <= first <= i <= m <= s.len(),
        forall|k: int| first <= k < m ==> is_digit(#[trigger] s[k]),
    ensures
        digits_value(s.subrange(first, m)) >= digits_value(s.subrange(first, i)),
    decreases m - i,
{
    if m > i {
        lemma_grows_to(s, first, i, m - 1);
        assert(s.subrange(first, m) =~= s.subrange(first, m - 1).push(s[m - 1]));
        lemma_digits_value_grows(s.subrange(first, m - 1), s[m - 1]);
    }
}

} // verus!
