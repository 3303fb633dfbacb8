use vstd::prelude::*;

use crate::read_logs::num12_split;
use crate::scan::{at_is, check_digits, digit_pred, digits_at, digits_val, parse_digits, to_chars};

verus! {

// ---------------------------------------------------------------------------
// The `YYYY-M-D` date grammar used to validate requested day labels:
// four year digits, a dash, one or two month digits, a dash, one or
// two day digits.  The pattern may start anywhere in the text; the
// earliest match wins, and text after the day digits is ignored.
// ---------------------------------------------------------------------------

/// The dash terminator of a date's fields.
pub open spec fn dash_pred() -> spec_fn(char) -> bool {
    |c: char| c == '-'
}

/// One or two digits at `p`, the longer reading first, with nothing
/// required after them.
pub open spec fn num12_free(s: Seq<char>, p: int) -> Option<(int, Seq<char>)> {
    if digits_at(s, p, 2) {
        Some((p + 2, s.subrange(p, p + 2)))
    } else if digits_at(s, p, 1) {
        Some((p + 1, s.subrange(p, p + 1)))
    } else {
        None
    }
}

/// The year, month and day read by a date match that starts exactly at
/// position `p`.
pub open spec fn date_match_at(s: Seq<char>, p: int) -> Option<(int, int, int)> {
    if digits_at(s, p, 4) && at_is(s, p + 4, '-') {
        match num12_split(s, p + 5, dash_pred()) {
            Some((q, month)) => match num12_free(s, q) {
                Some((_, day)) => Some(
                    (digits_val(s.subrange(p, p + 4)), digits_val(month), digits_val(day)),
                ),
                None => None,
            },
            None => None,
        }
    } else {
        None
    }
}

/// The earliest date match at or after position `p`.
pub open spec fn date_search(s: Seq<char>, p: int) -> Option<(int, int, int)>
    decreases s.len() - p,
{
    if p < 0 || p >= s.len() {
        None
    } else if date_match_at(s, p) is Some {
        date_match_at(s, p)
    } else {
        date_search(s, p + 1)
    }
}

/// What `parse_date` reads from a text: the earliest date match in it.
pub open spec fn spec_parse_date(s: Seq<char>) -> Option<(int, int, int)> {
    date_search(s, 0)
}

/// When nothing matches before `p`, the search from the start is the
/// search from `p`.
proof fn lemma_search_skip(s: Seq<char>, p: int)
    requires
        0 <= p <= s.len(),
        forall|q: int| 0 <= q < p ==> date_match_at(s, q) is None,
    ensures
        date_search(s, 0) == date_search(s, p),
    decreases p,
{
    if p > 0 {
        lemma_search_skip(s, p - 1);
    }
}

/// The date match starting exactly at `p`, with its values.
fn match_date_at(s: &Vec<char>, p: usize) -> (r: Option<(i32, i32, i32)>)
    requires
        p <= s.len(),
    ensures
        match r {
            Some((y, m, d)) => date_match_at(s@, p as int) == Some((y as int, m as int, d as int)),
            None => date_match_at(s@, p as int) is None,
        },
{
    if !check_digits(s, p, 4) {
        return None;
    }
    if p + 4 == s.len() || s[p + 4] != '-' {
        return None;
    }
    let q: usize = p + 5;
    let m_lo: usize;
    let m_hi: usize;
    let mq: usize;
    if check_digits(s, q, 2) && q + 2 < s.len() && s[q + 2] == '-' {
        m_lo = q;
        m_hi = q + 2;
        mq = q + 3;
    } else if check_digits(s, q, 1) && q + 1 < s.len() && s[q + 1] == '-' {
        m_lo = q;
        m_hi = q + 1;
        mq = q + 2;
    } else {
        assert(num12_split(s@, q as int, dash_pred()) is None);
        return None;
    }
    assert(num12_split(s@, q as int, dash_pred()) == Some(
        (mq as int, s@.subrange(m_lo as int, m_hi as int)),
    ));
    let d_hi: usize;
    if check_digits(s, mq, 2) {
        d_hi = mq + 2;
    } else if check_digits(s, mq, 1) {
        d_hi = mq + 1;
    } else {
        assert(num12_free(s@, mq as int) is None);
        return None;
    }
    assert(num12_free(s@, mq as int) == Some(
        (d_hi as int, s@.subrange(mq as int, d_hi as int)),
    ));
    let year = parse_digits(s, p, p + 4);
    let month = parse_digits(s, m_lo, m_hi);
    let day = parse_digits(s, mq, d_hi);
    Some((year as i32, month as i32, day as i32))
}

/// Finds a `YYYY-M-D` date inside `date_str` and reads its numeric
/// year, month and day; yields nothing when no such date occurs.
pub fn parse_date(date_str: &str) -> (r: Option<(i32, i32, i32)>)
    ensures
        match r {
            Some((y, m, d)) => spec_parse_date(date_str@) == Some(
                (y as int, m as int, d as int),
            ),
            None => spec_parse_date(date_str@) is None,
        },
{
    let s = to_chars(date_str);
    let n = s.len();
    let mut p: usize = 0;
    while p < n
        invariant
            0 <= p <= n,
            n == s.len(),
            s@ == date_str@,
            forall|q: int| 0 <= q < p ==> date_match_at(s@, q) is None,
        decreases n - p,
    {
        match match_date_at(&s, p) {
            Some(t) => {
                proof {
                    lemma_search_skip(s@, p as int);
                }
                return Some(t);
            },
            None => {
            },
        }
        p = p + 1;
    }
    proof {
        lemma_search_skip(s@, n as int);
    }
    None
}

} // verus!
