use vstd::prelude::*;

verus! {

// ---------------------------------------------------------------------------
// Character classes of the log-line grammar.
// ---------------------------------------------------------------------------

/// ASCII decimal digit.
pub open spec fn is_digit_char(c: char) -> bool {
    '0' <= c && c <= '9'
}

/// ASCII whitespace: the separators accepted between the fields of a line.
pub open spec fn is_ws_char(c: char) -> bool {
    c == ' ' || c == '\t' || c == '\n' || c == '\r' || c == '\x0b' || c == '\x0c'
}

/// ASCII letter or digit: the characters of a tag label.
pub open spec fn is_alnum_char(c: char) -> bool {
    is_digit_char(c) || ('a' <= c && c <= 'z') || ('A' <= c && c <= 'Z')
}

/// A character allowed in a destination domain: letters, digits,
/// hyphen and dot.
pub open spec fn is_domain_char(c: char) -> bool {
    is_alnum_char(c) || c == '-' || c == '.'
}

/// The digit class, as a value, so that every spec speaks of one and
/// the same predicate.
pub open spec fn digit_pred() -> spec_fn(char) -> bool {
    |c: char| is_digit_char(c)
}

/// The tag-label class, as a value.
pub open spec fn alnum_pred() -> spec_fn(char) -> bool {
    |c: char| is_alnum_char(c)
}

/// The domain class, as a value.
pub open spec fn domain_pred() -> spec_fn(char) -> bool {
    |c: char| is_domain_char(c)
}

pub(crate) fn digit_char(c: char) -> (r: bool)
    ensures
        r == is_digit_char(c),
{
    '0' <= c && c <= '9'
}

pub(crate) fn ws_char(c: char) -> (r: bool)
    ensures
        r == is_ws_char(c),
{
    c == ' ' || c == '\t' || c == '\n' || c == '\r' || c == '\x0b' || c == '\x0c'
}

pub(crate) fn alnum_char(c: char) -> (r: bool)
    ensures
        r == is_alnum_char(c),
{
    digit_char(c) || ('a' <= c && c <= 'z') || ('A' <= c && c <= 'Z')
}

pub(crate) fn domain_char(c: char) -> (r: bool)
    ensures
        r == is_domain_char(c),
{
    alnum_char(c) || c == '-' || c == '.'
}

// ---------------------------------------------------------------------------
// Positional predicates over a character sequence.
// ---------------------------------------------------------------------------

/// `n` decimal digits stand at position `p` of `s`.
pub open spec fn digits_at(s: Seq<char>, p: int, n: int) -> bool {
    0 <= p && 0 <= n && p + n <= s.len() && forall|j: int|
        p <= j < p + n ==> is_digit_char(#[trigger] s[j])
}

/// The character `c` stands at position `p` of `s`.
pub open spec fn at_is(s: Seq<char>, p: int, c: char) -> bool {
    0 <= p < s.len() && s[p] == c
}

/// The token `tok` stands verbatim at position `p` of `s`.
pub open spec fn token_at(s: Seq<char>, p: int, tok: Seq<char>) -> bool {
    0 <= p && p + tok.len() <= s.len() && forall|j: int|
        0 <= j < tok.len() ==> s[p + j] == #[trigger] tok[j]
}

/// Length of the maximal run of characters satisfying `pred` that
/// starts at position `p` of `s`.
pub open spec fn run_len(s: Seq<char>, p: int, pred: spec_fn(char) -> bool) -> int
    decreases s.len() - p,
{
    if 0 <= p < s.len() && pred(s[p]) {
        1 + run_len(s, p + 1, pred)
    } else {
        0
    }
}

/// The run starting at `p` stays in bounds, consists of `pred`
/// characters, and is maximal.
pub(crate) proof fn lemma_run_len(s: Seq<char>, p: int, pred: spec_fn(char) -> bool)
    requires
        0 <= p <= s.len(),
    ensures
        0 <= run_len(s, p, pred),
        p + run_len(s, p, pred) <= s.len(),
        forall|j: int| p <= j < p + run_len(s, p, pred) ==> pred(#[trigger] s[j]),
        p + run_len(s, p, pred) < s.len() ==> !pred(s[p + run_len(s, p, pred)]),
    decreases s.len() - p,
{
    if p < s.len() && pred(s[p]) {
        lemma_run_len(s, p + 1, pred);
    }
}

/// A stretch of `pred` characters from `p` to `q`, followed by a
/// non-`pred` character or the end of `s`, is exactly the maximal run.
proof fn lemma_run_len_exact(s: Seq<char>, p: int, q: int, pred: spec_fn(char) -> bool)
    requires
        0 <= p <= q <= s.len(),
        forall|j: int| p <= j < q ==> pred(#[trigger] s[j]),
        q < s.len() ==> !pred(s[q]),
    ensures
        run_len(s, p, pred) == q - p,
    decreases q - p,
{
    if p < q {
        lemma_run_len_exact(s, p + 1, q, pred);
    }
}

// ---------------------------------------------------------------------------
// Executable scanners over a vector of characters.
// ---------------------------------------------------------------------------

/// Maximal run of decimal digits starting at `p`.
pub(crate) fn scan_digits(s: &Vec<char>, p: usize) -> (q: usize)
    requires
        p <= s.len(),
    ensures
        q - p == run_len(s@, p as int, digit_pred()),
        p <= q <= s.len(),
{
    let mut i: usize = p;
    while i < s.len() && digit_char(s[i])
        invariant
            p <= i <= s.len(),
            forall|j: int| p <= j < i ==> is_digit_char(#[trigger] s@[j]),
        decreases s.len() - i,
    {
        i = i + 1;
    }
    proof {
        lemma_run_len_exact(s@, p as int, i as int, digit_pred());
    }
    i
}

/// Maximal run of tag-label characters starting at `p`.
pub(crate) fn scan_alnum(s: &Vec<char>, p: usize) -> (q: usize)
    requires
        p <= s.len(),
    ensures
        q - p == run_len(s@, p as int, alnum_pred()),
        p <= q <= s.len(),
{
    let mut i: usize = p;
    while i < s.len() && alnum_char(s[i])
        invariant
            p <= i <= s.len(),
            forall|j: int| p <= j < i ==> is_alnum_char(#[trigger] s@[j]),
        decreases s.len() - i,
    {
        i = i + 1;
    }
    proof {
        lemma_run_len_exact(s@, p as int, i as int, alnum_pred());
    }
    i
}

/// Maximal run of domain characters starting at `p`.
pub(crate) fn scan_domain(s: &Vec<char>, p: usize) -> (q: usize)
    requires
        p <= s.len(),
    ensures
        q - p == run_len(s@, p as int, domain_pred()),
        p <= q <= s.len(),
{
    let mut i: usize = p;
    while i < s.len() && domain_char(s[i])
        invariant
            p <= i <= s.len(),
            forall|j: int| p <= j < i ==> is_domain_char(#[trigger] s@[j]),
        decreases s.len() - i,
    {
        i = i + 1;
    }
    proof {
        lemma_run_len_exact(s@, p as int, i as int, domain_pred());
    }
    i
}

/// `n` digits stand at `p`: executable form of `digits_at`.
pub(crate) fn check_digits(s: &Vec<char>, p: usize, n: usize) -> (r: bool)
    ensures
        r == digits_at(s@, p as int, n as int),
{
    if p > s.len() || n > s.len() - p {
        return false;
    }
    let mut i: usize = p;
    while i < p + n
        invariant
            p <= i <= p + n,
            p + n <= s.len(),
            forall|j: int| p <= j < i ==> is_digit_char(#[trigger] s@[j]),
        decreases p + n - i,
    {
        if !digit_char(s[i]) {
            return false;
        }
        i = i + 1;
    }
    true
}

/// The token `tok` stands at `p`: executable form of `token_at`.
pub(crate) fn check_token(s: &Vec<char>, p: usize, tok: &Vec<char>) -> (r: bool)
    ensures
        r == token_at(s@, p as int, tok@),
{
    if p > s.len() || tok.len() > s.len() - p {
        return false;
    }
    let mut i: usize = 0;
    while i < tok.len()
        invariant
            0 <= i <= tok.len(),
            p + tok.len() <= s.len(),
            forall|j: int| 0 <= j < i ==> s@[p + j] == #[trigger] tok@[j],
        decreases tok.len() - i,
    {
        if s[p + i] != tok[i] {
            return false;
        }
        i = i + 1;
    }
    true
}

// ---------------------------------------------------------------------------
// Numeric value of a digit string.
// ---------------------------------------------------------------------------

/// Value of one decimal digit.
pub open spec fn digit_val(c: char) -> int {
    c as int - '0' as int
}

/// Value of a string of decimal digits, most significant first.
pub open spec fn digits_val(s: Seq<char>) -> int
    decreases s.len(),
{
    if s.len() == 0 {
        0
    } else {
        digits_val(s.drop_last()) * 10 + digit_val(s.last())
    }
}

/// Ten to the `n`.
pub open spec fn pow10(n: nat) -> int
    decreases n,
{
    if n == 0 {
        1
    } else {
        10 * pow10((n - 1) as nat)
    }
}

/// Parses the digits of `s` between `from` and `to` as a number.
/// At most five digits, so the value fits well within `u32`.
pub(crate) fn parse_digits(s: &Vec<char>, from: usize, to: usize) -> (v: u32)
    requires
        from <= to <= s.len(),
        to - from <= 5,
        forall|j: int| from <= j < to ==> is_digit_char(#[trigger] s@[j]),
    ensures
        v == digits_val(s@.subrange(from as int, to as int)),
        v < 100000,
{
    let mut i: usize = from;
    let mut v: u32 = 0;
    proof {
        assert(s@.subrange(from as int, from as int) =~= Seq::<char>::empty());
    }
    while i < to
        invariant
            from <= i <= to <= s.len(),
            to - from <= 5,
            forall|j: int| from <= j < to ==> is_digit_char(#[trigger] s@[j]),
            v == digits_val(s@.subrange(from as int, i as int)),
            v < pow10((i - from) as nat),
        decreases to - i,
    {
        let c = s[i];
        proof {
            reveal_with_fuel(pow10, 6);
            let prefix = s@.subrange(from as int, i as int);
            let next = s@.subrange(from as int, i as int + 1);
            assert(next.drop_last() =~= prefix);
            assert(next.last() == s@[i as int]);
            assert(is_digit_char(s@[i as int]));
            assert(pow10(((i + 1) - from) as nat) == 10 * pow10((i - from) as nat));
            assert(pow10((i - from) as nat) <= pow10(4nat)) by {
                lemma_pow10_le((i - from) as nat, 4nat);
            }
        }
        v = v * 10 + (c as u32 - '0' as u32);
        i = i + 1;
    }
    proof {
        reveal_with_fuel(pow10, 6);
        assert(pow10((i - from) as nat) <= pow10(5nat)) by {
            lemma_pow10_le((i - from) as nat, 5nat);
        }
    }
    v
}

/// `pow10` grows with its argument.
proof fn lemma_pow10_le(a: nat, b: nat)
    requires
        a <= b,
    ensures
        pow10(a) <= pow10(b),
    decreases b,
{
    if a < b {
        lemma_pow10_le(a, (b - 1) as nat);
        assert(pow10(b) == 10 * pow10((b - 1) as nat));
        assert(pow10((b - 1) as nat) >= 1) by {
            lemma_pow10_pos((b - 1) as nat);
        }
    }
}

/// `pow10` is positive.
proof fn lemma_pow10_pos(n: nat)
    ensures
        pow10(n) >= 1,
    decreases n,
{
    if n > 0 {
        lemma_pow10_pos((n - 1) as nat);
    }
}

// ---------------------------------------------------------------------------
// From text to characters.
// ---------------------------------------------------------------------------

/// The characters of `s`, as a vector.
pub(crate) fn to_chars(s: &str) -> (r: Vec<char>)
    ensures
        r@ == s@,
{
    let n = s.unicode_len();
    let mut r: Vec<char> = Vec::new();
    let mut i: usize = 0;
    while i < n
        invariant
            0 <= i <= n,
            n == s@.len(),
            r@ == s@.subrange(0, i as int),
        decreases n - i,
    {
        let c = s.get_char(i);
        r.push(c);
        proof {
            assert(r@ =~= s@.subrange(0, i as int + 1));
        }
        i = i + 1;
    }
    proof {
        assert(r@ =~= s@);
    }
    r
}

// ---------------------------------------------------------------------------
// Substring containment, as the store's day queries use it.
// ---------------------------------------------------------------------------

/// `needle` stands verbatim at position `i` of `hay`.
pub open spec fn matches_at(hay: Seq<char>, needle: Seq<char>, i: int) -> bool {
    token_at(hay, i, needle)
}

/// `needle` occurs somewhere inside `hay`.
pub open spec fn contains_str(hay: Seq<char>, needle: Seq<char>) -> bool {
    exists|i: int| matches_at(hay, needle, i)
}

/// Whether `needle` occurs inside `hay`.
pub(crate) fn str_contains(hay: &Vec<char>, needle: &Vec<char>) -> (r: bool)
    ensures
        r == contains_str(hay@, needle@),
{
    if needle.len() > hay.len() {
        proof {
            assert(forall|i: int| !matches_at(hay@, needle@, i));
        }
        return false;
    }
    let mut i: usize = 0;
    while i <= hay.len() - needle.len()
        invariant
            needle.len() <= hay.len(),
            0 <= i <= hay.len() - needle.len() + 1,
            forall|k: int| 0 <= k < i ==> !matches_at(hay@, needle@, k),
        decreases hay.len() - needle.len() + 1 - i,
    {
        if check_token(hay, i, needle) {
            proof {
                assert(matches_at(hay@, needle@, i as int));
            }
            return true;
        }
        i = i + 1;
    }
    proof {
        assert forall|k: int| !matches_at(hay@, needle@, k) by {
            if 0 <= k < i as int {
                assert(!matches_at(hay@, needle@, k));
            }
        }
    }
    false
}

} // verus!
