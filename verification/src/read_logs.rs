use vstd::prelude::*;
use vstd::string::StrSliceExecFns;
use vstd::string::StringExecFns;

use crate::model::{AccessInfo, AccessRec};
use crate::scan::{
    alnum_pred, at_is, check_digits, check_token, digit_pred, digits_at, digits_val, domain_pred,
    is_ws_char, lemma_run_len, parse_digits, run_len, scan_digits, scan_domain, scan_alnum,
    to_chars, token_at, ws_char,
};

verus! {

// ---------------------------------------------------------------------------
// The line grammar, one component at a time.
//
// A line is matched from its first character:
//   - an optional tag prefix `access_log_<label>` and a separator;
//   - a date `YYYY/M/D` (month and day one or two digits) and a separator;
//   - a time `HH:MM:SS` and a separator;
//   - a source `ip:port` (dotted quad, one to five digit port) and a
//     separator;
//   - a state, `accepted` or `rejected`, and a separator;
//   - either a destination `protocol:domain:port` with protocol `tcp`
//     or `udp`, or any non-empty trailing text.
// Trailing text after a matched destination is ignored.  A line that
// does not fit this shape yields no record.
// ---------------------------------------------------------------------------

/// The fixed prefix that announces a tag label.
pub open spec fn tag_marker() -> Seq<char> {
    "access_log_"@
}

/// The state token of an allowed connection.
pub open spec fn accepted_token() -> Seq<char> {
    "accepted"@
}

/// The state token of a refused connection.
pub open spec fn rejected_token() -> Seq<char> {
    "rejected"@
}

/// Consumes the optional tag prefix.  Yields the position after it and
/// the tag label, if one is present.
pub open spec fn tag_split(s: Seq<char>) -> Option<(int, Option<Seq<char>>)> {
    if token_at(s, 0, tag_marker()) {
        let t0 = tag_marker().len() as int;
        let k = run_len(s, t0, alnum_pred());
        if k >= 1 && t0 + k < s.len() && is_ws_char(s[t0 + k]) {
            Some((t0 + k + 1, Some(s.subrange(t0, t0 + k))))
        } else {
            None
        }
    } else {
        Some((0, None))
    }
}

/// One or two digits at `p`, the longer reading first, followed by a
/// terminator character.  Yields the position after the terminator and
/// the digits.
pub open spec fn num12_split(s: Seq<char>, p: int, term: spec_fn(char) -> bool) -> Option<
    (int, Seq<char>),
> {
    if digits_at(s, p, 2) && 0 <= p + 2 < s.len() && term(s[p + 2]) {
        Some((p + 3, s.subrange(p, p + 2)))
    } else if digits_at(s, p, 1) && 0 <= p + 1 < s.len() && term(s[p + 1]) {
        Some((p + 2, s.subrange(p, p + 1)))
    } else {
        None
    }
}

/// The slash terminator of the date's fields.
pub open spec fn slash_pred() -> spec_fn(char) -> bool {
    |c: char| c == '/'
}

/// The whitespace terminator between components.
pub open spec fn ws_pred() -> spec_fn(char) -> bool {
    |c: char| is_ws_char(c)
}

/// Consumes `YYYY/M/D` and a separator.  Yields the position after the
/// separator and the three digit strings.
pub open spec fn date_split(s: Seq<char>, p: int) -> Option<(int, Seq<char>, Seq<char>, Seq<char>)> {
    if digits_at(s, p, 4) && at_is(s, p + 4, '/') {
        match num12_split(s, p + 5, slash_pred()) {
            Some((q, month)) => match num12_split(s, q, ws_pred()) {
                Some((q2, day)) => Some((q2, s.subrange(p, p + 4), month, day)),
                None => None,
            },
            None => None,
        }
    } else {
        None
    }
}

/// Consumes `HH:MM:SS` and a separator.  Yields the position after the
/// separator and the eight time characters.
pub open spec fn time_split(s: Seq<char>, p: int) -> Option<(int, Seq<char>)> {
    if digits_at(s, p, 2) && at_is(s, p + 2, ':') && digits_at(s, p + 3, 2) && at_is(s, p + 5, ':')
        && digits_at(s, p + 6, 2) && 0 <= p + 8 < s.len() && is_ws_char(s[p + 8]) {
        Some((p + 9, s.subrange(p, p + 8)))
    } else {
        None
    }
}

/// Consumes one to three digits at `p` and a terminator character.
/// Yields the position after the terminator.
pub open spec fn octet_split(s: Seq<char>, p: int, term: char) -> Option<int> {
    let k = run_len(s, p, digit_pred());
    if 1 <= k <= 3 && at_is(s, p + k, term) {
        Some(p + k + 1)
    } else {
        None
    }
}

/// Consumes a dotted-quad address and the colon after it.  Yields the
/// position after the colon and the address text.
pub open spec fn ip_split(s: Seq<char>, p: int) -> Option<(int, Seq<char>)> {
    match octet_split(s, p, '.') {
        Some(p1) => match octet_split(s, p1, '.') {
            Some(p2) => match octet_split(s, p2, '.') {
                Some(p3) => match octet_split(s, p3, ':') {
                    Some(p4) => Some((p4, s.subrange(p, p4 - 1))),
                    None => None,
                },
                None => None,
            },
            None => None,
        },
        None => None,
    }
}

/// Consumes one to five digits and a whitespace separator.  Yields the
/// position after the separator and the digits.
pub open spec fn src_port_split(s: Seq<char>, p: int) -> Option<(int, Seq<char>)> {
    let k = run_len(s, p, digit_pred());
    if 1 <= k <= 5 && 0 <= p + k < s.len() && is_ws_char(s[p + k]) {
        Some((p + k + 1, s.subrange(p, p + k)))
    } else {
        None
    }
}

/// Consumes the state token and a separator.  Yields the position
/// after the separator, and whether the state is `accepted`.
pub open spec fn state_split(s: Seq<char>, p: int) -> Option<(int, bool)> {
    let l = accepted_token().len() as int;
    if token_at(s, p, accepted_token()) && p + l < s.len() && is_ws_char(s[p + l]) {
        Some((p + l + 1, true))
    } else if token_at(s, p, rejected_token()) && p + l < s.len() && is_ws_char(s[p + l]) {
        Some((p + l + 1, false))
    } else {
        None
    }
}

/// Matches `protocol:domain:port` at `p`: `tcp:` or `udp:`, a
/// non-empty run of domain characters, a colon, and one to five port
/// digits (a longer digit run keeps its first five digits; text after
/// the port is ignored).  Yields the protocol (`true` for tcp), the
/// domain and the port digits.
pub open spec fn triple_split(s: Seq<char>, p: int) -> Option<(bool, Seq<char>, Seq<char>)> {
    let is_tcp = token_at(s, p, "tcp:"@);
    if is_tcp || token_at(s, p, "udp:"@) {
        let q = p + 4;
        let k = run_len(s, q, domain_pred());
        if k >= 1 && at_is(s, q + k, ':') {
            let r = q + k + 1;
            let m = run_len(s, r, digit_pred());
            if m >= 1 {
                let take = if m > 5 { 5int } else { m };
                Some((is_tcp, s.subrange(q, q + k), s.subrange(r, r + take)))
            } else {
                None
            }
        } else {
            None
        }
    } else {
        None
    }
}

/// The suffix after the state: a destination triple where one
/// matches, otherwise any non-empty trailing text (a lone line break
/// does not count as text).  `None` means the whole line fails.
pub open spec fn dest_split(s: Seq<char>, p: int) -> Option<Option<(bool, Seq<char>, Seq<char>)>> {
    if 0 <= p < s.len() {
        match triple_split(s, p) {
            Some(t) => Some(Some(t)),
            None => if s[p] != '\n' {
                Some(None)
            } else {
                None
            },
        }
    } else {
        None
    }
}

/// Everything one line yields, before it is assembled into a record.
pub ghost struct LineParts {
    pub tag: Option<Seq<char>>,
    pub year: Seq<char>,
    pub month: Seq<char>,
    pub day: Seq<char>,
    pub hms: Seq<char>,
    pub src_ip: Seq<char>,
    pub src_port: Seq<char>,
    pub accepted: bool,
    pub dest: Option<(bool, Seq<char>, Seq<char>)>,
}

/// The whole grammar: the unique reading of a line, or `None` when the
/// line does not match it from the start.
pub open spec fn parse_line(s: Seq<char>) -> Option<LineParts> {
    match tag_split(s) {
        Some((p0, tag)) => match date_split(s, p0) {
            Some((p1, year, month, day)) => match time_split(s, p1) {
                Some((p2, hms)) => match ip_split(s, p2) {
                    Some((p3, ip)) => match src_port_split(s, p3) {
                        Some((p4, sport)) => match state_split(s, p4) {
                            Some((p5, accepted)) => match dest_split(s, p5) {
                                Some(dest) => Some(
                                    LineParts {
                                        tag,
                                        year,
                                        month,
                                        day,
                                        hms,
                                        src_ip: ip,
                                        src_port: sport,
                                        accepted,
                                        dest,
                                    },
                                ),
                                None => None,
                            },
                            None => None,
                        },
                        None => None,
                    },
                    None => None,
                },
                None => None,
            },
            None => None,
        },
        None => None,
    }
}

/// Strips the leading zero of a two-digit month or day, so that the
/// composed timestamp reads `YYYY-M-D`.
pub open spec fn trim_zero(m: Seq<char>) -> Seq<char> {
    if m.len() == 2 && m[0] == '0' {
        m.subrange(1, 2)
    } else {
        m
    }
}

/// The timestamp text a record carries: date and time joined, month
/// and day without zero padding.
pub open spec fn compose_time(y: Seq<char>, m: Seq<char>, d: Seq<char>, hms: Seq<char>) -> Seq<
    char,
> {
    y + "-"@ + trim_zero(m) + "-"@ + trim_zero(d) + " "@ + hms
}

/// The record a parsed line denotes.
pub open spec fn record_of(parts: LineParts) -> AccessRec {
    AccessRec {
        time: compose_time(parts.year, parts.month, parts.day, parts.hms),
        src_port: Some(digits_val(parts.src_port) as u32),
        src_ip: Some(parts.src_ip),
        dst_port: match parts.dest {
            Some((_, _, port)) => Some(digits_val(port) as u32),
            None => None,
        },
        dst_domain: match parts.dest {
            Some((_, domain, _)) => Some(domain),
            None => None,
        },
        state: Some(if parts.accepted {
            accepted_token()
        } else {
            rejected_token()
        }),
        protocol: match parts.dest {
            Some((is_tcp, _, _)) => Some(
                if is_tcp {
                    "tcp"@
                } else {
                    "udp"@
                },
            ),
            None => None,
        },
        tag: parts.tag,
    }
}

/// A matched line's destination triple is all-or-nothing: the record
/// carries protocol, domain and port together, exactly when the line's
/// suffix matched the destination grammar; a matched line whose suffix
/// is plain trailing text carries none of the three.  So every
/// accepted line with a `protocol:domain:port` suffix has all three
/// fields, and every line whose suffix is free text, as a rejected
/// line's error message is, has none.
pub proof fn lemma_destination_all_or_nothing(s: Seq<char>)
    ensures
        parse_line(s) is Some ==> {
            let rec = record_of(parse_line(s)->0);
            &&& (parse_line(s)->0.dest is Some <==> rec.protocol is Some)
            &&& (parse_line(s)->0.dest is Some <==> rec.dst_domain is Some)
            &&& (parse_line(s)->0.dest is Some <==> rec.dst_port is Some)
        },
{
}

/// Scans the optional tag prefix.  Yields the position after it and
/// the bounds of the tag label, when one is present.
fn scan_tag(s: &Vec<char>) -> (r: Option<(usize, usize, usize, bool)>)
    ensures
        match r {
            Some((p, lo, hi, has)) => tag_split(s@) == Some(
                (
                    p as int,
                    if has {
                        Some(s@.subrange(lo as int, hi as int))
                    } else {
                        None::<Seq<char>>
                    },
                ),
            ) && p <= s@.len() && lo <= hi <= s@.len(),
            None => tag_split(s@) is None,
        },
{
    proof {
        reveal_strlit("access_log_");
    }
    let marker = to_chars("access_log_");
    if check_token(s, 0, &marker) {
        let k_end = scan_alnum(s, 11);
        if k_end > 11 && k_end < s.len() && ws_char(s[k_end]) {
            Some((k_end + 1, 11, k_end, true))
        } else {
            None
        }
    } else {
        Some((0, 0, 0, false))
    }
}

/// Scans `YYYY/M/D` and its separator at `p`.  Yields the position
/// after the separator and the bounds of the month and day digits;
/// the year digits stand at `p .. p + 4`.
fn scan_date(s: &Vec<char>, p: usize) -> (r: Option<(usize, usize, usize, usize, usize)>)
    requires
        p <= s.len(),
    ensures
        match r {
            Some((nxt, m_lo, m_hi, d_lo, d_hi)) => date_split(s@, p as int) == Some(
                (
                    nxt as int,
                    s@.subrange(p as int, p as int + 4),
                    s@.subrange(m_lo as int, m_hi as int),
                    s@.subrange(d_lo as int, d_hi as int),
                ),
            ) && p + 4 <= s@.len() && m_lo <= m_hi <= s@.len() && d_lo <= d_hi <= s@.len() && nxt
                <= s@.len() && m_hi - m_lo <= 2 && d_hi - d_lo <= 2,
            None => date_split(s@, p as int) is None,
        },
{
    if !check_digits(s, p, 4) {
        return None;
    }
    if p + 4 == s.len() || s[p + 4] != '/' {
        return None;
    }
    let q: usize = p + 5;
    let m_lo: usize;
    let m_hi: usize;
    let mq: usize;
    if check_digits(s, q, 2) && q + 2 < s.len() && s[q + 2] == '/' {
        m_lo = q;
        m_hi = q + 2;
        mq = q + 3;
    } else if check_digits(s, q, 1) && q + 1 < s.len() && s[q + 1] == '/' {
        m_lo = q;
        m_hi = q + 1;
        mq = q + 2;
    } else {
        assert(num12_split(s@, q as int, slash_pred()) is None);
        return None;
    }
    assert(num12_split(s@, q as int, slash_pred()) == Some(
        (mq as int, s@.subrange(m_lo as int, m_hi as int)),
    ));
    let d_lo: usize;
    let d_hi: usize;
    let dq: usize;
    if check_digits(s, mq, 2) && mq + 2 < s.len() && ws_char(s[mq + 2]) {
        d_lo = mq;
        d_hi = mq + 2;
        dq = mq + 3;
    } else if check_digits(s, mq, 1) && mq + 1 < s.len() && ws_char(s[mq + 1]) {
        d_lo = mq;
        d_hi = mq + 1;
        dq = mq + 2;
    } else {
        assert(num12_split(s@, mq as int, ws_pred()) is None);
        return None;
    }
    assert(num12_split(s@, mq as int, ws_pred()) == Some(
        (dq as int, s@.subrange(d_lo as int, d_hi as int)),
    ));
    Some((dq, m_lo, m_hi, d_lo, d_hi))
}

/// Scans `HH:MM:SS` and its separator at `p`.  Yields the position
/// after the separator; the time text stands at `p .. p + 8`.
fn scan_time(s: &Vec<char>, p: usize) -> (r: Option<usize>)
    requires
        p <= s.len(),
    ensures
        match r {
            Some(nxt) => time_split(s@, p as int) == Some(
                (nxt as int, s@.subrange(p as int, p as int + 8)),
            ) && p + 8 <= s@.len() && nxt <= s@.len(),
            None => time_split(s@, p as int) is None,
        },
{
    if check_digits(s, p, 2) && p + 2 < s.len() && s[p + 2] == ':' && check_digits(s, p + 3, 2) && p
        + 5 < s.len() && s[p + 5] == ':' && check_digits(s, p + 6, 2) && p + 8 < s.len() && ws_char(
        s[p + 8],
    ) {
        Some(p + 9)
    } else {
        None
    }
}

/// Scans the dotted-quad source address and the colon after it.
/// Yields the position after the colon; the address text ends one
/// character before it.
fn scan_ip(s: &Vec<char>, p: usize) -> (r: Option<usize>)
    requires
        p <= s.len(),
    ensures
        match r {
            Some(nxt) => ip_split(s@, p as int) == Some(
                (nxt as int, s@.subrange(p as int, nxt as int - 1)),
            ) && p < nxt <= s@.len(),
            None => ip_split(s@, p as int) is None,
        },
{
    let o1 = match scan_octet(s, p, '.') {
        Some(x) => x,
        None => {
            return None;
        },
    };
    let o2 = match scan_octet(s, o1, '.') {
        Some(x) => x,
        None => {
            return None;
        },
    };
    let o3 = match scan_octet(s, o2, '.') {
        Some(x) => x,
        None => {
            return None;
        },
    };
    match scan_octet(s, o3, ':') {
        Some(o4) => Some(o4),
        None => None,
    }
}

/// Scans the source port digits and their separator at `p`.  Yields
/// the position after the separator; the digits end one character
/// before it.
fn scan_src_port(s: &Vec<char>, p: usize) -> (r: Option<usize>)
    requires
        p <= s.len(),
    ensures
        match r {
            Some(nxt) => src_port_split(s@, p as int) == Some(
                (nxt as int, s@.subrange(p as int, nxt as int - 1)),
            ) && p < nxt <= s@.len() && nxt - 1 - p <= 5 && digits_at(s@, p as int, nxt - 1 - p),
            None => src_port_split(s@, p as int) is None,
        },
{
    let sp_end = scan_digits(s, p);
    proof {
        lemma_run_len(s@, p as int, digit_pred());
    }
    if sp_end > p && sp_end - p <= 5 && sp_end < s.len() && ws_char(s[sp_end]) {
        Some(sp_end + 1)
    } else {
        None
    }
}

/// Scans the state token and its separator at `p`.  Yields the
/// position after the separator and whether the state is `accepted`.
fn scan_state(s: &Vec<char>, p: usize) -> (r: Option<(usize, bool)>)
    requires
        p <= s.len(),
    ensures
        match r {
            Some((nxt, acc)) => state_split(s@, p as int) == Some((nxt as int, acc)) && p < nxt
                <= s@.len(),
            None => state_split(s@, p as int) is None,
        },
{
    proof {
        reveal_strlit("accepted");
        reveal_strlit("rejected");
    }
    let acc_tok = to_chars("accepted");
    let rej_tok = to_chars("rejected");
    if check_token(s, p, &acc_tok) && p + 8 < s.len() && ws_char(s[p + 8]) {
        Some((p + 9, true))
    } else if check_token(s, p, &rej_tok) && p + 8 < s.len() && ws_char(s[p + 8]) {
        Some((p + 9, false))
    } else {
        None
    }
}

/// Scans the suffix after the state at `p`: a destination triple, or
/// any non-empty trailing text.  Yields the protocol flag and the
/// bounds of the domain and port digits when a triple matched.
fn scan_dest(s: &Vec<char>, p: usize) -> (r: Option<Option<(bool, usize, usize, usize, usize)>>)
    requires
        p <= s.len(),
    ensures
        match r {
            Some(Some((is_tcp, dom_lo, dom_hi, port_lo, port_hi))) => dest_split(s@, p as int)
                == Some(
                Some(
                    (
                        is_tcp,
                        s@.subrange(dom_lo as int, dom_hi as int),
                        s@.subrange(port_lo as int, port_hi as int),
                    ),
                ),
            ) && dom_lo <= dom_hi <= s@.len() && port_lo <= port_hi <= s@.len() && port_hi - port_lo
                <= 5 && digits_at(s@, port_lo as int, port_hi - port_lo),
            Some(None) => dest_split(s@, p as int) == Some(None::<(bool, Seq<char>, Seq<char>)>),
            None => dest_split(s@, p as int) is None,
        },
{
    proof {
        reveal_strlit("tcp:");
        reveal_strlit("udp:");
    }
    if p >= s.len() {
        return None;
    }
    let tcp_tok = to_chars("tcp:");
    let udp_tok = to_chars("udp:");
    let is_tcp = check_token(s, p, &tcp_tok);
    let is_udp = check_token(s, p, &udp_tok);
    if is_tcp || is_udp {
        let q: usize = p + 4;
        let k_end = scan_domain(s, q);
        if k_end > q && k_end < s.len() && s[k_end] == ':' {
            let r0: usize = k_end + 1;
            let m_end = scan_digits(s, r0);
            proof {
                lemma_run_len(s@, r0 as int, digit_pred());
            }
            if m_end > r0 {
                let port_hi: usize = if m_end - r0 > 5 {
                    r0 + 5
                } else {
                    m_end
                };
                return Some(Some((is_tcp, q, k_end, r0, port_hi)));
            }
        }
    }
    assert(triple_split(s@, p as int) is None);
    if s[p] == '\n' {
        None
    } else {
        Some(None)
    }
}

/// Turns one log line into a record, or nothing when the line does
/// not match the grammar.  Total: every string is either parsed or
/// rejected, and the record is exactly what the grammar read.
pub fn read_access_info_from_line(line: &str) -> (r: Option<AccessInfo>)
    ensures
        match r {
            Some(info) => parse_line(line@) is Some && info@ == record_of(parse_line(line@)->0)
                && info.id == 0,
            None => parse_line(line@) is None,
        },
{
    let s = to_chars(line);

    let (p0, tag_lo, tag_hi, has_tag) = match scan_tag(&s) {
        Some(x) => x,
        None => {
            return None;
        },
    };
    let (p1, m_lo, m_hi, d_lo, d_hi) = match scan_date(&s, p0) {
        Some(x) => x,
        None => {
            return None;
        },
    };
    let p2 = match scan_time(&s, p1) {
        Some(x) => x,
        None => {
            return None;
        },
    };
    let p3 = match scan_ip(&s, p2) {
        Some(x) => x,
        None => {
            return None;
        },
    };
    let p4 = match scan_src_port(&s, p3) {
        Some(x) => x,
        None => {
            return None;
        },
    };
    let (p5, accepted) = match scan_state(&s, p4) {
        Some(x) => x,
        None => {
            return None;
        },
    };
    let dest = match scan_dest(&s, p5) {
        Some(x) => x,
        None => {
            return None;
        },
    };

    let ghost parts = parse_line(s@)->0;
    assert(parse_line(s@) is Some);
    assert(parts.year == s@.subrange(p0 as int, p0 as int + 4));
    assert(parts.month == s@.subrange(m_lo as int, m_hi as int));
    assert(parts.day == s@.subrange(d_lo as int, d_hi as int));
    assert(parts.hms == s@.subrange(p1 as int, p1 as int + 8));
    assert(parts.src_ip == s@.subrange(p2 as int, p3 as int - 1));
    assert(parts.src_port == s@.subrange(p3 as int, p4 as int - 1));
    assert(parts.accepted == accepted);

    // Timestamp text: `YYYY-M-D HH:MM:SS`, month and day unpadded.
    let mut time = String::from_str(line.substring_char(p0, p0 + 4));
    time.append("-");
    let tm_lo: usize = if m_hi - m_lo == 2 && s[m_lo] == '0' {
        m_lo + 1
    } else {
        m_lo
    };
    time.append(line.substring_char(tm_lo, m_hi));
    time.append("-");
    let td_lo: usize = if d_hi - d_lo == 2 && s[d_lo] == '0' {
        d_lo + 1
    } else {
        d_lo
    };
    time.append(line.substring_char(td_lo, d_hi));
    time.append(" ");
    time.append(line.substring_char(p1, p1 + 8));
    proof {
        assert(s@.subrange(tm_lo as int, m_hi as int) =~= trim_zero(parts.month));
        assert(s@.subrange(td_lo as int, d_hi as int) =~= trim_zero(parts.day));
        assert(time@ == compose_time(parts.year, parts.month, parts.day, parts.hms));
    }

    let src_ip = String::from_str(line.substring_char(p2, p3 - 1));
    let src_port = parse_digits(&s, p3, p4 - 1);

    let state = if accepted {
        String::from_str("accepted")
    } else {
        String::from_str("rejected")
    };

    let mut protocol: Option<String> = None;
    let mut dst_domain: Option<String> = None;
    let mut dst_port: Option<u32> = None;
    if let Some((is_tcp, dom_lo, dom_hi, port_lo, port_hi)) = dest {
        protocol = Some(
            if is_tcp {
                String::from_str("tcp")
            } else {
                String::from_str("udp")
            },
        );
        dst_domain = Some(String::from_str(line.substring_char(dom_lo, dom_hi)));
        dst_port = Some(parse_digits(&s, port_lo, port_hi));
    }

    let tag: Option<String> = if has_tag {
        Some(String::from_str(line.substring_char(tag_lo, tag_hi)))
    } else {
        None
    };

    let info = AccessInfo {
        id: 0,
        time,
        src_port: Some(src_port),
        src_ip: Some(src_ip),
        dst_port,
        dst_domain,
        state: Some(state),
        protocol,
        tag,
    };
    assert(info@ == record_of(parts));
    Some(info)
}

/// Consumes one to three digits and the given terminator.  Yields the
/// position after the terminator.
fn scan_octet(s: &Vec<char>, p: usize, term: char) -> (r: Option<usize>)
    requires
        p <= s.len(),
    ensures
        match r {
            Some(q) => octet_split(s@, p as int, term) == Some(q as int) && p < q <= s.len(),
            None => octet_split(s@, p as int, term) is None,
        },
{
    let k_end = scan_digits(s, p);
    if k_end > p && k_end - p <= 3 && k_end < s.len() && s[k_end] == term {
        Some(k_end + 1)
    } else {
        None
    }
}

} // verus!
