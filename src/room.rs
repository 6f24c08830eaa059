//! Room addresses and room settings.

use vstd::prelude::*;
use vstd::string::*;

use crate::key_seq_pair::{digit_value, digits_value, is_digit, same_text};

verus! {

/// The addresses of a room.
#[derive(Debug, Clone, PartialEq, Eq)]
pub struct RoomResult {
    pub room: String,
    pub socket_url: String,
    pub http_url: String,
}

/// `{scheme}://{host}/room/{room}/{action}`.
pub open spec fn room_url(scheme: Seq<char>, host: Seq<char>, room: Seq<char>, action: Seq<char>) -> Seq<char> {
    scheme + "://"@ + host + "/room/"@ + room + "/"@ + action
}

fn room_url_of(scheme: &str, host: &str, room: &str, action: &str) -> (r: String)
    ensures
        r@ == room_url(scheme@, host@, room@, action@),
{
    let mut s = String::from_str(scheme);
    s.append("://");
    s.append(host);
    s.append("/room/");
    s.append(room);
    s.append("/");
    s.append(action);
    s
}

impl RoomResult {
    /// The addresses of `room` on `hostname`, over plain connections.
    pub fn new(room: String, hostname: &str) -> (r: RoomResult)
        ensures
            r.room@ == room@,
            r.socket_url@ == room_url("ws"@, hostname@, room@, "connect"@),
            r.http_url@ == room_url("http"@, hostname@, room@, "send"@),
    {
        RoomResult::with_security(room, hostname, false)
    }

    /// The addresses of `room` on `hostname`, over secure connections when
    /// `use_https` is set.
    pub fn with_security(room: String, hostname: &str, use_https: bool) -> (r: RoomResult)
        ensures
            r.room@ == room@,
            r.socket_url@ == room_url(if use_https { "wss"@ } else { "ws"@ }, hostname@, room@, "connect"@),
            r.http_url@ == room_url(if use_https { "https"@ } else { "http"@ }, hostname@, room@, "send"@),
    {
        let ws = if use_https { "wss" } else { "ws" };
        let http = if use_https { "https" } else { "http" };
        let socket_url = room_url_of(ws, hostname, room.as_str(), "connect");
        let http_url = room_url_of(http, hostname, room.as_str(), "send");
        RoomResult { room, socket_url, http_url }
    }
}

/// How long an idle room is kept when no retention is configured: a day.
pub const DEFAULT_RETENTION_SECONDS: u64 = 86400;

/// A name for what `str::to_uppercase` gives.
pub uninterp spec fn uppercase_of(s: Seq<char>) -> Seq<char>;

/// Relies on `str::to_uppercase`: the result depends on the characters alone.
#[verifier::external_body]
fn uppercase(s: &str) -> (r: String)
    ensures
        r@ == uppercase_of(s@),
{
    s.to_uppercase()
}

/// What `str::parse::<u64>` reads: an optional `+` and then one or more
/// decimal digits, whose value fits.
pub open spec fn parsed_u64(s: Seq<char>) -> Option<u64> {
    let digits = unsigned_part(s);
    if digits.len() > 0 && all_digits(digits) && digits_value(digits) <= u64::MAX {
        Some(digits_value(digits) as u64)
    } else {
        None
    }
}

/// `s` without a leading `+`.
pub open spec fn unsigned_part(s: Seq<char>) -> Seq<char> {
    if s.len() > 0 && s[0] == '+' {
        s.subrange(1, s.len() as int)
    } else {
        s
    }
}

pub open spec fn all_digits(cs: Seq<char>) -> bool {
    forall|i: int| 0 <= i < cs.len() ==> is_digit(#[trigger] cs[i])
}

/// Reads an unsigned decimal number as `str::parse::<u64>` does.
pub fn parse_u64(s: &str) -> (r: Option<u64>)
    ensures
        r == parsed_u64(s@),
{
    let n = s.unicode_len();
    let start: usize = if n > 0 && s.get_char(0) == '+' { 1 } else { 0 };
    let ghost digits = unsigned_part(s@);
    assert(digits =~= s@.subrange(start as int, n as int));
    if start == n {
        return None;
    }
    let mut v: u64 = 0;
    let mut i: usize = start;
    while i < n
        invariant
            start <= i <= n,
            n == s@.len(),
            digits == s@.subrange(start as int, n as int),
            digits == unsigned_part(s@),
            v == digits_value(s@.subrange(start as int, i as int)),
            forall|j: int| start <= j < i ==> is_digit(#[trigger] s@[j]),
        decreases n - i,
    {
        let c = s.get_char(i);
        if !('0' <= c && c <= '9') {
            assert(digits[i - start] == c);
            assert(!is_digit(digits[i - start]));
            assert(!all_digits(digits));
            return None;
        }
        let d = (c as u32 - 48) as u64;
        let ghost sub = s@.subrange(start as int, i + 1);
        assert(sub.drop_last() =~= s@.subrange(start as int, i as int));
        assert(digit_value(sub.last()) == d);
        if v > (u64::MAX - d) / 10 {
            proof {
                lemma_digits_value_grows(s@.subrange(start as int, n as int), (i - start) as int + 1);
                assert(s@.subrange(start as int, n as int).subrange(0, (i - start) + 1) =~= sub);
                assert(v * 10 + d > u64::MAX) by (nonlinear_arith)
                    requires
                        v > (u64::MAX - d) / 10,
                        d < 10,
                ;
                assert(digits_value(sub) == v * 10 + d);
                assert(digits_value(digits) > u64::MAX);
            }
            return None;
        }
        proof {
            assert(v * 10 + d <= u64::MAX) by (nonlinear_arith)
                requires
                    v <= (u64::MAX - d) / 10,
                    d < 10,
            ;
        }
        v = v * 10 + d;
        i = i + 1;
    }
    assert forall|j: int| 0 <= j < digits.len() implies is_digit(#[trigger] digits[j]) by {
        assert(digits[j] == s@[start + j]);
    };
    assert(s@.subrange(start as int, i as int) == digits);
    Some(v)
}

proof fn lemma_digits_value_grows(cs: Seq<char>, k: int)
    requires
        0 <= k <= cs.len(),
    ensures
        digits_value(cs.subrange(0, k)) <= digits_value(cs),
    decreases cs.len() - k,
{
    if k < cs.len() {
        lemma_digits_value_grows(cs, k + 1);
        let a = cs.subrange(0, k + 1);
        assert(a.drop_last() =~= cs.subrange(0, k));
        let x = digits_value(cs.subrange(0, k));
        assert(x <= x * 10 + digit_value(a.last())) by (nonlinear_arith);
    } else {
        assert(cs.subrange(0, k) =~= cs);
    }
}

/// Settings of a room host.
#[derive(Debug, Clone, Copy, PartialEq, Eq)]
pub struct Configuration {
    pub use_https: bool,
    pub retention_seconds: u64,
}

impl Configuration {
    /// Settings from the values of the `PROTOCOL` and `RETENTION_SECONDS`
    /// variables: secure connections when the protocol reads `HTTPS` in
    /// any case, and the retention when it is a number (a day otherwise).
    pub fn from_vars(protocol: Option<&str>, retention: Option<&str>) -> (r: Configuration)
        ensures
            r.use_https == (protocol matches Some(p) && uppercase_of(p@) == "HTTPS"@),
            r.retention_seconds == retention_of(retention),
    {
        match protocol {
            Some(p) => {
                let upper = uppercase(p);
                Configuration::from_upper(Some(upper.as_str()), retention)
            },
            None => Configuration::from_upper(None, retention),
        }
    }

    /// Settings from the upper-cased protocol and the retention text:
    /// secure connections when the protocol is `HTTPS`.
    pub fn from_upper(protocol_upper: Option<&str>, retention: Option<&str>) -> (r: Configuration)
        ensures
            r.use_https == (protocol_upper matches Some(p) && p@ == "HTTPS"@),
            r.retention_seconds == retention_of(retention),
    {
        let use_https = match protocol_upper {
            Some(p) => same_text(p, "HTTPS"),
            None => false,
        };
        let retention_seconds = match retention {
            Some(t) => match parse_u64(t) {
                Some(v) => v,
                None => DEFAULT_RETENTION_SECONDS,
            },
            None => DEFAULT_RETENTION_SECONDS,
        };
        Configuration { use_https, retention_seconds }
    }
}

/// The retention that a `RETENTION_SECONDS` value gives: its number, or a
/// day when it is absent or not a number.
pub open spec fn retention_of(retention: Option<&str>) -> u64 {
    match retention {
        Some(t) => match parsed_u64(t@) {
            Some(v) => v,
            None => DEFAULT_RETENTION_SECONDS,
        },
        None => DEFAULT_RETENTION_SECONDS,
    }
}

} // verus!
