//! Instants in UTC as plain numbers, and the reading of one from the start
//! of a log line.

use chrono::DateTime;
use vstd::prelude::*;
use vstd::slice::slice_subrange;
use vstd::utf8::{decode_utf8, valid_utf8};

verus! {

/// Seconds from the epoch to the first instant that can be represented:
/// midnight of the first of January of the year -262143.
pub const MIN_SECS: i64 = -8_334_601_228_800;

/// Seconds from the epoch to the last second that can be represented:
/// 23:59:59 on the last of December of the year 262142.
pub const MAX_SECS: i64 = 8_210_266_876_799;

/// The nanoseconds in a second. A sub-second part at or above it marks a
/// leap second.
pub const NANOS_PER_SEC: u32 = 1_000_000_000;

/// The sub-second part of the last instant that can be represented.
pub const MAX_NANOS: u32 = 999_999_999;

/// The number of leading bytes of a line in which a timestamp is looked for.
pub const PREFIX_LEN: usize = 25;

/// An instant in UTC: whole seconds since the epoch, leap seconds not
/// counted, and the nanoseconds since that second began. During a leap
/// second the seconds are those of the second before it and the nanoseconds
/// are `NANOS_PER_SEC` or more.
#[derive(Clone, Copy, Debug, PartialEq, Eq, Structural)]
pub struct Timestamp {
    pub secs: i64,
    pub nanos: u32,
}

impl Timestamp {
    /// The instant lies in the range that can be represented.
    pub open spec fn wf(self) -> bool {
        MIN_SECS <= self.secs <= MAX_SECS && self.nanos < 2 * NANOS_PER_SEC
    }

    /// `self` is strictly earlier than `other`.
    pub open spec fn before(self, other: Timestamp) -> bool {
        self.secs < other.secs || (self.secs == other.secs && self.nanos < other.nanos)
    }

    /// The first instant that can be represented.
    pub open spec fn earliest() -> Timestamp {
        Timestamp { secs: MIN_SECS, nanos: 0 }
    }

    /// The last instant that can be represented.
    pub open spec fn latest() -> Timestamp {
        Timestamp { secs: MAX_SECS, nanos: MAX_NANOS }
    }

    /// The instant `seconds` later, with the sub-second part kept; out of a
    /// leap second the result falls into the ordinary seconds that follow.
    /// `None` where the result could not be represented.
    pub open spec fn plus(self, seconds: int) -> Option<Timestamp> {
        if self.secs + seconds > MAX_SECS || self.secs + seconds < MIN_SECS {
            None
        } else {
            Some(
                Timestamp {
                    secs: (self.secs + seconds) as i64,
                    nanos: if self.nanos >= NANOS_PER_SEC {
                        (self.nanos - NANOS_PER_SEC) as u32
                    } else {
                        self.nanos
                    },
                },
            )
        }
    }

    /// What a parsed pair of seconds and nanoseconds stands for: an instant
    /// where the pair lies in the range that can be represented.
    pub open spec fn of_parsed(parsed: Option<(i64, u32)>) -> Option<Timestamp> {
        match parsed {
            Some((secs, nanos)) => if MIN_SECS <= secs <= MAX_SECS && nanos < 2 * NANOS_PER_SEC {
                Some(Timestamp { secs, nanos })
            } else {
                None
            },
            None => None,
        }
    }

    /// The first instant that can be represented.
    pub fn min() -> (t: Timestamp)
        ensures
            t == Timestamp::earliest(),
            t.wf(),
    {
        Timestamp { secs: MIN_SECS, nanos: 0 }
    }

    /// The last instant that can be represented.
    pub fn max() -> (t: Timestamp)
        ensures
            t == Timestamp::latest(),
            t.wf(),
    {
        Timestamp { secs: MAX_SECS, nanos: MAX_NANOS }
    }

    /// The instant with these parts, if it can be represented.
    pub fn from_parts(secs: i64, nanos: u32) -> (t: Option<Timestamp>)
        ensures
            t == Timestamp::of_parsed(Some((secs, nanos))),
            t matches Some(ts) ==> ts.wf(),
    {
        if MIN_SECS <= secs && secs <= MAX_SECS && nanos < 2 * NANOS_PER_SEC {
            Some(Timestamp { secs, nanos })
        } else {
            None
        }
    }

    /// The instant that the outcome of parsing stands for.
    pub fn from_parsed(parsed: Option<(i64, u32)>) -> (t: Option<Timestamp>)
        ensures
            t == Timestamp::of_parsed(parsed),
            t matches Some(ts) ==> ts.wf(),
    {
        match parsed {
            Some((secs, nanos)) => Timestamp::from_parts(secs, nanos),
            None => None,
        }
    }

    /// Whether `self` is strictly earlier than `other`.
    pub fn is_before(&self, other: &Timestamp) -> (r: bool)
        ensures
            r == self.before(*other),
    {
        self.secs < other.secs || (self.secs == other.secs && self.nanos < other.nanos)
    }

    /// The instant `seconds` later, or `None` where that lies behind the
    /// last instant that can be represented.
    pub fn checked_plus(&self, seconds: u32) -> (t: Option<Timestamp>)
        requires
            self.wf(),
        ensures
            t == self.plus(seconds as int),
            t matches Some(ts) ==> ts.wf() && ts.nanos < NANOS_PER_SEC,
    {
        if self.secs > MAX_SECS - (seconds as i64) {
            None
        } else {
            let nanos: u32 = if self.nanos >= NANOS_PER_SEC {
                self.nanos - NANOS_PER_SEC
            } else {
                self.nanos
            };
            Some(Timestamp { secs: self.secs + (seconds as i64), nanos })
        }
    }
}

/// The order of instants is strict and total.
pub proof fn lemma_before_is_a_strict_total_order(a: Timestamp, b: Timestamp, c: Timestamp)
    ensures
        !a.before(a),
        a.before(b) && b.before(c) ==> a.before(c),
        a.before(b) || a == b || b.before(a),
        !(a.before(b) && b.before(a)),
{
}

/// Adding a positive number of seconds gives a later instant.
pub proof fn lemma_plus_is_later(t: Timestamp, seconds: int)
    requires
        seconds > 0,
        t.plus(seconds).is_some(),
    ensures
        t.before(t.plus(seconds).unwrap()),
{
}

/// Seconds and nanoseconds of the instant that `text` denotes in the form
/// `YYYY-MM-DDTHH:MM:SS+HH:MM`, brought to UTC, or `None` where `text` is
/// not of that form.
pub uninterp spec fn parsed_instant(text: Seq<char>) -> Option<(i64, u32)>;

/// The fourteen-digit form `YYYYMMDDHHMMSS` of an instant in UTC.
pub uninterp spec fn stamp_label(secs: int, nanos: int) -> Seq<char>;

/// Trusted: `core::str::from_utf8`. The bytes are handed back as text
/// exactly when they are well-formed UTF-8, and the text is then what they
/// encode.
#[verifier::external_body]
fn utf8_text(bytes: &[u8]) -> (text: Option<&str>)
    ensures
        text.is_some() == valid_utf8(bytes@),
        text matches Some(s) ==> s@ == decode_utf8(bytes@),
{
    match core::str::from_utf8(bytes) {
        Ok(s) => Some(s),
        Err(_) => None,
    }
}

/// Trusted: `chrono::DateTime::parse_from_str` with the format
/// `%Y-%m-%dT%H:%M:%S%:z`, then `timestamp` and `timestamp_subsec_nanos` of
/// what it returned. The contract only names the outcome: it is the same for
/// the same text.
#[verifier::external_body]
fn parse_instant(text: &str) -> (parsed: Option<(i64, u32)>)
    ensures
        parsed == parsed_instant(text@),
{
    match DateTime::parse_from_str(text, "%Y-%m-%dT%H:%M:%S%:z") {
        Ok(d) => Some((d.timestamp(), d.timestamp_subsec_nanos())),
        Err(_) => None,
    }
}

/// Trusted: `chrono::DateTime::from_timestamp`, then `format` with
/// `%Y%m%d%H%M%S` on its UTC date and time. For seconds in the range that
/// can be represented and a sub-second part below one second an instant
/// exists, and the contract names its formatted text.
#[verifier::external_body]
fn format_instant(secs: i64, nanos: u32) -> (label: Option<String>)
    requires
        MIN_SECS <= secs <= MAX_SECS,
        nanos < NANOS_PER_SEC,
    ensures
        label.is_some(),
        label matches Some(s) ==> s@ == stamp_label(secs as int, nanos as int),
{
    match DateTime::from_timestamp(secs, nanos) {
        Some(d) => Some(d.naive_utc().format("%Y%m%d%H%M%S").to_string()),
        None => None,
    }
}

/// The timestamp at the start of a line: absent where the line has fewer
/// bytes than the prefix, where the prefix is not UTF-8, and where it does
/// not denote an instant.
pub open spec fn extracted(line: Seq<u8>) -> Option<Timestamp> {
    if line.len() < PREFIX_LEN {
        None
    } else if !valid_utf8(line.subrange(0, PREFIX_LEN as int)) {
        None
    } else {
        Timestamp::of_parsed(parsed_instant(decode_utf8(line.subrange(0, PREFIX_LEN as int))))
    }
}

/// The instant that a whole text denotes, if any.
pub open spec fn instant_of_text(text: Seq<char>) -> Option<Timestamp> {
    Timestamp::of_parsed(parsed_instant(text))
}

/// Reads the timestamp that a line starts with.
pub fn ts_extract(l: &[u8]) -> (ts: Option<Timestamp>)
    ensures
        ts == extracted(l@),
        ts matches Some(t) ==> t.wf(),
{
    if l.len() < PREFIX_LEN {
        return None;
    }
    let prefix = slice_subrange(l, 0, PREFIX_LEN);
    match utf8_text(prefix) {
        Some(text) => Timestamp::from_parsed(parse_instant(text)),
        None => None,
    }
}

/// Reads the instant that a whole text denotes, as a bound of a time range
/// is given.
pub fn parse_bound(text: &str) -> (ts: Option<Timestamp>)
    ensures
        ts == instant_of_text(text@),
        ts matches Some(t) ==> t.wf(),
{
    Timestamp::from_parsed(parse_instant(text))
}

/// The text `YYYYMMDDHHMMSS` of an instant outside a leap second.
pub fn stamp_text(t: &Timestamp) -> (label: String)
    requires
        t.wf(),
        t.nanos < NANOS_PER_SEC,
    ensures
        label@ == stamp_label(t.secs as int, t.nanos as int),
{
    match format_instant(t.secs, t.nanos) {
        Some(s) => s,
        None => String::new(),
    }
}

} // verus!
