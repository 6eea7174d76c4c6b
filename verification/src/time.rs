//! Instants in UTC.

use chrono::DateTime;
use vstd::prelude::*;

verus! {

/// Second of the first instant that a calendar date exists for: January 1 of the year -262143.
pub const MIN_SECS: i64 = -8_334_601_228_800;

/// Second of the last instant that a calendar date exists for: December 31 of the year 262142.
pub const MAX_SECS: i64 = 8_210_266_876_799;

/// An instant: seconds since the Unix epoch and nanoseconds into that second.
///
/// A leap second is written as its predecessor with a billion or more nanoseconds.
pub struct Instant {
    pub secs: int,
    pub nanos: int,
}

/// Whether a calendar date and time of day exist for these seconds and nanoseconds.
pub open spec fn on_calendar(secs: int, nanos: int) -> bool {
    &&& MIN_SECS <= secs <= MAX_SECS
    &&& 0 <= nanos < 2_000_000_000
    &&& nanos >= 1_000_000_000 ==> secs % 60 == 59
}

impl Instant {
    /// Whether a calendar date and time of day exist for this instant.
    pub open spec fn valid(self) -> bool {
        on_calendar(self.secs, self.nanos)
    }

    /// An integer that orders instants.
    pub open spec fn key(self) -> int {
        self.secs * 2_000_000_000 + self.nanos
    }

    /// Whole milliseconds since the Unix epoch.
    pub open spec fn millis(self) -> int {
        self.secs * 1000 + self.nanos / 1_000_000
    }

    /// The instant `seconds` earlier, a leap second counting as the start of the next minute.
    pub open spec fn earlier(self, seconds: int) -> Instant {
        Instant {
            secs: self.secs + self.nanos / 1_000_000_000 - seconds,
            nanos: self.nanos % 1_000_000_000,
        }
    }
}

/// The instant that lies `millis` milliseconds after the Unix epoch.
pub open spec fn instant_of_millis(millis: int) -> Instant {
    Instant { secs: millis / 1000, nanos: (millis % 1000) * 1_000_000 }
}

/// An instant that the calendar has.
#[derive(Debug, Clone, Copy, PartialEq, Eq, Hash)]
pub struct Timestamp {
    secs: i64,
    nanos: u32,
}

impl View for Timestamp {
    type V = Instant;

    closed spec fn view(&self) -> Instant {
        Instant { secs: self.secs as int, nanos: self.nanos as int }
    }
}

impl Timestamp {
    #[verifier::type_invariant]
    spec fn on_calendar(self) -> bool {
        on_calendar(self.secs as int, self.nanos as int)
    }

    /// The instant at `secs` and `nanos`, if the calendar has it.
    pub fn new(secs: i64, nanos: u32) -> (r: Option<Timestamp>)
        ensures
            r is Some <==> on_calendar(secs as int, nanos as int),
            r matches Some(t) ==> t@ == (Instant { secs: secs as int, nanos: nanos as int }),
    {
        if secs < MIN_SECS || secs > MAX_SECS || nanos >= 2_000_000_000 {
            return None;
        }
        if nanos >= 1_000_000_000 {
            // A non-negative number with the same remainder.
            let shifted: i64 = secs + 8_334_601_228_800;
            assert(shifted as int % 60 == secs as int % 60);
            if shifted % 60 != 59 {
                return None;
            }
        }
        Some(Timestamp { secs, nanos })
    }

    /// Seconds since the Unix epoch.
    pub fn secs(&self) -> (r: i64)
        ensures
            r == self@.secs,
    {
        self.secs
    }

    /// Nanoseconds into the second.
    pub fn nanos(&self) -> (r: u32)
        ensures
            r == self@.nanos,
            self@.valid(),
    {
        proof {
            use_type_invariant(self);
        }
        self.nanos
    }

    /// Whether this instant comes before another.
    pub fn before(&self, other: &Timestamp) -> (r: bool)
        ensures
            r == (self@.key() < other@.key()),
    {
        proof {
            use_type_invariant(self);
            use_type_invariant(other);
        }
        self.secs < other.secs || (self.secs == other.secs && self.nanos < other.nanos)
    }

    /// Whether two instants are the same.
    pub fn same(&self, other: &Timestamp) -> (r: bool)
        ensures
            r == (self@ == other@),
            r == (self@.key() == other@.key()),
    {
        proof {
            use_type_invariant(self);
            use_type_invariant(other);
        }
        self.secs == other.secs && self.nanos == other.nanos
    }

    /// Whole milliseconds since the Unix epoch.
    pub fn timestamp_millis(&self) -> (r: i64)
        ensures
            r == self@.millis(),
            self@.valid(),
    {
        proof {
            use_type_invariant(self);
        }
        millis_of(self.secs, self.nanos)
    }

    /// The instant `seconds` earlier, if the calendar has it.
    pub fn earlier(&self, seconds: u64) -> (r: Option<Timestamp>)
        ensures
            r is Some <==> self@.earlier(seconds as int).valid(),
            r matches Some(t) ==> t@ == self@.earlier(seconds as int),
            self@.valid(),
    {
        proof {
            use_type_invariant(self);
        }
        if seconds > 20_000_000_000_000 {
            return None;
        }
        if self.nanos >= 1_000_000_000 {
            Timestamp::new(self.secs + 1 - seconds as i64, self.nanos - 1_000_000_000)
        } else {
            Timestamp::new(self.secs - seconds as i64, self.nanos)
        }
    }
}

/// The instant that a text names in the RFC 3339 format, as seconds since the Unix epoch and
/// nanoseconds; none if the text is not of that format.
pub uninterp spec fn rfc3339(text: Seq<char>) -> Option<(int, int)>;

/// The instant that a text names in the RFC 3339 format.
pub open spec fn rfc3339_instant(text: Seq<char>) -> Option<Instant> {
    match rfc3339(text) {
        Some((secs, nanos)) => Some(Instant { secs, nanos }),
        None => None,
    }
}

/// `chrono::DateTime::parse_from_rfc3339`, taken to UTC: the instant that the text names. Of the
/// format only this is stated: an instant that a text names is one that the calendar has.
#[verifier::external_body]
fn parse_from_rfc3339(text: &str) -> (r: Option<(i64, u32)>)
    ensures
        r is Some <==> rfc3339(text@) is Some,
        r matches Some(t) ==> rfc3339(text@) == Some((t.0 as int, t.1 as int)),
        r matches Some(t) ==> on_calendar(t.0 as int, t.1 as int),
{
    DateTime::parse_from_rfc3339(text).ok().map(
        |t| (t.to_utc().timestamp(), t.to_utc().timestamp_subsec_nanos()),
    )
}

/// Reads an RFC 3339 text.
pub fn parse_rfc3339(text: &str) -> (r: Option<Timestamp>)
    ensures
        r is Some <==> rfc3339_instant(text@) is Some,
        r matches Some(t) ==> rfc3339_instant(text@) == Some(t@),
        r matches Some(t) ==> t@.valid(),
{
    match parse_from_rfc3339(text) {
        Some((secs, nanos)) => Timestamp::new(secs, nanos),
        None => None,
    }
}

/// `chrono::DateTime::timestamp_millis` of the instant at `secs` and `nanos`: the whole
/// milliseconds since the Unix epoch, a leap second's beyond the thousandth included.
#[verifier::external_body]
fn millis_of(secs: i64, nanos: u32) -> (r: i64)
    requires
        on_calendar(secs as int, nanos as int),
    ensures
        r == secs * 1000 + nanos as int / 1_000_000,
{
    DateTime::from_timestamp(secs, nanos).unwrap().timestamp_millis()
}

/// `chrono::DateTime::from_timestamp_millis`: the instant that many milliseconds after the Unix
/// epoch, if the calendar has it.
#[verifier::external_body]
fn split_millis(millis: i64) -> (r: Option<(i64, u32)>)
    ensures
        r is Some <==> MIN_SECS <= millis as int / 1000 <= MAX_SECS,
        r matches Some(t) ==> t.0 == millis as int / 1000 && t.1 == (millis as int % 1000) * 1_000_000,
{
    DateTime::from_timestamp_millis(millis).map(|t| (t.timestamp(), t.timestamp_subsec_nanos()))
}

/// The instant `millis` milliseconds after the Unix epoch, if the calendar has it.
pub fn from_timestamp_millis(millis: i64) -> (r: Option<Timestamp>)
    ensures
        r is Some <==> instant_of_millis(millis as int).valid(),
        r matches Some(t) ==> t@ == instant_of_millis(millis as int),
{
    match split_millis(millis) {
        Some((secs, nanos)) => Timestamp::new(secs, nanos),
        None => None,
    }
}

/// The calendar has every instant from the start of the year -262143 to the end of the year 262142,
/// to the nanosecond, and at the end of each minute a leap second.
pub proof fn law_the_calendar_has_every_instant(secs: int, nanos: int)
    ensures
        on_calendar(secs, nanos) <==> {
            &&& -8_334_601_228_800 <= secs <= 8_210_266_876_799
            &&& 0 <= nanos < 1_000_000_000 || 1_000_000_000 <= nanos < 2_000_000_000 && secs % 60
                == 59
        },
{
}

/// Instants of the calendar come by seconds and then by nanoseconds, and no two share a place.
pub proof fn law_instants_come_by_seconds_and_nanoseconds(a: Instant, b: Instant)
    requires
        a.valid(),
        b.valid(),
    ensures
        a.key() < b.key() <==> a.secs < b.secs || a.secs == b.secs && a.nanos < b.nanos,
        a.key() == b.key() <==> a == b,
{
}

/// Going back some seconds and then others is going back all of them, and later times stay later.
pub proof fn law_going_back_adds_up(now: Instant, later: Instant, a: nat, b: nat)
    requires
        now.valid(),
        later.valid(),
        now.nanos < 1_000_000_000,
        later.nanos < 1_000_000_000,
        now.key() < later.key(),
    ensures
        now.earlier(a as int).earlier(b as int) == now.earlier((a + b) as int),
        now.earlier(a as int).key() < later.earlier(a as int).key(),
        now.earlier(0) == now,
{
}

/// An instant that went through milliseconds comes back as the start of its millisecond; a leap
/// second comes back as the start of the next minute, if the calendar has one.
pub proof fn lemma_millis_round_trip(t: Instant)
    requires
        t.valid(),
        t.nanos >= 1_000_000_000 ==> t.secs < MAX_SECS,
    ensures
        instant_of_millis(t.millis()).valid(),
        instant_of_millis(t.millis()).secs == t.secs + t.nanos / 1_000_000_000,
        instant_of_millis(t.millis()).nanos == (t.nanos / 1_000_000 % 1000) * 1_000_000,
        instant_of_millis(t.millis()).millis() == t.millis(),
{
}

} // verus!
