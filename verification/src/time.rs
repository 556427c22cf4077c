//! Instants, time windows, and the reading of times that a user typed.
use crate::error;
use crate::error::BundleError;
use crate::source;
use crate::source::Chain;
use vstd::prelude::*;

verus! {

/// The earliest instant, in nanoseconds since the Unix epoch.
pub const MIN_NANOSECOND: i128 = -377_705_023_201_000_000_000;

/// The latest instant, in nanoseconds since the Unix epoch.
pub const MAX_NANOSECOND: i128 = 253_402_207_200_999_999_999;

/// Ignore lines with timestamps from the previous millenium: the first instant
/// of the year 2001, in nanoseconds since the Unix epoch.
pub const JANUARY_1_2001: i128 = 978_307_200_000_000_000;

/// An instant, counted in nanoseconds since the Unix epoch.
#[derive(Clone, Copy, Debug, PartialEq, Eq)]
pub struct Timestamp {
    nanosecond: i128,
}

/// The instants that a timestamp can hold.
pub open spec fn representable(nanosecond: int) -> bool {
    MIN_NANOSECOND <= nanosecond <= MAX_NANOSECOND
}

/// The instant `second` seconds after the Unix epoch, where a timestamp can
/// hold it.
pub open spec fn second_instant(second: int) -> Option<int> {
    if representable(second * 1_000_000_000) {
        Some(second * 1_000_000_000)
    } else {
        None
    }
}

impl View for Timestamp {
    type V = int;

    closed spec fn view(&self) -> int {
        self.nanosecond as int
    }
}

impl Timestamp {
    #[verifier::type_invariant]
    closed spec fn in_range(self) -> bool {
        representable(self.nanosecond as int)
    }

    /// The instant that many nanoseconds after the Unix epoch.
    pub fn from_nanosecond(nanosecond: i128) -> (r: Option<Self>)
        ensures
            source::instant(r) == (if representable(nanosecond as int) {
                Some(nanosecond as int)
            } else {
                None
            }),
    {
        if MIN_NANOSECOND <= nanosecond && nanosecond <= MAX_NANOSECOND {
            Some(Timestamp { nanosecond })
        } else {
            None
        }
    }

    /// The instant that many seconds after the Unix epoch.
    pub fn from_second(second: i64) -> (r: Option<Self>)
        ensures
            source::instant(r) == second_instant(second as int),
    {
        Self::from_nanosecond(second as i128 * 1_000_000_000)
    }

    /// Nanoseconds since the Unix epoch.
    pub fn as_nanosecond(&self) -> (r: i128)
        ensures
            r == self@,
            representable(r as int),
    {
        proof {
            use_type_invariant(self);
        }
        self.nanosecond
    }
}

/// `ts` lies in the window: not before 2001, strictly before `before` and
/// strictly after `after`. A missing bound bounds nothing.
pub open spec fn in_window(ts: int, before: Option<int>, after: Option<int>) -> bool {
    &&& ts >= JANUARY_1_2001
    &&& match before {
        Some(t) => ts < t,
        None => true,
    }
    &&& match after {
        Some(t) => ts > t,
        None => true,
    }
}

/// Whether a timestamp lies in a window. Timestamps from before 2001 are
/// always excluded, as they indicate a missing or bogus time.
pub fn within_time_range(
    ts: &Timestamp,
    before: &Option<Timestamp>,
    after: &Option<Timestamp>,
) -> (r: bool)
    ensures
        r == in_window(ts@, source::instant(*before), source::instant(*after)),
{
    let t: i128 = ts.as_nanosecond();
    if t < JANUARY_1_2001 {
        return false;
    }
    let early = match before {
        Some(b) => t < b.as_nanosecond(),
        None => true,
    };
    let late = match after {
        Some(a) => t > a.as_nanosecond(),
        None => true,
    };
    early && late
}

/// A time window bounding which archived log files to include.
#[derive(Clone, Copy, Debug, PartialEq, Eq)]
pub struct TimeRange {
    /// Only include files with timestamps after this time.
    pub after: Option<Timestamp>,
    /// Only include files with timestamps before this time.
    pub before: Option<Timestamp>,
}

impl Default for TimeRange {
    fn default() -> (r: Self)
        ensures
            r.after is None,
            r.before is None,
    {
        TimeRange { after: None, before: None }
    }
}

impl TimeRange {
    /// Whether either bound is set, i.e. whether time filtering was requested.
    pub fn is_set(&self) -> (r: bool)
        ensures
            r == (self.after is Some || self.before is Some),
    {
        self.after.is_some() || self.before.is_some()
    }

    /// Whether `ts` falls within the range. Timestamps from before 2001 are
    /// always excluded, as they indicate a missing or bogus time.
    pub fn contains(&self, ts: Timestamp) -> (r: bool)
        ensures
            r == in_window(ts@, source::instant(self.before), source::instant(self.after)),
    {
        within_time_range(&ts, &self.before, &self.after)
    }
}

/// The instant that a text with a date, a time and a UTC offset denotes, in
/// nanoseconds, or the complaint about it.
pub uninterp spec fn instant_text(s: Seq<char>) -> Result<int, Seq<char>>;

/// The instant that a text with a date and a time, without an offset, denotes
/// when it is read in UTC: `None` where the text is no such time, an error
/// where the instant cannot be represented.
pub uninterp spec fn civil_text(s: Seq<char>) -> Option<Result<int, Seq<char>>>;

/// The instant to which the span of time that a text denotes leads from the
/// instant `from`: `None` where the text is no span.
pub uninterp spec fn shifted_by_text(from: int, s: Seq<char>) -> Option<int>;

/// Reads an instant, by `jiff::Timestamp`'s `FromStr`.
///
/// Trusted: the outcome depends on the text alone, and an instant lies between
/// `jiff::Timestamp::MIN` and `MAX`. Which texts are instants is left to the
/// crate.
#[verifier::external_body]
fn parse_instant(s: &str) -> (r: Result<i128, String>)
    ensures
        match r {
            Ok(n) => instant_text(s@) == Ok::<int, Seq<char>>(n as int) && representable(n as int),
            Err(e) => instant_text(s@) == Err::<int, Seq<char>>(e@),
        },
{
    s.parse::<jiff::Timestamp>().map(|t| t.as_nanosecond()).map_err(|e| e.to_string())
}

/// Reads a civil time in UTC, by the `FromStr` of `jiff::civil::DateTime`, whose
/// value `to_zoned` then turns into an instant.
///
/// Trusted: the outcome depends on the text alone, and an instant lies between
/// `jiff::Timestamp::MIN` and `MAX`. Which texts are civil times is left to the
/// crate.
#[verifier::external_body]
fn parse_civil(s: &str) -> (r: Option<Result<i128, String>>)
    ensures
        match r {
            Some(Ok(n)) => civil_text(s@) == Some(Ok::<int, Seq<char>>(n as int)) && representable(
                n as int,
            ),
            Some(Err(e)) => civil_text(s@) == Some(Err::<int, Seq<char>>(e@)),
            None => civil_text(s@) is None,
        },
{
    let civil = s.parse::<jiff::civil::DateTime>().ok()?;
    let zoned = civil.to_zoned(jiff::tz::TimeZone::UTC);
    Some(zoned.map(|z| z.timestamp().as_nanosecond()).map_err(|e| e.to_string()))
}

/// Shifts an instant by a span of time, by `jiff::Zoned::saturating_add` in UTC
/// with the value that the `FromStr` of `jiff::Span` reads.
///
/// Trusted: the outcome depends on the instant and the text alone, and an
/// instant lies between `jiff::Timestamp::MIN` and `MAX`. Which texts are spans
/// is left to the crate. `requires` leaves out the instants that `jiff` cannot
/// represent, on which the conversion panics.
#[verifier::external_body]
fn shift_by_span(from: i128, s: &str) -> (r: Option<i128>)
    requires
        representable(from as int),
    ensures
        match r {
            Some(n) => shifted_by_text(from as int, s@) == Some(n as int) && representable(
                n as int,
            ),
            None => shifted_by_text(from as int, s@) is None,
        },
{
    let span = s.parse::<jiff::Span>().ok()?;
    let zoned = jiff::Timestamp::from_nanosecond(from).unwrap().to_zoned(jiff::tz::TimeZone::UTC);
    Some(zoned.saturating_add(span).timestamp().as_nanosecond())
}

/// A timestamp or a complaint, as plain values.
pub open spec fn outcome(r: Result<Timestamp, String>) -> Result<int, Seq<char>> {
    match r {
        Ok(t) => Ok(t@),
        Err(e) => Err(e@),
    }
}

/// A result of a timestamp, its error as a chain.
pub open spec fn stamp(r: Result<Timestamp, BundleError>) -> Result<int, Chain> {
    match r {
        Ok(t) => Ok(t@),
        Err(e) => Err(e@),
    }
}

/// The first reading that a text allows: as an instant, as a civil time, as a
/// span. Where it allows none, the complaint about the first is reported.
pub open spec fn chosen(
    as_instant: Result<int, Seq<char>>,
    as_civil: Option<Result<int, Seq<char>>>,
    as_span: Option<int>,
) -> Result<int, Chain> {
    match as_instant {
        Ok(t) => Ok(t),
        Err(e) => match as_civil {
            Some(Ok(t)) => Ok(t),
            Some(Err(late)) => Err(error::single(late)),
            None => match as_span {
                Some(t) => Ok(t),
                None => Err(error::single("could not parse timestamp: "@ + e)),
            },
        },
    }
}

/// Picks the reading of a time that a user typed.
pub fn choose_reading(
    as_instant: Result<Timestamp, String>,
    as_civil: Option<Result<Timestamp, String>>,
    as_span: Option<Timestamp>,
) -> (r: Result<Timestamp, BundleError>)
    ensures
        stamp(r) == chosen(
            outcome(as_instant),
            match as_civil {
                Some(c) => Some(outcome(c)),
                None => None,
            },
            source::instant(as_span),
        ),
{
    match as_instant {
        Ok(t) => Ok(t),
        Err(e) => match as_civil {
            Some(Ok(t)) => Ok(t),
            Some(Err(late)) => Err(BundleError::new(late)),
            None => match as_span {
                Some(t) => Ok(t),
                None => {
                    let mut m = "could not parse timestamp: ".to_owned();
                    m.append(e.as_str());
                    Err(BundleError::new(m))
                },
            },
        },
    }
}

/// Reads a time that a user typed: a timestamp with an offset, a date and time
/// in UTC, or a span of time relative to `relative_to`.
pub fn parse_timestamp(relative_to: Timestamp, date_str: &str) -> (r: Result<
    Timestamp,
    BundleError,
>)
    ensures
        stamp(r) == chosen(
            instant_text(date_str@),
            civil_text(date_str@),
            shifted_by_text(relative_to@, date_str@),
        ),
{
    let as_instant = match parse_instant(date_str) {
        Ok(n) => Ok(Timestamp { nanosecond: n }),
        Err(e) => Err(e),
    };
    let as_civil = match parse_civil(date_str) {
        Some(Ok(n)) => Some(Ok(Timestamp { nanosecond: n })),
        Some(Err(e)) => Some(Err(e)),
        None => None,
    };
    let as_span = match shift_by_span(relative_to.as_nanosecond(), date_str) {
        Some(n) => Some(Timestamp { nanosecond: n }),
        None => None,
    };
    choose_reading(as_instant, as_civil, as_span)
}

} // verus!
