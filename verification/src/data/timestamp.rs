//! Points in time, as whole seconds since the Unix epoch (UTC), leap seconds included.

use vstd::prelude::*;

use crate::error::{CsvErrorView, ParseCsvError};

verus! {

/// The earliest second `chrono` can represent as a `DateTime<Utc>` (-262143-01-01T00:00:00).
/// It starts a day: it is a whole number of days before the epoch.
pub const MIN_UNIX_SECONDS: i64 = -8334601228800i64;

/// The latest second `chrono` can represent as a `DateTime<Utc>` (+262142-12-31T23:59:59).
pub const MAX_UNIX_SECONDS: i64 = 8210266876799i64;

/// Nanoseconds into the second that mark a leap second (`chrono` writes it as second 60).
pub const LEAP_NANOS: u32 = 1_000_000_000;

/// The text layout of timestamps shown to people (`DateTime<Utc>`'s `Display`).
pub const DISPLAY_TIMESTAMP_FORMAT: &'static str = "%Y-%m-%d %H:%M:%S UTC";

/// The text layout of timestamps in the CSV file.
pub const CSV_TIMESTAMP_FORMAT: &'static str = "%Y-%m-%dT%H:%M:%S";

/// A UTC instant, to the second. A leap second (written `:60`) is held as the second `:59`
/// before it, marked as leap.
#[derive(Debug, Clone, Copy, PartialEq, Eq, Structural)]
pub struct Timestamp {
    seconds: i64,
    leap: bool,
}

impl Timestamp {
    #[verifier::type_invariant]
    spec fn in_range(self) -> bool {
        &&& MIN_UNIX_SECONDS <= self.seconds && self.seconds <= MAX_UNIX_SECONDS
        &&& self.leap ==> self.seconds % 60 == 59
    }

    /// Seconds since 1970-01-01T00:00:00 UTC, not counting leap seconds (a leap second
    /// counts as the second before it).
    pub closed spec fn secs(self) -> int {
        self.seconds as int
    }

    /// Whether this is a leap second.
    pub closed spec fn leap_second(self) -> bool {
        self.leap
    }

    /// The instant `seconds` after the epoch, when `chrono` can represent it.
    pub fn from_unix_seconds(seconds: i64) -> (r: Option<Timestamp>)
        ensures
            r is Some <==> MIN_UNIX_SECONDS <= seconds <= MAX_UNIX_SECONDS,
            r matches Some(t) ==> t.secs() == seconds && !t.leap_second(),
    {
        if MIN_UNIX_SECONDS <= seconds && seconds <= MAX_UNIX_SECONDS {
            Some(Timestamp { seconds, leap: false })
        } else {
            None
        }
    }

    /// Seconds since 1970-01-01T00:00:00 UTC (a leap second counts as the second before it).
    pub fn unix_seconds(&self) -> (s: i64)
        ensures
            s == self.secs(),
            MIN_UNIX_SECONDS <= s <= MAX_UNIX_SECONDS,
    {
        proof {
            use_type_invariant(self);
        }
        self.seconds
    }

    /// Whether this is a leap second.
    pub fn is_leap_second(&self) -> (r: bool)
        ensures
            r == self.leap_second(),
            r ==> self.secs() % 60 == 59,
    {
        proof {
            use_type_invariant(self);
        }
        self.leap
    }

    /// The position of the instant on the time line (see [`rank`]).
    pub fn rank_value(&self) -> (r: i64)
        ensures
            r == rank(*self),
    {
        proof {
            use_type_invariant(self);
        }
        if self.leap {
            2 * self.seconds + 1
        } else {
            2 * self.seconds
        }
    }

    /// The time from `earlier` to this instant, in whole seconds, as `chrono` counts it (see
    /// [`elapsed`]).
    pub fn elapsed_since(&self, earlier: &Timestamp) -> (r: i64)
        ensures
            r == elapsed(*self, *earlier),
    {
        proof {
            use_type_invariant(self);
            use_type_invariant(earlier);
        }
        let tod1 = time_of_day(self.seconds);
        let tod0 = time_of_day(earlier.seconds);
        let mut d = self.seconds - earlier.seconds;
        if self.leap {
            d = d + 1;
        }
        if earlier.leap {
            d = d - 1;
        }
        if tod1 > tod0 && earlier.leap {
            d = d + 1;
        }
        if tod1 < tod0 && self.leap {
            d = d - 1;
        }
        d
    }

    /// Appends the instant as shown to people (`2026-05-05 18:39:29 UTC`).
    pub fn push_display_text(&self, out: &mut String)
        ensures
            final(out)@ == old(out)@ + time_text(*self, DISPLAY_TIMESTAMP_FORMAT@),
    {
        let text = format_datetime(self.unix_seconds(), self.nanos(), DISPLAY_TIMESTAMP_FORMAT);
        crate::text::push_str(out, text.as_str());
    }

    /// Appends the instant in the CSV layout (`%Y-%m-%dT%H:%M:%S`).
    pub fn push_csv_text(&self, out: &mut String)
        ensures
            final(out)@ == old(out)@ + time_text(*self, CSV_TIMESTAMP_FORMAT@),
    {
        let text = format_datetime(self.unix_seconds(), self.nanos(), CSV_TIMESTAMP_FORMAT);
        crate::text::push_str(out, text.as_str());
    }

    /// The nanoseconds into the second: zero, or [`LEAP_NANOS`] for a leap second.
    fn nanos(&self) -> (n: u32)
        ensures
            n == nanos_of(*self),
            n == LEAP_NANOS ==> self.secs() % 60 == 59,
    {
        proof {
            use_type_invariant(self);
        }
        if self.leap {
            LEAP_NANOS
        } else {
            0
        }
    }
}

/// The nanoseconds into the second: zero, or [`LEAP_NANOS`] for a leap second.
pub open spec fn nanos_of(t: Timestamp) -> u32 {
    if t.leap_second() {
        LEAP_NANOS
    } else {
        0
    }
}

/// The position of the instant on the time line: twice its seconds, plus one for a leap
/// second (which comes after the second before it and before the next one).
pub open spec fn rank(t: Timestamp) -> int {
    2 * t.secs() + if t.leap_second() {
        1int
    } else {
        0int
    }
}

/// The second of the day of an instant.
pub open spec fn day_second(secs: int) -> int {
    secs % 86400
}

/// The time from `t0` to `t1` in whole seconds, as `chrono` subtracts two `DateTime<Utc>`:
/// whole days, plus the difference of the times of day, where a leap second counts as one
/// more second when the other time of day is later in its day, and as nothing otherwise.
pub open spec fn elapsed(t1: Timestamp, t0: Timestamp) -> int {
    let l1: int = if t1.leap_second() {
        1
    } else {
        0
    };
    let l0: int = if t0.leap_second() {
        1
    } else {
        0
    };
    let tod1 = day_second(t1.secs());
    let tod0 = day_second(t0.secs());
    t1.secs() - t0.secs() + l1 - l0 + (if tod1 > tod0 && t0.leap_second() {
        1int
    } else {
        0int
    }) - (if tod1 < tod0 && t1.leap_second() {
        1int
    } else {
        0int
    })
}

/// The second of the day of `secs` (at least [`MIN_UNIX_SECONDS`], which starts a day).
fn time_of_day(secs: i64) -> (r: i64)
    requires
        MIN_UNIX_SECONDS <= secs <= MAX_UNIX_SECONDS,
    ensures
        r == day_second(secs as int),
{
    let shifted = (secs - MIN_UNIX_SECONDS) as u64;
    let r = (shifted % 86400) as i64;
    proof {
        let x = secs as int;
        let m = MIN_UNIX_SECONDS as int;
        assert(m == -96465292 * 86400);
        vstd::arithmetic::div_mod::lemma_mod_multiples_vanish(96465292, x, 86400);
        assert((x - m) == 86400 * 96465292 + x);
    }
    r
}

/// What `chrono` reads from `s` with the layout `fmt`, as seconds since the epoch and
/// nanoseconds into the second (a name for the parser's result).
pub uninterp spec fn spec_parse_datetime(s: Seq<char>, fmt: Seq<char>) -> Option<(i64, u32)>;

/// Calls `chrono::NaiveDateTime::parse_from_str(s, fmt)` and takes the result as UTC
/// seconds (`timestamp`) and nanoseconds (`timestamp_subsec_nanos`). The contract claims that
/// the result depends on the two texts alone, that it lies in `chrono`'s range, and, for the
/// CSV layout (which has no fraction of a second), that the nanoseconds are zero, or one
/// second for a leap second, which `chrono` only represents after a second `:59`.
#[verifier::external_body]
fn parse_datetime(s: &str, fmt: &str) -> (r: Option<(i64, u32)>)
    requires
        fmt@ == CSV_TIMESTAMP_FORMAT@,
    ensures
        r == spec_parse_datetime(s@, fmt@),
        r matches Some((t, n)) ==> {
            &&& MIN_UNIX_SECONDS <= t <= MAX_UNIX_SECONDS
            &&& n == 0 || (n == LEAP_NANOS && t % 60 == 59)
        },
{
    chrono::NaiveDateTime::parse_from_str(s, fmt).ok().map(|d| (d.and_utc().timestamp(), d.and_utc().timestamp_subsec_nanos()))
}

/// What `chrono` writes for the instant `secs` seconds and `nanos` nanoseconds after the
/// epoch with the layout `fmt` (a name for the result).
pub uninterp spec fn spec_format_datetime(secs: i64, nanos: u32, fmt: Seq<char>) -> Seq<char>;

/// The layouts timestamps are written in.
pub open spec fn is_timestamp_layout(fmt: Seq<char>) -> bool {
    fmt == DISPLAY_TIMESTAMP_FORMAT@ || fmt == CSV_TIMESTAMP_FORMAT@
}

/// Calls `chrono::DateTime::<Utc>::from_timestamp(secs, nanos)` and formats the instant with
/// `fmt`. `from_timestamp` succeeds for every second in `chrono`'s range with no nanoseconds,
/// or one second of them after a second `:59` (a leap second); writing fails (which
/// `to_string` turns into a panic) only for a layout with an unknown specifier. So the
/// `requires` demands these; the contract names the text and claims nothing more of it.
#[verifier::external_body]
fn format_datetime(secs: i64, nanos: u32, fmt: &str) -> (r: String)
    requires
        MIN_UNIX_SECONDS <= secs <= MAX_UNIX_SECONDS,
        nanos == 0 || (nanos == LEAP_NANOS && secs % 60 == 59),
        is_timestamp_layout(fmt@),
    ensures
        r@ == spec_format_datetime(secs, nanos, fmt@),
{
    chrono::DateTime::from_timestamp(secs, nanos).unwrap().format(fmt).to_string()
}

/// The text of an instant in the layout `fmt`.
pub open spec fn time_text(t: Timestamp, fmt: Seq<char>) -> Seq<char> {
    spec_format_datetime(t.secs() as i64, nanos_of(t), fmt)
}

/// The instant a CSV timestamp value names, if any: its seconds and whether it is a leap
/// second.
pub open spec fn timestamp_from_text(s: Seq<char>) -> Option<(i64, bool)> {
    match spec_parse_datetime(s, CSV_TIMESTAMP_FORMAT@) {
        Some((t, n)) => Some((t, n == LEAP_NANOS)),
        None => None,
    }
}

/// Reads a CSV timestamp (`%Y-%m-%dT%H:%M:%S`, taken as UTC; second 60 is a leap second).
pub fn parse_timestamp(value: &str) -> (r: Result<Timestamp, ParseCsvError>)
    ensures
        match r {
            Ok(t) => timestamp_from_text(value@) == Some((t.secs() as i64, t.leap_second())),
            Err(e) => timestamp_from_text(value@) is None && e@ == (CsvErrorView::InvalidDateTime {
                field: "timestamp"@,
                value: value@,
            }),
        },
{
    match parse_datetime(value, CSV_TIMESTAMP_FORMAT) {
        Some((seconds, nanos)) => Ok(Timestamp { seconds, leap: nanos == LEAP_NANOS }),
        None => Err(ParseCsvError::InvalidDateTime { field: "timestamp", value: value.to_owned() }),
    }
}

} // verus!
