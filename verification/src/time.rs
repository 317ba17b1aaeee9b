//! Moments in time as the tracker sees them: an instant together with the
//! offset of the wall clock that recorded it.

use chrono::{DateTime, Datelike, FixedOffset};
use vstd::prelude::*;

verus! {

#[verifier::external_type_specification]
#[verifier::external_body]
pub struct ExParseError(chrono::ParseError);

/// The earliest second that a timestamp can hold: the first second of the
/// year -262143.
pub const MIN_SECS: i64 = -8_334_601_228_800;

/// The latest second that a timestamp can hold: the last second of the year
/// 262142.
pub const MAX_SECS: i64 = 8_210_266_876_799;

/// The day number of the first of January 1970, where the first of January
/// of the year 1 is day 1.
pub const EPOCH_DAY: i64 = 719_163;

pub const DAY_SECS: i64 = 86_400;

/// A moment: seconds since the start of 1970 in UTC, nanoseconds into that
/// second, and the seconds by which the recording wall clock was ahead of
/// UTC.
pub struct Moment {
    pub secs: int,
    pub nanos: int,
    pub offset: int,
}

impl Moment {
    /// The moments that a timestamp can hold. A nanosecond count of a
    /// billion or more stands for a leap second, and is admitted only in
    /// the last second of a minute.
    pub open spec fn valid(self) -> bool {
        &&& MIN_SECS <= self.secs <= MAX_SECS
        &&& 0 <= self.nanos < 2_000_000_000
        &&& (self.nanos >= 1_000_000_000 ==> self.secs % 60 == 59)
        &&& -DAY_SECS < self.offset < DAY_SECS
    }

    /// The calendar day of the moment on the recording wall clock, counted
    /// from the first of January of the year 1 as day 1.
    pub open spec fn day_number(self) -> int {
        (self.secs + self.offset) / (DAY_SECS as int) + EPOCH_DAY
    }

    /// The moment as it is written in a file.
    pub open spec fn text(self) -> Seq<char> {
        moment_text(self.secs, self.nanos, self.offset)
    }

    /// Whether the moment comes back from its own text: the text is read
    /// as this moment, and holds neither a comma nor a line feed.
    pub open spec fn legible(self) -> bool {
        &&& read_moment(self.text()) == Some(self)
        &&& !self.text().contains(',')
        &&& !self.text().contains('\n')
    }
}

/// What chrono's `Display` writes for the moment: date, time of day with
/// the fraction of the second where there is one, and UTC offset.
pub uninterp spec fn moment_text(secs: int, nanos: int, offset: int) -> Seq<char>;

/// What chrono's `FromStr` reads from a text: seconds, nanoseconds and
/// offset of the moment, or nothing where it rejects the text.
pub uninterp spec fn parsed_moment(text: Seq<char>) -> Option<(int, int, int)>;

/// Writes a moment with chrono: `DateTime::from_timestamp`, moved to the
/// fixed offset, and then `to_string`, which goes through the `Display` of
/// `DateTime<FixedOffset>`. The contract only names the text.
#[verifier::external_body]
fn format_moment(secs: i64, nanos: u32, offset: i32) -> (text: String)
    requires
        (Moment { secs: secs as int, nanos: nanos as int, offset: offset as int }).valid(),
    ensures
        text@ == moment_text(secs as int, nanos as int, offset as int),
{
    let zone = FixedOffset::east_opt(offset).unwrap();
    DateTime::from_timestamp(secs, nanos).unwrap().with_timezone(&zone).to_string()
}

/// Reads a moment with chrono: `str::parse` into `DateTime<FixedOffset>`,
/// then `timestamp`, `timestamp_subsec_nanos` and the offset's
/// `local_minus_utc`. The contract only names what was read, and says that
/// an error comes exactly where chrono reads nothing.
#[verifier::external_body]
fn parse_moment(text: &str) -> (read: Result<(i64, u32, i32), chrono::ParseError>)
    ensures
        match read {
            Ok(m) => parsed_moment(text@) == Some((m.0 as int, m.1 as int, m.2 as int)),
            Err(_) => parsed_moment(text@) is None,
        },
{
    text.parse::<DateTime<FixedOffset>>().map(
        |t| (t.timestamp(), t.timestamp_subsec_nanos(), t.offset().local_minus_utc()),
    )
}

/// The day number of a moment with chrono: `Datelike::num_days_from_ce` of
/// the `DateTime<FixedOffset>`. chrono counts the days of the local date;
/// `from_timestamp` takes the date of an instant to be the whole days since
/// 1970 plus 719163, and the offset shifts the instant before the days are
/// taken.
#[verifier::external_body]
fn local_day(secs: i64, nanos: u32, offset: i32) -> (day: i32)
    requires
        (Moment { secs: secs as int, nanos: nanos as int, offset: offset as int }).valid(),
    ensures
        day == (Moment { secs: secs as int, nanos: nanos as int, offset: offset as int })
            .day_number(),
{
    let zone = FixedOffset::east_opt(offset).unwrap();
    DateTime::from_timestamp(secs, nanos).unwrap().with_timezone(&zone).num_days_from_ce()
}

/// Why a text was not taken for a timestamp.
#[derive(Clone, Copy, Debug, PartialEq, Eq)]
pub enum TimeError {
    /// The text is not a date and time with an offset.
    Unreadable(chrono::ParseError),
    /// The text names a moment that no timestamp can hold.
    OutOfRange,
}

/// A valid moment.
#[derive(Clone, Copy, Debug, PartialEq, Eq)]
pub struct Timestamp {
    secs: i64,
    nanos: u32,
    offset: i32,
}

impl Timestamp {
    #[verifier::type_invariant]
    spec fn well_formed(self) -> bool {
        self.view().valid()
    }

    pub closed spec fn view(&self) -> Moment {
        Moment { secs: self.secs as int, nanos: self.nanos as int, offset: self.offset as int }
    }

    /// The timestamp of the given moment, where it is valid.
    pub fn new(secs: i64, nanos: u32, offset: i32) -> (made: Option<Timestamp>)
        ensures
            made is Some <==> (Moment {
                secs: secs as int,
                nanos: nanos as int,
                offset: offset as int,
            }).valid(),
            made matches Some(t) ==> t@ == (Moment {
                secs: secs as int,
                nanos: nanos as int,
                offset: offset as int,
            }),
    {
        if secs < MIN_SECS || secs > MAX_SECS || nanos >= 2_000_000_000 || offset <= -86_400
            || offset >= 86_400 {
            return None;
        }
        let since_min: i64 = secs - MIN_SECS;
        if nanos >= 1_000_000_000 && since_min % 60 != 59 {
            return None;
        }
        Some(Timestamp { secs, nanos, offset })
    }

    pub fn secs(&self) -> (secs: i64)
        ensures
            secs == self@.secs,
    {
        self.secs
    }

    pub fn nanos(&self) -> (nanos: u32)
        ensures
            nanos == self@.nanos,
    {
        self.nanos
    }

    pub fn offset(&self) -> (offset: i32)
        ensures
            offset == self@.offset,
    {
        self.offset
    }

    /// The calendar day of the timestamp on its own wall clock.
    pub fn days_from_ce(&self) -> (day: i32)
        ensures
            day == self@.day_number(),
            self@.valid(),
    {
        proof {
            use_type_invariant(self);
        }
        local_day(self.secs, self.nanos, self.offset)
    }

    /// The timestamp as it is written in a file.
    pub fn to_text(&self) -> (text: String)
        ensures
            text@ == self@.text(),
    {
        proof {
            use_type_invariant(self);
        }
        format_moment(self.secs, self.nanos, self.offset)
    }

    /// What becomes of a text once it has been read: the timestamp of the
    /// moment read where it is valid.
    pub fn from_read(read: Result<(i64, u32, i32), chrono::ParseError>) -> (made: Result<
        Timestamp,
        TimeError,
    >)
        ensures
            match read {
                Ok(m) => {
                    let moment = Moment { secs: m.0 as int, nanos: m.1 as int, offset: m.2 as int };
                    if moment.valid() {
                        made matches Ok(t) && t@ == moment
                    } else {
                        made == Err::<Timestamp, TimeError>(TimeError::OutOfRange)
                    }
                },
                Err(e) => made == Err::<Timestamp, TimeError>(TimeError::Unreadable(e)),
            },
    {
        match read {
            Ok(m) => match Timestamp::new(m.0, m.1, m.2) {
                Some(t) => Ok(t),
                None => Err(TimeError::OutOfRange),
            },
            Err(e) => Err(TimeError::Unreadable(e)),
        }
    }

    /// The timestamp that a text stands for.
    pub fn from_text(text: &str) -> (made: Result<Timestamp, TimeError>)
        ensures
            made matches Ok(t) ==> read_moment(text@) == Some(t@),
            made is Err ==> read_moment(text@) is None,
            made matches Err(TimeError::OutOfRange) ==> parsed_moment(text@) is Some,
            made matches Err(TimeError::Unreadable(_)) ==> parsed_moment(text@) is None,
    {
        Timestamp::from_read(parse_moment(text))
    }
}

/// The valid moment that a text stands for, if any.
pub open spec fn read_moment(text: Seq<char>) -> Option<Moment> {
    match parsed_moment(text) {
        Some(m) => {
            let moment = Moment { secs: m.0, nanos: m.1, offset: m.2 };
            if moment.valid() {
                Some(moment)
            } else {
                None
            }
        },
        None => None,
    }
}

} // verus!
