//! Time as a bin of days, weeks, months or years since the Unix epoch and an
//! offset past the start of the bin.
//!
//! A month is taken as 31 days and a year as 52 weeks. The offset of a year
//! is counted in minutes from `52 * bin` days after the epoch, not from the
//! start of the bin.

use time::{Duration, OffsetDateTime};
use vstd::prelude::*;

verus! {

/// A point in time of the `time` crate; nothing of its inside is used here.
#[verifier::external_type_specification]
#[verifier::external_body]
pub struct ExOffsetDateTime(OffsetDateTime);

/// Seconds in a day.
pub const SECONDS_PER_DAY: i64 = 86_400;

/// Seconds in a week.
pub const SECONDS_PER_WEEK: i64 = 604_800;

/// Days in what is taken for a month.
pub const DAYS_IN_MONTH: i64 = 31;

/// Weeks in what is taken for a year.
pub const WEEKS_IN_YEAR: i64 = 52;

/// The number of bins since the epoch.
pub type BinIndex = i64;

/// The period of time in a bin.
#[derive(Debug, PartialEq, Eq, Structural, Clone, Copy)]
pub enum TimePeriod {
    /// Bins of one day.
    Day,
    /// Bins of one week.
    Week,
    /// Bins of 31 days.
    Month,
    /// Bins of 52 weeks.
    Year,
}

/// An offset with its unit.
#[derive(Debug, PartialEq, Eq, Structural, Clone, Copy)]
pub enum TimeUnits {
    /// The offset in milliseconds.
    Milliseconds(i128),
    /// The offset in seconds.
    Seconds(i128),
    /// The offset in minutes.
    Minutes(i128),
}

/// A time as a number of bins since the Unix epoch and an offset.
#[derive(Debug, PartialEq, Eq, Structural, Clone, Copy)]
pub struct BinnedTime {
    /// Number of bins since the Unix epoch.
    pub bin: BinIndex,
    /// What is left beyond the bins: milliseconds for days, seconds for weeks
    /// and months, minutes for years.
    pub offset: TimeUnits,
}

/// A signed span of time: whole seconds, and nanoseconds within the second.
#[derive(Debug, PartialEq, Eq, Structural, Clone, Copy)]
pub struct Span {
    /// Whole seconds.
    pub seconds: i64,
    /// Nanoseconds within the second.
    pub nanoseconds: i32,
}

/// The quotient of `a` by a positive `b`, rounded toward zero.
pub open spec fn trunc_div(a: int, b: int) -> int {
    if a >= 0 {
        a / b
    } else {
        -((-a) / b)
    }
}

/// The span of a number of milliseconds.
pub open spec fn spec_span_of_millis(millis: i64) -> Span {
    Span {
        seconds: trunc_div(millis as int, 1_000) as i64,
        nanoseconds: ((millis - 1_000 * trunc_div(millis as int, 1_000)) * 1_000_000) as i32,
    }
}

/// The number of whole bins in a span.
pub open spec fn spec_bin(period: TimePeriod, span: Span) -> int {
    match period {
        TimePeriod::Day => trunc_div(span.seconds as int, 86_400),
        TimePeriod::Week => trunc_div(span.seconds as int, 604_800),
        TimePeriod::Month => trunc_div(trunc_div(span.seconds as int, 86_400), 31),
        TimePeriod::Year => trunc_div(trunc_div(span.seconds as int, 604_800), 52),
    }
}

/// What a span holds beyond its whole bins.
pub open spec fn spec_offset(period: TimePeriod, span: Span) -> TimeUnits {
    let bin = spec_bin(period, span);
    match period {
        TimePeriod::Day => TimeUnits::Milliseconds(
            ((span.seconds - bin * 86_400) * 1_000 + trunc_div(
                span.nanoseconds as int,
                1_000_000,
            )) as i128,
        ),
        TimePeriod::Week => TimeUnits::Seconds((span.seconds - bin * 604_800) as i128),
        TimePeriod::Month => TimeUnits::Seconds((span.seconds - bin * 31 * 86_400) as i128),
        TimePeriod::Year => TimeUnits::Minutes(
            trunc_div(span.seconds - bin * 52 * 86_400, 60) as i128,
        ),
    }
}

/// The binned time of a span.
pub open spec fn spec_from_span(period: TimePeriod, span: Span) -> BinnedTime {
    BinnedTime { bin: spec_bin(period, span) as i64, offset: spec_offset(period, span) }
}

impl TimeUnits {
    /// The number, as a specification.
    pub open spec fn spec_num(self) -> i128 {
        match self {
            TimeUnits::Milliseconds(n) => n,
            TimeUnits::Seconds(n) => n,
            TimeUnits::Minutes(n) => n,
        }
    }

    /// The number of milliseconds, seconds or minutes.
    #[verifier::when_used_as_spec(spec_num)]
    #[must_use]
    pub fn num(self) -> (r: i128)
        ensures
            r == self.num(),
    {
        match self {
            TimeUnits::Milliseconds(n) | TimeUnits::Seconds(n) | TimeUnits::Minutes(n) => n,
        }
    }
}

impl Span {
    /// The nanoseconds are less than a second and have the sign of the
    /// seconds.
    pub open spec fn wf(&self) -> bool {
        &&& -1_000_000_000 < self.nanoseconds < 1_000_000_000
        &&& self.seconds > 0 ==> self.nanoseconds >= 0
        &&& self.seconds < 0 ==> self.nanoseconds <= 0
    }

    /// The span of `millis` milliseconds.
    pub fn from_millis(millis: i64) -> (r: Span)
        ensures
            r == spec_span_of_millis(millis),
            r.wf(),
    {
        span_of_millis(millis)
    }
}

/// The span of `millis` milliseconds, made by `time::Duration::milliseconds`
/// and read with `whole_seconds` and `subsec_nanoseconds`. Trusted: the
/// seconds are the milliseconds divided by 1000 and rounded toward zero, the
/// nanoseconds are the rest of that division, times a million.
#[verifier::external_body]
fn span_of_millis(millis: i64) -> (r: Span)
    ensures
        r == spec_span_of_millis(millis),
        r.wf(),
{
    let duration = Duration::milliseconds(millis);
    Span { seconds: duration.whole_seconds(), nanoseconds: duration.subsec_nanoseconds() }
}

/// The span from the Unix epoch to `datetime`: the difference to
/// `time::OffsetDateTime::unix_epoch()`, read with `whole_seconds` and
/// `subsec_nanoseconds`. Trusted: the nanoseconds are less than a second and
/// have the sign of the seconds.
#[verifier::external_body]
fn since_epoch(datetime: OffsetDateTime) -> (r: Span)
    ensures
        r.wf(),
{
    let duration = datetime - OffsetDateTime::unix_epoch();
    Span { seconds: duration.whole_seconds(), nanoseconds: duration.subsec_nanoseconds() }
}

impl BinnedTime {
    /// The binned time of `millis` milliseconds since the Unix epoch.
    #[must_use]
    pub fn from_millis(period: TimePeriod, millis: i64) -> (r: BinnedTime)
        ensures
            r == spec_from_span(period, spec_span_of_millis(millis)),
            period == TimePeriod::Day ==> r.bin * 86_400_000 + r.offset.num() == millis,
    {
        proof {
            lemma_day_round_trip(millis);
        }
        Self::from_span(period, span_of_millis(millis))
    }

    /// The binned time of a point in time: that of the span since the Unix
    /// epoch.
    #[must_use]
    pub fn from_datetime(period: TimePeriod, datetime: OffsetDateTime) -> (r: BinnedTime)
        ensures
            exists|span: Span| span.wf() && r == #[trigger] spec_from_span(period, span),
    {
        let span = since_epoch(datetime);
        Self::from_span(period, span)
    }

    /// The number of whole bins in `millis` milliseconds.
    #[must_use]
    pub fn millis_to_bin_index(period: TimePeriod, millis: i64) -> (r: BinIndex)
        ensures
            r == spec_bin(period, spec_span_of_millis(millis)),
    {
        Self::span_to_bin_index(period, span_of_millis(millis))
    }

    /// The number of whole bins from the Unix epoch to a point in time.
    #[must_use]
    pub fn datetime_to_bin_index(period: TimePeriod, datetime: OffsetDateTime) -> (r: BinIndex)
        ensures
            exists|span: Span| span.wf() && r == #[trigger] spec_bin(period, span),
    {
        let span = since_epoch(datetime);
        Self::span_to_bin_index(period, span)
    }

    /// The number of whole bins in a span.
    #[must_use]
    pub fn span_to_bin_index(period: TimePeriod, span: Span) -> (r: BinIndex)
        ensures
            r == spec_bin(period, span),
    {
        match period {
            TimePeriod::Day => span.seconds / SECONDS_PER_DAY,
            TimePeriod::Week => span.seconds / SECONDS_PER_WEEK,
            TimePeriod::Month => (span.seconds / SECONDS_PER_DAY) / DAYS_IN_MONTH,
            TimePeriod::Year => (span.seconds / SECONDS_PER_WEEK) / WEEKS_IN_YEAR,
        }
    }

    /// The binned time of a span.
    #[must_use]
    pub fn from_span(period: TimePeriod, span: Span) -> (r: BinnedTime)
        ensures
            r == spec_from_span(period, span),
    {
        match period {
            TimePeriod::Day => Self::millis_to_day_and_millis_(span),
            TimePeriod::Week => Self::millis_to_week_and_seconds_(span),
            TimePeriod::Month => Self::millis_to_month_and_seconds_(span),
            TimePeriod::Year => Self::millis_to_year_and_minutes_(span),
        }
    }

    /// Weeks, and the seconds beyond them.
    fn millis_to_week_and_seconds_(span: Span) -> (r: BinnedTime)
        ensures
            r == spec_from_span(TimePeriod::Week, span),
    {
        let weeks = span.seconds / SECONDS_PER_WEEK;
        let rest = span.seconds - weeks * SECONDS_PER_WEEK;
        BinnedTime { bin: weeks, offset: TimeUnits::Seconds(rest as i128) }
    }

    /// Days, and the milliseconds beyond them.
    fn millis_to_day_and_millis_(span: Span) -> (r: BinnedTime)
        ensures
            r == spec_from_span(TimePeriod::Day, span),
    {
        let days = span.seconds / SECONDS_PER_DAY;
        let rest = span.seconds - days * SECONDS_PER_DAY;
        let millis: i128 = rest as i128 * 1_000 + (span.nanoseconds / 1_000_000) as i128;
        BinnedTime { bin: days, offset: TimeUnits::Milliseconds(millis) }
    }

    /// Months of 31 days, and the seconds beyond them.
    fn millis_to_month_and_seconds_(span: Span) -> (r: BinnedTime)
        ensures
            r == spec_from_span(TimePeriod::Month, span),
    {
        let months: i64 = (span.seconds / SECONDS_PER_DAY) / DAYS_IN_MONTH;
        let rest = span.seconds - months * DAYS_IN_MONTH * SECONDS_PER_DAY;
        BinnedTime { bin: months, offset: TimeUnits::Seconds(rest as i128) }
    }

    /// Years of 52 weeks, and the minutes beyond 52 days for each of them.
    fn millis_to_year_and_minutes_(span: Span) -> (r: BinnedTime)
        ensures
            r == spec_from_span(TimePeriod::Year, span),
    {
        let years = (span.seconds / SECONDS_PER_WEEK) / WEEKS_IN_YEAR;
        let rest = span.seconds - years * WEEKS_IN_YEAR * SECONDS_PER_DAY;
        BinnedTime { bin: years, offset: TimeUnits::Minutes((rest / 60) as i128) }
    }
}

/// Days and the milliseconds beyond them add up to the time they were made
/// from.
pub proof fn lemma_day_round_trip(millis: i64)
    ensures
        ({
            let r = spec_from_span(TimePeriod::Day, spec_span_of_millis(millis));
            r.bin * 86_400_000 + r.offset.num() == millis
        }),
{
}

/// Weeks and the seconds beyond them add up to the whole seconds of the time
/// they were made from.
pub proof fn lemma_week_round_trip(millis: i64)
    ensures
        ({
            let r = spec_from_span(TimePeriod::Week, spec_span_of_millis(millis));
            r.bin * 604_800 + r.offset.num() == trunc_div(millis as int, 1_000)
        }),
{
}

/// Months and the seconds beyond them add up to the whole seconds of the
/// time they were made from.
pub proof fn lemma_month_round_trip(millis: i64)
    ensures
        ({
            let r = spec_from_span(TimePeriod::Month, spec_span_of_millis(millis));
            r.bin * 31 * 86_400 + r.offset.num() == trunc_div(millis as int, 1_000)
        }),
{
}

} // verus!
