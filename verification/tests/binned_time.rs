use quickcheck::QuickCheck;
use space_time::binned_time::{BinnedTime, Span, TimePeriod, TimeUnits};
use time::{Duration, OffsetDateTime};

fn binned_time_to_time(period: TimePeriod, binned_time: BinnedTime) -> i64 {
    let bin_dur = match period {
        TimePeriod::Day => Duration::days(binned_time.bin),
        TimePeriod::Week => Duration::weeks(binned_time.bin),
        TimePeriod::Month => Duration::days(binned_time.bin * 31),
        TimePeriod::Year => Duration::weeks(binned_time.bin * 52),
    };

    let offset_dur = match period {
        TimePeriod::Day => Duration::milliseconds(binned_time.offset.num() as i64),
        TimePeriod::Week => Duration::seconds(binned_time.offset.num() as i64),
        TimePeriod::Month => Duration::seconds(binned_time.offset.num() as i64),
        TimePeriod::Year => Duration::minutes(binned_time.offset.num() as i64),
    };

    (bin_dur + offset_dur).whole_milliseconds() as i64
}

fn day_is_millis(time: i64) -> bool {
    let binned = BinnedTime::from_millis(TimePeriod::Day, time);
    binned_time_to_time(TimePeriod::Day, binned) == time
}

fn week_is_millis(time: i64) -> bool {
    let binned = BinnedTime::from_millis(TimePeriod::Week, time);
    binned_time_to_time(TimePeriod::Week, binned)
        == Duration::seconds(Duration::milliseconds(time).whole_seconds()).whole_milliseconds()
            as i64
}

fn month_is_millis(time: i64) -> bool {
    let binned = BinnedTime::from_millis(TimePeriod::Month, time);
    binned_time_to_time(TimePeriod::Month, binned)
        == Duration::seconds(Duration::milliseconds(time).whole_seconds()).whole_milliseconds()
            as i64
}

#[test]
fn milliseconds_as_binned_day_is_millis() {
    QuickCheck::new().quickcheck(day_is_millis as fn(i64) -> bool);
}

#[test]
fn milliseconds_as_binned_week_is_millis() {
    QuickCheck::new().quickcheck(week_is_millis as fn(i64) -> bool);
}

#[test]
fn milliseconds_as_binned_month_is_millis() {
    QuickCheck::new().quickcheck(month_is_millis as fn(i64) -> bool);
}

#[test]
fn days_and_milliseconds() {
    let bin = BinnedTime::from_millis(TimePeriod::Day, 90_000_000);
    assert_eq!(bin.bin, 1);
    assert_eq!(bin.offset, TimeUnits::Milliseconds(3_600_000));
}

#[test]
fn weeks_and_seconds() {
    let bin = BinnedTime::from_millis(TimePeriod::Week, 1_512_000_000);
    assert_eq!(bin.bin, 2);
    assert_eq!(bin.offset, TimeUnits::Seconds(302_400));
}

#[test]
fn months_and_seconds() {
    let bin = BinnedTime::from_millis(TimePeriod::Month, 17_366_400_000);
    assert_eq!(bin.bin, 6);
    assert_eq!(bin.offset, TimeUnits::Seconds(1_296_000));
}

#[test]
fn years_and_minutes() {
    let bin = BinnedTime::from_millis(TimePeriod::Year, 1_586_260_800_000);
    assert_eq!(bin.bin, 50);
    assert_eq!(bin.offset, TimeUnits::Minutes(22_693_680));
}

#[test]
fn num_gives_the_number_of_any_unit() {
    assert_eq!(TimeUnits::Milliseconds(5).num(), 5);
    assert_eq!(TimeUnits::Seconds(-6).num(), -6);
    assert_eq!(TimeUnits::Minutes(7).num(), 7);
}

#[test]
fn a_span_of_milliseconds_rounds_toward_zero() {
    assert_eq!(
        Span::from_millis(1_234),
        Span { seconds: 1, nanoseconds: 234_000_000 }
    );
    assert_eq!(
        Span::from_millis(-1_234),
        Span { seconds: -1, nanoseconds: -234_000_000 }
    );
    assert_eq!(Span::from_millis(-999), Span { seconds: 0, nanoseconds: -999_000_000 });
    assert_eq!(Span::from_millis(0), Span { seconds: 0, nanoseconds: 0 });
}

#[test]
fn days_and_milliseconds_add_up() {
    for millis in [
        0i64,
        1,
        -1,
        86_399_999,
        86_400_000,
        -86_400_001,
        1_586_260_800_123,
        i64::MAX,
        i64::MIN,
    ] {
        let binned = BinnedTime::from_millis(TimePeriod::Day, millis);
        assert_eq!(
            binned.bin as i128 * 86_400_000 + binned.offset.num(),
            millis as i128
        );
        assert_eq!(
            BinnedTime::millis_to_bin_index(TimePeriod::Day, millis),
            binned.bin
        );
    }
}

#[test]
fn weeks_and_months_add_up_to_whole_seconds() {
    for millis in [0i64, 999, -999, 604_800_000, -604_800_001, 1_586_260_800_123, i64::MAX, i64::MIN] {
        let weeks = BinnedTime::from_millis(TimePeriod::Week, millis);
        assert_eq!(
            weeks.bin as i128 * 604_800 + weeks.offset.num(),
            (millis / 1_000) as i128
        );
        let months = BinnedTime::from_millis(TimePeriod::Month, millis);
        assert_eq!(
            months.bin as i128 * 31 * 86_400 + months.offset.num(),
            (millis / 1_000) as i128
        );
    }
}

#[test]
fn bin_indices() {
    assert_eq!(BinnedTime::millis_to_bin_index(TimePeriod::Day, 90_000_000), 1);
    assert_eq!(BinnedTime::millis_to_bin_index(TimePeriod::Week, 1_512_000_000), 2);
    assert_eq!(BinnedTime::millis_to_bin_index(TimePeriod::Month, 17_366_400_000), 6);
    assert_eq!(
        BinnedTime::millis_to_bin_index(TimePeriod::Year, 1_586_260_800_000),
        50
    );
    assert_eq!(BinnedTime::millis_to_bin_index(TimePeriod::Day, -90_000_000), -1);
}

#[test]
fn a_datetime_is_binned_as_its_time_since_the_epoch() {
    let datetime = OffsetDateTime::from_unix_timestamp(1_586_260_800);
    assert_eq!(
        BinnedTime::from_datetime(TimePeriod::Year, datetime),
        BinnedTime::from_millis(TimePeriod::Year, 1_586_260_800_000)
    );
    assert_eq!(
        BinnedTime::from_datetime(TimePeriod::Day, datetime),
        BinnedTime::from_millis(TimePeriod::Day, 1_586_260_800_000)
    );
    assert_eq!(BinnedTime::datetime_to_bin_index(TimePeriod::Week, datetime), 2622);
    let before = OffsetDateTime::from_unix_timestamp(-90_000);
    assert_eq!(
        BinnedTime::from_datetime(TimePeriod::Day, before),
        BinnedTime { bin: -1, offset: TimeUnits::Milliseconds(-3_600_000) }
    );
    assert_eq!(
        BinnedTime::from_datetime(TimePeriod::Day, OffsetDateTime::unix_epoch()),
        BinnedTime { bin: 0, offset: TimeUnits::Milliseconds(0) }
    );
}
