use reldate::Date;
use reldate::DateRangeIterator;
use reldate::Weekday;
use reldate::date::MAX_YEAR;
use reldate::datestream::month_last_iterator;
use reldate::datestream::month_ordinal_iterator;
use reldate::datestream::weekday_iterator;
use reldate::datestream::year_day_iterator;
use reldate::rules::AddDaysRule;
use reldate::rules::MonthOrdinalRule;
use reldate::rules::RuleError;
use reldate::rules::WeekdayRule;
use reldate::rules::YearDayRule;

fn d(year: u32, month: u32, day: u32) -> Date {
    Date::from_ymd(year, month, day).unwrap()
}

#[test]
fn can_detect_dayofweek() {
    let date = d(2015, 3, 27);

    assert!(Weekday::Fri == date.weekday());
}

#[test]
fn datestream_can_generate_range() {
    let mut it = DateRangeIterator::from_date(d(2015, 3, 27), AddDaysRule { days: 1 });
    let range = it.take(5);
    println!("{:?}", range);

    let test_range = [
        d(2015, 3, 27),
        d(2015, 3, 28),
        d(2015, 3, 29),
        d(2015, 3, 30),
        d(2015, 3, 31),
    ];

    assert!(range == test_range);
}

#[test]
fn can_generate_weekly_range() {
    let mut it = weekday_iterator(d(2015, 4, 19), Weekday::Tue);
    let range = it.take(5);

    let test_range = [
        d(2015, 4, 21),
        d(2015, 4, 28),
        d(2015, 5, 5),
        d(2015, 5, 12),
        d(2015, 5, 19),
    ];

    for date in &range {
        println!("{:?}", date);
    }

    assert!(range == test_range);
}

#[test]
fn lib_can_generate_range() {
    let mut it = DateRangeIterator::from_date(d(2000, 12, 25), AddDaysRule { days: 1 });
    let range = it.take(5);

    let test_range = [
        d(2000, 12, 25),
        d(2000, 12, 26),
        d(2000, 12, 27),
        d(2000, 12, 28),
        d(2000, 12, 29),
    ];

    assert!(range == test_range);
}

#[test]
fn can_detect_day() {
    let date = d(2015, 3, 27);

    assert!(Weekday::Fri == date.weekday());
}

#[test]
fn weekday_sequence_skips_matching_seed() {
    // The seed is a Sunday; the Sunday sequence starts a full week later,
    // never yielding the seed itself.
    let mut it = weekday_iterator(d(2015, 4, 19), Weekday::Sun);
    assert_eq!(it.next(), Some(d(2015, 4, 26)));
}

#[test]
fn weekday_sequence_first_element_is_strictly_later() {
    let seed = d(2015, 4, 19);
    for (w, expect) in [
        (Weekday::Mon, d(2015, 4, 20)),
        (Weekday::Tue, d(2015, 4, 21)),
        (Weekday::Wed, d(2015, 4, 22)),
        (Weekday::Thu, d(2015, 4, 23)),
        (Weekday::Fri, d(2015, 4, 24)),
        (Weekday::Sat, d(2015, 4, 25)),
        (Weekday::Sun, d(2015, 4, 26)),
    ] {
        let mut it = weekday_iterator(seed, w);
        let first = it.next().unwrap();
        assert_eq!(first, expect);
        assert_eq!(first.weekday(), w);
        assert!(seed.to_day_number() < first.to_day_number());
        assert!(first.to_day_number() <= seed.to_day_number() + 7);
    }
}

#[test]
fn weekday_sequence_is_spaced_seven_days() {
    let mut it = weekday_iterator(d(2015, 4, 19), Weekday::Tue);
    let range = it.take(6);
    for pair in range.windows(2) {
        assert_eq!(pair[1].to_day_number(), pair[0].to_day_number() + 7);
    }
}

#[test]
fn reconstructed_cursor_yields_identical_dates() {
    let mut a = weekday_iterator(d(2015, 4, 19), Weekday::Tue);
    let first = a.take(10);
    let mut b = weekday_iterator(d(2015, 4, 19), Weekday::Tue);
    let second = b.take(10);
    assert_eq!(first, second);
}

#[test]
fn sequence_ends_at_calendar_edge() {
    let mut it = DateRangeIterator::from_date(d(MAX_YEAR, 12, 30), AddDaysRule { days: 1 });
    let range = it.take(5);
    assert_eq!(range, [d(MAX_YEAR, 12, 30), d(MAX_YEAR, 12, 31)]);
    assert_eq!(it.next(), None);
}

#[test]
fn weekday_sequence_ends_at_calendar_edge() {
    for w in [
        Weekday::Mon,
        Weekday::Tue,
        Weekday::Wed,
        Weekday::Thu,
        Weekday::Fri,
        Weekday::Sat,
        Weekday::Sun,
    ] {
        let mut it = weekday_iterator(d(MAX_YEAR, 12, 31), w);
        assert_eq!(it.next(), None);
    }
}

#[test]
fn from_ymd_rejects_invalid_components() {
    assert!(Date::from_ymd(2015, 13, 1).is_none());
    assert!(Date::from_ymd(2015, 0, 1).is_none());
    assert!(Date::from_ymd(2015, 1, 0).is_none());
    assert!(Date::from_ymd(2015, 2, 29).is_none());
    assert!(Date::from_ymd(2016, 2, 29).is_some());
    assert!(Date::from_ymd(0, 1, 1).is_none());
    assert!(Date::from_ymd(10000, 1, 1).is_none());
    assert!(Date::from_ymd(2015, 4, 31).is_none());
}

#[test]
fn day_numbers_count_from_calendar_origin() {
    assert_eq!(d(1, 1, 1).to_day_number(), 0);
    assert_eq!(d(1, 1, 1).weekday(), Weekday::Mon);
    assert_eq!(d(1, 1, 8).to_day_number(), 7);
    assert_eq!(d(2, 1, 1).to_day_number(), 365);
    assert!(d(2015, 12, 31).before(&d(2016, 1, 1)));
    assert!(!d(2016, 1, 1).before(&d(2016, 1, 1)));
    assert!(!d(2016, 1, 2).before(&d(2016, 1, 1)));
}

#[test]
fn day_of_year_counts_within_the_year() {
    assert_eq!(d(2015, 1, 1).to_day_of_year(), 1);
    assert_eq!(d(2015, 3, 27).to_day_of_year(), 86);
    assert_eq!(d(2016, 3, 27).to_day_of_year(), 87);
    assert_eq!(d(2016, 12, 31).to_day_of_year(), 366);
    assert_eq!(d(2015, 12, 31).to_day_of_year(), 365);
}

#[test]
fn add_days_crosses_month_and_year_boundaries() {
    assert_eq!(d(2015, 12, 31).add_days(1), Some(d(2016, 1, 1)));
    assert_eq!(d(2016, 2, 28).add_days(2), Some(d(2016, 3, 1)));
    assert_eq!(d(2015, 2, 28).add_days(1), Some(d(2015, 3, 1)));
    assert_eq!(d(MAX_YEAR, 12, 31).add_days(1), None);
}

#[test]
fn month_ordinal_rule_rejects_fifth_occurrence() {
    // Policy: an ordinal that does not exist in every month fails at
    // construction, even when some month ahead would have a fifth occurrence.
    // February 2016 (leap year) has five Mondays.
    assert_eq!(
        month_ordinal_iterator(d(2016, 1, 15), Weekday::Mon, 5).unwrap_err(),
        RuleError::InvalidOrdinal
    );
    // February 2015 (non-leap year) has only four Mondays.
    assert_eq!(
        month_ordinal_iterator(d(2015, 1, 15), Weekday::Mon, 5).unwrap_err(),
        RuleError::InvalidOrdinal
    );
    assert_eq!(
        month_ordinal_iterator(d(2015, 1, 15), Weekday::Mon, 0).unwrap_err(),
        RuleError::InvalidOrdinal
    );
    assert!(MonthOrdinalRule::nth(Weekday::Mon, 5).is_err());
}

#[test]
fn month_ordinal_sequence_finds_nth_weekday() {
    let mut it = month_ordinal_iterator(d(2015, 5, 20), Weekday::Fri, 1).unwrap();
    assert_eq!(it.take(2), [d(2015, 6, 5), d(2015, 7, 3)]);

    let mut it = month_ordinal_iterator(d(2015, 5, 20), Weekday::Fri, 4).unwrap();
    assert_eq!(it.next(), Some(d(2015, 6, 26)));
}

#[test]
fn month_last_rule_reaches_fifth_occurrence_in_leap_february() {
    // February 2016 has five Mondays; "last" picks the fifth, Feb 29.
    let mut it = DateRangeIterator::from_date(d(2016, 1, 31), MonthOrdinalRule::last(Weekday::Mon));
    assert_eq!(it.next(), Some(d(2016, 1, 31)));
    assert_eq!(it.next(), Some(d(2016, 2, 29)));
}

#[test]
fn month_last_rule_picks_fourth_occurrence_in_common_february() {
    // February 2015 has four Mondays; "last" picks the fourth, Feb 23.
    let mut it = DateRangeIterator::from_date(d(2015, 1, 31), MonthOrdinalRule::last(Weekday::Mon));
    assert_eq!(it.next(), Some(d(2015, 1, 31)));
    assert_eq!(it.next(), Some(d(2015, 2, 23)));
    assert_eq!(it.next(), Some(d(2015, 3, 30)));
}

#[test]
fn month_last_sequence_skips_the_seed_month() {
    let mut it = month_last_iterator(d(2015, 1, 31), Weekday::Mon);
    assert_eq!(it.take(3), [d(2015, 2, 23), d(2015, 3, 30), d(2015, 4, 27)]);
}

#[test]
fn year_day_sequence_repeats_each_year() {
    let mut it = year_day_iterator(d(2015, 6, 1), 40).unwrap();
    assert_eq!(it.take(2), [d(2016, 2, 9), d(2017, 2, 9)]);
}

#[test]
fn year_day_rule_falls_back_to_last_day_in_common_years() {
    // Day 366 exists in leap year 2016; 2017 falls back to its last day.
    let mut it = year_day_iterator(d(2015, 1, 1), 366).unwrap();
    assert_eq!(it.take(3), [d(2016, 12, 31), d(2017, 12, 31), d(2018, 12, 31)]);
}

#[test]
fn year_day_rule_rejects_out_of_range_ordinals() {
    assert_eq!(
        year_day_iterator(d(2015, 1, 1), 0).unwrap_err(),
        RuleError::InvalidYearDay
    );
    assert_eq!(
        year_day_iterator(d(2015, 1, 1), 367).unwrap_err(),
        RuleError::InvalidYearDay
    );
    assert!(YearDayRule::new(367).is_err());
}

#[test]
fn today_seeded_cursor_yields_a_date() {
    let mut it = DateRangeIterator::new(AddDaysRule { days: 1 });
    let first = it.next();
    assert!(first.is_some());
    // A second pull moves one day past whatever today was.
    let second = it.next();
    if let (Some(a), Some(b)) = (first, second) {
        assert_eq!(b.to_day_number(), a.to_day_number() + 1);
    }
}

#[test]
fn weekday_rule_advances_from_any_date() {
    let rule = WeekdayRule { target: Weekday::Fri };
    let mut it = DateRangeIterator::from_date(d(2015, 3, 26), rule);
    assert_eq!(it.take(3), [d(2015, 3, 26), d(2015, 3, 27), d(2015, 4, 3)]);
}
