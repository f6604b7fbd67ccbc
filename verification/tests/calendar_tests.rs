use seqstamp::calendar::{civil_timestamp_of, day_number_of, days_in_month_count, leap_year};

#[test]
fn leap_years() {
    assert!(leap_year(2020));
    assert!(leap_year(2000));
    assert!(!leap_year(1900));
    assert!(!leap_year(2021));
    assert!(leap_year(-44));
    assert!(!leap_year(-45));
}

#[test]
fn month_lengths() {
    assert_eq!(days_in_month_count(2021, 1), 31);
    assert_eq!(days_in_month_count(2021, 2), 28);
    assert_eq!(days_in_month_count(2020, 2), 29);
    assert_eq!(days_in_month_count(2021, 4), 30);
    assert_eq!(days_in_month_count(2021, 12), 31);
}

#[test]
fn day_numbers_around_epoch() {
    assert_eq!(day_number_of(1970, 1, 1), 0);
    assert_eq!(day_number_of(1970, 1, 2), 1);
    assert_eq!(day_number_of(1969, 12, 31), -1);
    assert_eq!(day_number_of(1970, 2, 1), 31);
}

#[test]
fn timestamp_exact_values() {
    assert_eq!(civil_timestamp_of(1970, 1, 1, 0, 0, 0, 0), 0);
    assert_eq!(civil_timestamp_of(2020, 1, 1, 0, 0, 0, 0), 1577836800);
    assert_eq!(civil_timestamp_of(2020, 1, 1, 0, 1, 0, 0), 1577836860);
    // One hour east of UTC means the instant falls one hour earlier.
    assert_eq!(civil_timestamp_of(1970, 1, 1, 0, 0, 0, 3600), -3600);
}

#[test]
fn timestamp_matches_time_crate() {
    let cases: [(i32, u8, u8, u8, u8, u8, i32); 10] = [
        (1970, 1, 1, 0, 0, 0, 0),
        (1969, 12, 31, 23, 59, 59, 0),
        (2020, 2, 29, 12, 30, 45, 0),
        (2000, 2, 29, 0, 0, 0, -18000),
        (1900, 2, 28, 6, 7, 8, 3600),
        (-44, 3, 15, 12, 0, 0, 0),
        (-9999, 1, 1, 0, 0, 0, 0),
        (9999, 12, 31, 23, 59, 59, 0),
        (2038, 1, 19, 3, 14, 8, 0),
        (1582, 10, 15, 0, 0, 0, 7200),
    ];
    for (y, m, d, h, mi, s, off) in cases {
        let month = time::Month::try_from(m).unwrap();
        let date = time::Date::from_calendar_date(y, month, d).unwrap();
        let tod = time::Time::from_hms(h, mi, s).unwrap();
        let zone = time::UtcOffset::from_whole_seconds(off).unwrap();
        let odt = time::OffsetDateTime::new_in_offset(date, tod, zone);
        assert_eq!(civil_timestamp_of(y, m, d, h, mi, s, off), odt.unix_timestamp());
    }
}
