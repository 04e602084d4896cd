use chrono::{Datelike, NaiveDate, TimeDelta};
use sheet_cells::date::{date_to_epoch_offset, epoch_date, epoch_offset_to_date, Date};

#[test]
fn day_counts_and_dates_are_inverse() {
    let mut year = 1900;
    while year <= 9999 {
        for (month, day) in [(1, 1), (2, 28), (3, 1), (6, 30), (12, 31)] {
            let date = Date::from_ymd_opt(year, month, day).unwrap();
            let offset = date_to_epoch_offset(date);
            assert_eq!(epoch_offset_to_date(offset), Some(date));
        }
        year += 1;
    }
    for offset in [-96439723i64, -693593, -1, 0, 1, 59, 60, 61, 44289, 2958465, 95051805] {
        let date = epoch_offset_to_date(offset).unwrap();
        assert_eq!(date_to_epoch_offset(date), offset);
    }
}

#[test]
fn known_day_counts() {
    let offset = |y, m, d| date_to_epoch_offset(Date::from_ymd_opt(y, m, d).unwrap());
    assert_eq!(offset(1899, 12, 30), 0);
    assert_eq!(offset(1899, 12, 31), 1);
    assert_eq!(offset(1900, 1, 1), 2);
    assert_eq!(offset(1900, 2, 28), 60);
    assert_eq!(offset(1900, 3, 1), 61);
    assert_eq!(offset(1970, 1, 1), 25569);
    assert_eq!(offset(2000, 2, 29), 36585);
    assert_eq!(offset(2021, 4, 3), 44289);
    assert_eq!(offset(9999, 12, 31), 2958465);
    assert_eq!(offset(1, 1, 1), -693593);
    assert_eq!(offset(-262143, 1, 1), -96439723);
    assert_eq!(offset(262142, 12, 31), 95051805);
}

#[test]
fn day_counts_agree_with_chrono() {
    let epoch = NaiveDate::from_ymd_opt(1899, 12, 30).unwrap();
    let mut offset: i64 = -3_000_000;
    while offset <= 3_000_000 {
        let expected = epoch + TimeDelta::try_days(offset).unwrap();
        let date = epoch_offset_to_date(offset).unwrap();
        assert_eq!((date.year(), date.month(), date.day()), (
            expected.year(),
            expected.month(),
            expected.day()
        ));
        assert_eq!(date_to_epoch_offset(date), offset);
        offset += 997;
    }
}

#[test]
fn days_out_of_range() {
    assert!(epoch_offset_to_date(95051805).is_some());
    assert_eq!(epoch_offset_to_date(95051806), None);
    assert!(epoch_offset_to_date(-96439723).is_some());
    assert_eq!(epoch_offset_to_date(-96439724), None);
    assert_eq!(epoch_offset_to_date(i64::MAX), None);
    assert_eq!(epoch_offset_to_date(i64::MIN), None);
    assert_eq!(epoch_offset_to_date(i32::MAX as i64 + 1), None);
    assert_eq!(epoch_offset_to_date(200_000_000_000), None);
}

#[test]
fn days_that_exist() {
    assert!(Date::from_ymd_opt(2020, 2, 29).is_some());
    assert!(Date::from_ymd_opt(2000, 2, 29).is_some());
    assert!(Date::from_ymd_opt(-4, 2, 29).is_some());
    assert!(Date::from_ymd_opt(0, 2, 29).is_some());
    assert_eq!(Date::from_ymd_opt(1900, 2, 29), None);
    assert_eq!(Date::from_ymd_opt(2021, 2, 29), None);
    assert_eq!(Date::from_ymd_opt(2023, 4, 31), None);
    assert_eq!(Date::from_ymd_opt(2023, 0, 1), None);
    assert_eq!(Date::from_ymd_opt(2023, 13, 1), None);
    assert_eq!(Date::from_ymd_opt(2023, 1, 0), None);
    assert_eq!(Date::from_ymd_opt(2023, 1, 32), None);
    assert_eq!(Date::from_ymd_opt(2023, u32::MAX, 1), None);
    assert_eq!(Date::from_ymd_opt(262143, 1, 1), None);
    assert_eq!(Date::from_ymd_opt(-262144, 12, 31), None);
    assert!(Date::from_ymd_opt(262142, 12, 31).is_some());
    assert!(Date::from_ymd_opt(-262143, 1, 1).is_some());
    for year in [-400, -100, -1, 0, 1, 1899, 1900, 2000, 2023, 2024, 2100] {
        for month in 0..14u32 {
            for day in 0..33u32 {
                let ours = Date::from_ymd_opt(year, month, day);
                let theirs = NaiveDate::from_ymd_opt(year, month, day);
                assert_eq!(ours.is_some(), theirs.is_some());
                if let Some(date) = ours {
                    assert_eq!((date.year(), date.month(), date.day()), (year, month, day));
                }
            }
        }
    }
}

#[test]
fn the_epoch() {
    let epoch = epoch_date();
    assert_eq!((epoch.year(), epoch.month(), epoch.day()), (1899, 12, 30));
    assert_eq!(date_to_epoch_offset(epoch), 0);
    assert_eq!(epoch_offset_to_date(0), Some(epoch));
}
