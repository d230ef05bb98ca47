use lemmalog::clock::{civil_date, current_rfc3339, current_unix_seconds, rfc3339, unix_seconds};

#[test]
fn current_time_is_unix_time() {
    assert!(current_unix_seconds() > 1_000_000_000);
}

#[test]
fn current_time_is_rfc3339() {
    let timestamp = current_rfc3339();
    assert_eq!(timestamp.len(), 20);
    assert_eq!(&timestamp[10..11], "T");
    assert_eq!(&timestamp[19..20], "Z");
}

#[test]
fn moments_are_written_as_dates() {
    assert_eq!(rfc3339(0), "1970-01-01T00:00:00Z");
    assert_eq!(rfc3339(951_782_400), "2000-02-29T00:00:00Z");
    assert_eq!(rfc3339(1_788_032_520), "2026-08-29T19:42:00Z");
    assert_eq!(rfc3339(253_402_300_799), "9999-12-31T23:59:59Z");
    assert_eq!(rfc3339(-1), "1969-12-31T23:59:59Z");
    assert_eq!(rfc3339(-62_167_219_201), "-001-12-31T23:59:59Z");
}

#[test]
fn dates_follow_each_other() {
    let mut last = civil_date(-800_000);
    for days in -799_999..200_000 {
        let date = civil_date(days);
        let next_day = date.year == last.year && date.month == last.month && date.day == last.day + 1;
        let next_month = date.year == last.year && date.month == last.month + 1 && date.day == 1;
        let next_year = date.year == last.year + 1 && date.month == 1 && date.day == 1;
        assert!(next_day || next_month || next_year, "{last:?} {date:?}");
        last = date;
    }
}

#[test]
fn seconds_become_a_time() {
    assert_eq!(unix_seconds(Some(7)), 7);
    assert_eq!(unix_seconds(Some(u64::MAX)), -1);
    assert_eq!(unix_seconds(None), 0);
}
