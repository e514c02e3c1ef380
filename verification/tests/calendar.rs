use rinha_2026::calendar::{day_of_week_spec, parse_full, parse_rfc3339_ymdh, seconds_between};

#[test]
fn day_of_week_known_dates() {
    assert_eq!(day_of_week_spec(2026, 3, 11), 2);
    assert_eq!(day_of_week_spec(2026, 3, 14), 5);
    assert_eq!(day_of_week_spec(2026, 3, 9), 0);
    assert_eq!(day_of_week_spec(2026, 3, 15), 6);
}

#[test]
fn weekdays_around_leap_days() {
    assert_eq!(day_of_week_spec(1970, 1, 1), 3);
    assert_eq!(day_of_week_spec(2000, 2, 29), 1);
    assert_eq!(day_of_week_spec(2000, 3, 1), 2);
    assert_eq!(day_of_week_spec(2024, 1, 1), 0);
    assert_eq!(day_of_week_spec(1900, 2, 28), 2);
    assert_eq!(day_of_week_spec(1900, 3, 1), 3);
}

#[test]
fn dates_are_read_to_the_hour() {
    assert_eq!(
        parse_rfc3339_ymdh("2026-03-11T18:45:53Z"),
        Some((2026, 3, 11, 18))
    );
    assert_eq!(
        parse_rfc3339_ymdh("9999-99-99T99:ab?cdefghi"),
        Some((9999, 99, 99, 99))
    );
}

#[test]
fn malformed_dates_are_not_read() {
    assert_eq!(parse_rfc3339_ymdh(""), None);
    assert_eq!(parse_rfc3339_ymdh("2026-03-11T18:45:53"), None);
    assert_eq!(parse_rfc3339_ymdh("2026/03-11T18:45:53Z"), None);
    assert_eq!(parse_rfc3339_ymdh("2026-03/11T18:45:53Z"), None);
    assert_eq!(parse_rfc3339_ymdh("2026-03-11 18:45:53Z"), None);
    assert_eq!(parse_rfc3339_ymdh("2026-03-11T18.45:53Z"), None);
    assert_eq!(parse_rfc3339_ymdh("202x-03-11T18:45:53Z"), None);
    assert_eq!(parse_rfc3339_ymdh("2026-0x-11T18:45:53Z"), None);
    assert_eq!(parse_rfc3339_ymdh("2026-03-x1T18:45:53Z"), None);
    assert_eq!(parse_rfc3339_ymdh("2026-03-11Tx8:45:53Z"), None);
}

#[test]
fn instants_count_from_1970() {
    assert_eq!(parse_full("1970-01-01T00:00:00Z"), Some(0));
    assert_eq!(parse_full("1970-01-02T03:04:05Z"), Some(97445));
    assert_eq!(parse_full("2000-02-29T00:00:00Z"), Some(951782400));
    assert_eq!(parse_full("2026-03-11T18:45:53Z"), Some(1773254753));
    assert_eq!(parse_full("2026-03-14T05:15:12Z"), Some(1773465312));
}

#[test]
fn instants_do_not_look_at_separators() {
    assert_eq!(
        parse_full("2026/03/11 18.45.53 "),
        parse_full("2026-03-11T18:45:53Z")
    );
}

#[test]
fn instants_before_1970_wrap() {
    assert_eq!(parse_full("1969-12-31T23:59:59Z"), Some(u64::MAX));
}

#[test]
fn malformed_instants_are_not_read() {
    assert_eq!(parse_full("2026-03-11T18:45:53"), None);
    assert_eq!(parse_full("x026-03-11T18:45:53Z"), None);
    assert_eq!(parse_full("2026-x3-11T18:45:53Z"), None);
    assert_eq!(parse_full("2026-03-1xT18:45:53Z"), None);
    assert_eq!(parse_full("2026-03-11T1x:45:53Z"), None);
    assert_eq!(parse_full("2026-03-11T18:x5:53Z"), None);
    assert_eq!(parse_full("2026-03-11T18:45:5xZ"), None);
}

#[test]
fn seconds_pass_between_timestamps() {
    assert_eq!(
        seconds_between("2026-03-11T18:45:53Z", "2026-03-11T18:45:53Z"),
        Some(0)
    );
    assert_eq!(
        seconds_between("2026-03-11T18:45:53Z", "2026-02-28T18:45:53Z"),
        Some(11 * 86400)
    );
    assert_eq!(
        seconds_between("2024-03-01T00:00:00Z", "2024-02-28T00:00:00Z"),
        Some(2 * 86400)
    );
}

#[test]
fn no_seconds_pass_backwards_or_from_nowhere() {
    assert_eq!(
        seconds_between("2026-03-11T18:45:52Z", "2026-03-11T18:45:53Z"),
        None
    );
    assert_eq!(seconds_between("2026-03-11T18:45:52Z", "yesterday"), None);
    assert_eq!(seconds_between("today", "2026-03-11T18:45:53Z"), None);
}

#[test]
fn elapsed_seconds_add_up() {
    let a = "2025-12-31T23:59:58Z";
    let b = "2026-01-01T00:00:03Z";
    let c = "2026-03-11T18:45:53Z";
    let ab = seconds_between(b, a).unwrap();
    let bc = seconds_between(c, b).unwrap();
    assert_eq!(ab, 5);
    assert_eq!(seconds_between(c, a), Some(ab + bc));
}
