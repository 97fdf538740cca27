use suspension_engine::duration::{
    duration_unit, parse_duration, seconds_per, unit_from_letter, DurationUnit,
};

#[test]
fn each_unit_has_its_seconds() {
    assert_eq!(seconds_per(DurationUnit::Seconds), 1);
    assert_eq!(seconds_per(DurationUnit::Hours), 3_600);
    assert_eq!(seconds_per(DurationUnit::Days), 86_400);
    assert_eq!(seconds_per(DurationUnit::Weeks), 604_800);
    assert_eq!(seconds_per(DurationUnit::Months), 2_592_000);
}

#[test]
fn each_letter_names_its_unit() {
    assert_eq!(unit_from_letter('s'), Some(DurationUnit::Seconds));
    assert_eq!(unit_from_letter('h'), Some(DurationUnit::Hours));
    assert_eq!(unit_from_letter('d'), Some(DurationUnit::Days));
    assert_eq!(unit_from_letter('w'), Some(DurationUnit::Weeks));
    assert_eq!(unit_from_letter('m'), Some(DurationUnit::Months));
    assert_eq!(unit_from_letter('y'), None);
    assert_eq!(unit_from_letter('D'), None);
    assert_eq!(unit_from_letter('1'), None);
}

#[test]
fn durations_are_counted_in_seconds() {
    assert_eq!(parse_duration("90s"), Some(90));
    assert_eq!(parse_duration("12h"), Some(43_200));
    assert_eq!(parse_duration("3d"), Some(259_200));
    assert_eq!(parse_duration("2w"), Some(1_209_600));
    assert_eq!(parse_duration("1m"), Some(2_592_000));
    assert_eq!(parse_duration("10m"), Some(25_920_000));
    assert_eq!(parse_duration("0d"), Some(0));
    assert_eq!(parse_duration("007h"), Some(25_200));
}

#[test]
fn what_is_no_duration_is_refused() {
    assert_eq!(parse_duration("abc"), None);
    assert_eq!(parse_duration(""), None);
    assert_eq!(parse_duration("d"), None);
    assert_eq!(parse_duration("10"), None);
    assert_eq!(parse_duration("10x"), None);
    assert_eq!(parse_duration("10D"), None);
    assert_eq!(parse_duration("-1d"), None);
    assert_eq!(parse_duration("+1d"), None);
    assert_eq!(parse_duration("1.5h"), None);
    assert_eq!(parse_duration(" 1d"), None);
    assert_eq!(parse_duration("1d "), None);
    assert_eq!(parse_duration("1d\n"), None);
    assert_eq!(parse_duration("1dd"), None);
    assert_eq!(parse_duration("1 d"), None);
    assert_eq!(parse_duration("٣d"), None);
}

#[test]
fn durations_beyond_a_timestamp_are_refused() {
    assert_eq!(parse_duration("9223372036854775807s"), Some(i64::MAX));
    assert_eq!(parse_duration("9223372036854775808s"), None);
    assert_eq!(parse_duration("2562047788015215h"), Some(9_223_372_036_854_774_000));
    assert_eq!(parse_duration("2562047788015216h"), None);
    assert_eq!(parse_duration("18446744073709551615s"), None);
    assert_eq!(parse_duration("18446744073709551616m"), None);
    assert_eq!(parse_duration("99999999999999999999999999d"), None);
}

#[test]
fn the_unit_is_the_last_letter() {
    assert_eq!(duration_unit("3d"), Some(DurationUnit::Days));
    assert_eq!(duration_unit("w"), Some(DurationUnit::Weeks));
    assert_eq!(duration_unit("xyzm"), Some(DurationUnit::Months));
    assert_eq!(duration_unit("3"), None);
    assert_eq!(duration_unit(""), None);
}
