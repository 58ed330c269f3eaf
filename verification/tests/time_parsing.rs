use timetable::{parse_day, parse_length, parse_time, Day, ScheduleError};

#[test]
fn time_of_bare_hour() {
    assert_eq!(parse_time("9"), Ok(540));
    assert_eq!(parse_time("0"), Ok(0));
    assert_eq!(parse_time("23"), Ok(1380));
}

#[test]
fn time_of_hour_and_minute() {
    assert_eq!(parse_time("9:30"), Ok(570));
    assert_eq!(parse_time("9:00"), Ok(540));
    assert_eq!(parse_time("09:05"), Ok(545));
    assert_eq!(parse_time("0:0"), Ok(0));
}

#[test]
fn time_with_two_colons_is_invalid() {
    assert_eq!(parse_time("9:5:1"), Err(ScheduleError::InvalidTime));
    assert_eq!(parse_time("9::1"), Err(ScheduleError::InvalidTime));
}

#[test]
fn empty_time_is_missing() {
    assert_eq!(parse_time(""), Err(ScheduleError::MissingTime));
}

#[test]
fn time_with_a_part_that_is_no_number_is_invalid() {
    assert_eq!(parse_time("nine"), Err(ScheduleError::InvalidTime));
    assert_eq!(parse_time("9:"), Err(ScheduleError::InvalidTime));
    assert_eq!(parse_time(":30"), Err(ScheduleError::InvalidTime));
    assert_eq!(parse_time(":"), Err(ScheduleError::InvalidTime));
    assert_eq!(parse_time(" 9"), Err(ScheduleError::InvalidTime));
    assert_eq!(parse_time("9 "), Err(ScheduleError::InvalidTime));
    assert_eq!(parse_time("-9"), Err(ScheduleError::InvalidTime));
    assert_eq!(parse_time("9.5"), Err(ScheduleError::InvalidTime));
    assert_eq!(parse_time("9:3o"), Err(ScheduleError::InvalidTime));
    assert_eq!(parse_time("+"), Err(ScheduleError::InvalidTime));
    assert_eq!(parse_time("++9"), Err(ScheduleError::InvalidTime));
}

#[test]
fn time_takes_a_plus_sign_and_leading_zeros() {
    assert_eq!(parse_time("+9"), Ok(540));
    assert_eq!(parse_time("+9:+30"), Ok(570));
    assert_eq!(parse_time("0000000000000000000009:0030"), Ok(570));
}

#[test]
fn minutes_are_not_held_below_sixty() {
    assert_eq!(parse_time("9:75"), Ok(615));
    assert_eq!(parse_time("0:65535"), Ok(65535));
}

#[test]
fn time_past_sixteen_bits_is_invalid() {
    assert_eq!(parse_time("1092"), Ok(65520));
    assert_eq!(parse_time("1092:15"), Ok(65535));
    assert_eq!(parse_time("1092:16"), Err(ScheduleError::InvalidTime));
    assert_eq!(parse_time("1093"), Err(ScheduleError::InvalidTime));
    assert_eq!(parse_time("65535"), Err(ScheduleError::InvalidTime));
    assert_eq!(parse_time("65536"), Err(ScheduleError::InvalidTime));
    assert_eq!(parse_time("0:65536"), Err(ScheduleError::InvalidTime));
    assert_eq!(parse_time("99999999999999999999999999"), Err(ScheduleError::InvalidTime));
}

#[test]
fn length_of_hours_and_minutes() {
    assert_eq!(parse_length("1h30m"), Ok(90));
    assert_eq!(parse_length("90m"), Ok(90));
    assert_eq!(parse_length("2h"), Ok(120));
}

#[test]
fn length_parts_add_up_in_any_order() {
    assert_eq!(parse_length("30m1h"), Ok(90));
    assert_eq!(parse_length("1h1h"), Ok(120));
    assert_eq!(parse_length("10m20m30m"), Ok(60));
    assert_eq!(parse_length("0h0m"), Ok(0));
    assert_eq!(parse_length("01h05m"), Ok(65));
}

#[test]
fn length_drops_digits_without_a_unit() {
    assert_eq!(parse_length("1h30"), Ok(60));
    assert_eq!(parse_length("45"), Ok(0));
    assert_eq!(parse_length("1h99999999999999999999"), Ok(60));
}

#[test]
fn empty_length_is_zero() {
    assert_eq!(parse_length(""), Ok(0));
}

#[test]
fn length_with_another_character_is_invalid() {
    assert_eq!(parse_length("1h 30m"), Err(ScheduleError::InvalidLength));
    assert_eq!(parse_length("1H"), Err(ScheduleError::InvalidLength));
    assert_eq!(parse_length("90s"), Err(ScheduleError::InvalidLength));
    assert_eq!(parse_length("+5m"), Err(ScheduleError::InvalidLength));
    assert_eq!(parse_length("1.5h"), Err(ScheduleError::InvalidLength));
    assert_eq!(parse_length("1h30x"), Err(ScheduleError::InvalidLength));
}

#[test]
fn length_unit_without_digits_is_invalid() {
    assert_eq!(parse_length("h"), Err(ScheduleError::InvalidLength));
    assert_eq!(parse_length("m"), Err(ScheduleError::InvalidLength));
    assert_eq!(parse_length("1hm"), Err(ScheduleError::InvalidLength));
}

#[test]
fn length_past_sixteen_bits_is_invalid() {
    assert_eq!(parse_length("65535m"), Ok(65535));
    assert_eq!(parse_length("1092h15m"), Ok(65535));
    assert_eq!(parse_length("65536m"), Err(ScheduleError::InvalidLength));
    assert_eq!(parse_length("1092h16m"), Err(ScheduleError::InvalidLength));
    assert_eq!(parse_length("1093h"), Err(ScheduleError::InvalidLength));
    assert_eq!(parse_length("65535m1m"), Err(ScheduleError::InvalidLength));
}

#[test]
fn day_names_are_read() {
    assert_eq!(parse_day("monday"), Ok(Day::Monday));
    assert_eq!(parse_day("tuesday"), Ok(Day::Tuesday));
    assert_eq!(parse_day("wednesday"), Ok(Day::Wednesday));
    assert_eq!(parse_day("thursday"), Ok(Day::Thursday));
    assert_eq!(parse_day("friday"), Ok(Day::Friday));
    assert_eq!(parse_day("saturday"), Ok(Day::Saturday));
    assert_eq!(parse_day("sunday"), Ok(Day::Sunday));
}

#[test]
fn day_names_ignore_case() {
    assert_eq!(parse_day("MONDAY"), parse_day("monday"));
    assert_eq!(parse_day("MONDAY"), Ok(Day::Monday));
    assert_eq!(parse_day("Tuesday"), Ok(Day::Tuesday));
    assert_eq!(parse_day("wEdNeSdAy"), Ok(Day::Wednesday));
    assert_eq!(parse_day("THURSDAY"), Ok(Day::Thursday));
    assert_eq!(parse_day("Friday"), Ok(Day::Friday));
    assert_eq!(parse_day("SATURDAY"), Ok(Day::Saturday));
    assert_eq!(parse_day("SunDay"), Ok(Day::Sunday));
}

#[test]
fn other_texts_name_no_day() {
    assert_eq!(parse_day(""), Err(ScheduleError::InvalidDay));
    assert_eq!(parse_day("mon"), Err(ScheduleError::InvalidDay));
    assert_eq!(parse_day("monday "), Err(ScheduleError::InvalidDay));
    assert_eq!(parse_day(" monday"), Err(ScheduleError::InvalidDay));
    assert_eq!(parse_day("mondays"), Err(ScheduleError::InvalidDay));
    assert_eq!(parse_day("lundi"), Err(ScheduleError::InvalidDay));
    assert_eq!(parse_day("FR\u{130}DAY"), Err(ScheduleError::InvalidDay));
}

#[test]
fn day_from_str_gives_the_day_or_nothing() {
    assert_eq!(Day::from_str("Sunday"), Ok(Day::Sunday));
    assert_eq!(Day::from_str("someday"), Err(()));
}

#[test]
fn each_error_has_its_message() {
    assert_eq!(ScheduleError::InvalidDay.message(), "Invalid or missing day");
    assert_eq!(ScheduleError::MissingTime.message(), "Missing time");
    assert_eq!(ScheduleError::InvalidTime.message(), "Invalid time - should be hh:mm");
    assert_eq!(ScheduleError::InvalidLength.message(), "Invalid length");
    assert_eq!(ScheduleError::UnsupportedDay.message(), "Web output is weekdays only");
    assert_eq!(ScheduleError::InconsistentCategoryIndex.message(), "No such category");
}
