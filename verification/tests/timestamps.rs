use chrono::{DateTime, NaiveDate, NaiveDateTime};
use date_utils::calendar::{MAX_TIMESTAMP, MAX_YEAR, MIN_TIMESTAMP, MIN_YEAR};
use date_utils::timestamp::timestamp_or_zero;
use date_utils::{
    date_time_to_time_stamp, get_unix_timestamp_ms, has_date_time_shape, is_supported_ordinal_date,
    is_written_instant,
    is_supported_timestamp, is_valid_time_format, time_stamp_from_year_and_day,
    time_stamp_to_date, time_stamp_to_date_time, time_stamp_to_time,
};

#[test]
fn epoch_is_first_of_january_1970() {
    assert_eq!(time_stamp_to_date(0), "1970-01-01");
    assert_eq!(time_stamp_to_time(0), "00:00:00");
    assert_eq!(time_stamp_to_date_time(0), "1970-01-01 00:00:00");
}

#[test]
fn text_that_is_no_date_gives_zero() {
    assert_eq!(date_time_to_time_stamp("not a date"), 0);
}

#[test]
fn day_60_of_2024_is_29_february() {
    let ts = time_stamp_from_year_and_day(2024, 60);
    assert_eq!(ts, 1_709_164_800);
    assert_eq!(time_stamp_to_date(ts), "2024-02-29");
    assert_eq!(time_stamp_to_date_time(ts), "2024-02-29 00:00:00");
    assert_eq!(time_stamp_to_date(time_stamp_from_year_and_day(2023, 60)), "2023-03-01");
}

#[test]
fn formats_a_known_instant() {
    assert_eq!(time_stamp_to_date(1_431_648_000), "2015-05-15");
    assert_eq!(time_stamp_to_date_time(1_441_497_364), "2015-09-05 23:56:04");
    assert_eq!(time_stamp_to_time(1_441_497_364), "23:56:04");
    assert_eq!(time_stamp_to_date_time(951_827_696), "2000-02-29 12:34:56");
    assert_eq!(time_stamp_to_date_time(4_107_542_399), "2100-02-28 23:59:59");
    assert_eq!(time_stamp_to_date_time(4_107_542_400), "2100-03-01 00:00:00");
}

#[test]
fn formats_instants_before_the_epoch() {
    assert_eq!(time_stamp_to_date_time(-1), "1969-12-31 23:59:59");
    assert_eq!(time_stamp_to_date(-86_400), "1969-12-31");
    assert_eq!(time_stamp_to_date(-86_401), "1969-12-30");
    assert_eq!(time_stamp_to_time(-86_401), "23:59:59");
    assert_eq!(time_stamp_to_date_time(-2_208_988_800), "1900-01-01 00:00:00");
}

#[test]
fn writes_years_of_fewer_and_of_more_than_four_digits() {
    assert_eq!(time_stamp_to_date(-62_167_219_200), "0000-01-01");
    assert_eq!(time_stamp_to_date(-62_135_596_800), "0001-01-01");
    assert_eq!(time_stamp_to_date(-30_610_310_400), "0999-12-31");
    assert_eq!(time_stamp_to_date(253_402_300_799), "9999-12-31");
    assert_eq!(time_stamp_to_date(253_402_300_800), "+10000-01-01");
    assert_eq!(time_stamp_to_date(-62_167_219_201), "-0001-12-31");
    assert_eq!(time_stamp_to_date_time(-62_167_219_201), "-0001-12-31 23:59:59");
}

#[test]
fn formats_the_first_and_the_last_supported_instant() {
    assert_eq!(time_stamp_to_date_time(MIN_TIMESTAMP), "-262143-01-01 00:00:00");
    assert_eq!(time_stamp_to_date_time(MAX_TIMESTAMP), "+262142-12-31 23:59:59");
    assert_eq!(time_stamp_to_date(MIN_TIMESTAMP), "-262143-01-01");
    assert_eq!(time_stamp_to_time(MAX_TIMESTAMP), "23:59:59");
}

#[test]
fn supported_range_is_that_of_chrono() {
    assert!(is_supported_timestamp(MIN_TIMESTAMP));
    assert!(is_supported_timestamp(MAX_TIMESTAMP));
    assert!(is_supported_timestamp(0));
    assert!(!is_supported_timestamp(MIN_TIMESTAMP - 1));
    assert!(!is_supported_timestamp(MAX_TIMESTAMP + 1));
    assert!(!is_supported_timestamp(i64::MIN));
    assert!(!is_supported_timestamp(i64::MAX));
    assert!(DateTime::from_timestamp(MIN_TIMESTAMP, 0).is_some());
    assert!(DateTime::from_timestamp(MAX_TIMESTAMP, 0).is_some());
    assert!(DateTime::from_timestamp(MIN_TIMESTAMP - 1, 0).is_none());
    assert!(DateTime::from_timestamp(MAX_TIMESTAMP + 1, 0).is_none());
    assert_eq!(NaiveDateTime::MIN.and_utc().timestamp(), MIN_TIMESTAMP);
    assert_eq!(NaiveDateTime::MAX.and_utc().timestamp(), MAX_TIMESTAMP);
    assert_eq!(NaiveDate::MIN, NaiveDate::from_ymd_opt(MIN_YEAR, 1, 1).unwrap());
    assert_eq!(NaiveDate::MAX, NaiveDate::from_ymd_opt(MAX_YEAR, 12, 31).unwrap());
}

#[test]
fn reads_a_known_date_and_time() {
    assert_eq!(date_time_to_time_stamp("2015-09-05 23:56:04"), 1_441_497_364);
    assert_eq!(date_time_to_time_stamp("1970-01-01 00:00:00"), 0);
    assert_eq!(date_time_to_time_stamp("1970-01-01 00:00:01"), 1);
    assert_eq!(date_time_to_time_stamp("1969-12-31 23:59:59"), -1);
    assert_eq!(date_time_to_time_stamp("2024-02-29 00:00:00"), 1_709_164_800);
}

#[test]
fn rejected_texts_give_zero() {
    assert_eq!(date_time_to_time_stamp(""), 0);
    assert_eq!(date_time_to_time_stamp("2015-09-05"), 0);
    assert_eq!(date_time_to_time_stamp("23:56:04"), 0);
    assert_eq!(date_time_to_time_stamp("2015/09/05 23:56:04"), 0);
    assert_eq!(date_time_to_time_stamp("2015-09-05T23:56:04"), 0);
    assert_eq!(date_time_to_time_stamp("2015-09-05 23.56.04"), 0);
    assert_eq!(date_time_to_time_stamp("2015-xx-05 23:56:04"), 0);
    assert_eq!(date_time_to_time_stamp("2015-09-05 23:56:04 UTC"), 0);
    assert_eq!(date_time_to_time_stamp("x2015-09-05 23:56:04"), 0);
    assert_eq!(date_time_to_time_stamp("2015-02-29 00:00:00"), 0);
    assert_eq!(date_time_to_time_stamp("2015-13-01 00:00:00"), 0);
    assert_eq!(date_time_to_time_stamp("2015-00-01 00:00:00"), 0);
    assert_eq!(date_time_to_time_stamp("2015-04-31 00:00:00"), 0);
    assert_eq!(date_time_to_time_stamp("2015-09-05 24:00:00"), 0);
    assert_eq!(date_time_to_time_stamp("2015-09-05 23:60:00"), 0);
    assert_eq!(date_time_to_time_stamp("10000-01-01 00:00:00"), 0);
    assert_eq!(date_time_to_time_stamp("+262143-01-01 00:00:00"), 0);
    assert_eq!(date_time_to_time_stamp("-262144-12-31 23:59:59"), 0);
    assert_eq!(date_time_to_time_stamp("2015-09-31 00:00:00"), 0);
    assert_eq!(date_time_to_time_stamp("2023-02-29 00:00:00"), 0);
    assert_eq!(date_time_to_time_stamp("1900-02-29 00:00:00"), 0);
    assert_eq!(date_time_to_time_stamp("2015-09-00 00:00:00"), 0);
    assert_eq!(date_time_to_time_stamp("2015-09-05 23:56:60"), 0);
    assert_eq!(date_time_to_time_stamp("2015-06-30 23:59:60"), 0);
    assert_eq!(date_time_to_time_stamp("2015-99-99 99:99:99"), 0);
}

#[test]
fn years_not_written_as_years_give_zero() {
    assert_eq!(date_time_to_time_stamp("+2015-09-05 23:56:04"), 0);
    assert_eq!(date_time_to_time_stamp("+02015-09-05 23:56:04"), 0);
    assert_eq!(date_time_to_time_stamp("-02015-09-05 23:56:04"), 0);
    assert_eq!(date_time_to_time_stamp("-0000-01-01 00:00:00"), 0);
    assert_eq!(date_time_to_time_stamp("+0000-01-01 00:00:00"), 0);
    assert_eq!(date_time_to_time_stamp("+99999999999999999999-01-01 00:00:00"), 0);
    assert_eq!(date_time_to_time_stamp("-99999999999999999999-01-01 00:00:00"), 0);
    assert_eq!(date_time_to_time_stamp("+10000-01-01 00:00:00"), 253_402_300_800);
    assert_eq!(date_time_to_time_stamp("-0001-12-31 23:59:59"), -62_167_219_201);
    assert_eq!(date_time_to_time_stamp("0000-01-01 00:00:00"), -62_167_219_200);
    assert_eq!(date_time_to_time_stamp("2000-02-29 12:34:56"), 951_827_696);
    assert_eq!(date_time_to_time_stamp("+262142-12-31 23:59:59"), MAX_TIMESTAMP);
    assert_eq!(date_time_to_time_stamp("-262143-01-01 00:00:00"), MIN_TIMESTAMP);
}

#[test]
fn written_instants_and_other_texts() {
    assert!(is_written_instant("1970-01-01 00:00:00"));
    assert!(is_written_instant("2024-02-29 23:59:59"));
    assert!(is_written_instant("+262142-12-31 23:59:59"));
    assert!(is_written_instant("-262143-01-01 00:00:00"));
    assert!(!is_written_instant("+262143-01-01 00:00:00"));
    assert!(!is_written_instant("-262144-12-31 23:59:59"));
    assert!(!is_written_instant("2023-02-29 00:00:00"));
    assert!(!is_written_instant("2024-02-30 00:00:00"));
    assert!(!is_written_instant("2024-04-31 00:00:00"));
    assert!(!is_written_instant("2024-13-01 00:00:00"));
    assert!(!is_written_instant("2024-00-10 00:00:00"));
    assert!(!is_written_instant("2024-01-00 00:00:00"));
    assert!(!is_written_instant("2024-01-01 24:00:00"));
    assert!(!is_written_instant("2024-01-01 00:60:00"));
    assert!(!is_written_instant("2024-01-01 00:00:60"));
    assert!(!is_written_instant("+2024-01-01 00:00:00"));
    assert!(!is_written_instant("1970-1-2 3:4:5"));
    assert!(!is_written_instant("not a date"));
    assert!(!is_written_instant(""));
}

#[test]
fn written_instants_are_what_chrono_reads_alike() {
    let texts = [
        "1970-01-01 00:00:00", "2024-02-29 23:59:59", "2023-02-29 00:00:00",
        "1900-02-29 00:00:00", "2000-02-29 00:00:00", "2024-04-31 00:00:00",
        "2024-13-01 00:00:00", "2024-00-10 00:00:00", "2024-01-00 00:00:00",
        "2024-01-32 00:00:00", "2024-01-01 24:00:00", "2024-01-01 00:60:00",
        "0000-02-29 00:00:00", "-0001-02-29 00:00:00", "-0004-02-29 00:00:00",
        "+262142-12-31 23:59:59", "+262143-01-01 00:00:00", "-262143-01-01 00:00:00",
        "-262144-12-31 23:59:59", "+10000-01-01 00:00:00", "9999-12-31 23:59:59",
    ];
    for text in texts {
        let by_chrono = NaiveDateTime::parse_from_str(text, "%Y-%m-%d %H:%M:%S");
        assert_eq!(is_written_instant(text), by_chrono.is_ok(), "{}", text);
        if let Ok(read) = by_chrono {
            assert_eq!(date_time_to_time_stamp(text), read.and_utc().timestamp(), "{}", text);
        }
    }
}

#[test]
fn texts_without_zero_padding_give_zero() {
    assert_eq!(date_time_to_time_stamp("1970-1-2 3:4:5"), 0);
    assert_eq!(date_time_to_time_stamp("1970-01-02 03:04:5"), 0);
    assert_eq!(date_time_to_time_stamp("1970-01-02 3:04:05"), 0);
    assert_eq!(date_time_to_time_stamp("1970-1-02 03:04:05"), 0);
    assert_eq!(date_time_to_time_stamp("970-01-02 03:04:05"), 0);
    assert_eq!(date_time_to_time_stamp("1970-01-02 03:04:05"), 97_445);
}

#[test]
fn texts_with_blanks_out_of_place_give_zero() {
    assert_eq!(date_time_to_time_stamp(" 1970-01-02 03:04:05"), 0);
    assert_eq!(date_time_to_time_stamp("1970-01-02  03:04:05"), 0);
    assert_eq!(date_time_to_time_stamp("1970-01-02\t03:04:05"), 0);
    assert_eq!(date_time_to_time_stamp("1970-01-02 03:04:05 "), 0);
    assert_eq!(date_time_to_time_stamp("1970- 1- 2  3: 4: 5"), 0);
    assert_eq!(date_time_to_time_stamp("1970-01-0203:04:05"), 0);
    assert_eq!(date_time_to_time_stamp("1970-01-02\u{a0}03:04:05"), 0);
}

#[test]
fn shape_of_a_date_and_time() {
    assert!(has_date_time_shape("1970-01-02 03:04:05"));
    assert!(has_date_time_shape("0000-00-00 00:00:00"));
    assert!(has_date_time_shape("9999-99-99 99:99:99"));
    assert!(has_date_time_shape("+10000-01-01 00:00:00"));
    assert!(has_date_time_shape("-0001-12-31 23:59:59"));
    assert!(has_date_time_shape("-262143-01-01 00:00:00"));
    assert!(!has_date_time_shape(""));
    assert!(!has_date_time_shape("not a date"));
    assert!(!has_date_time_shape("1970-1-2 3:4:5"));
    assert!(!has_date_time_shape("10000-01-01 00:00:00"));
    assert!(!has_date_time_shape("+999-01-01 00:00:00"));
    assert!(!has_date_time_shape("1970/01/02 03:04:05"));
    assert!(!has_date_time_shape("1970-01-02T03:04:05"));
    assert!(!has_date_time_shape("1970-01-02 03.04.05"));
    assert!(!has_date_time_shape("1970-01-02 03:04:05Z"));
    assert!(!has_date_time_shape("x970-01-02 03:04:05"));
    assert!(!has_date_time_shape("1970-01-02 03:04:0x"));
    assert!(!has_date_time_shape("19\u{ff17}0-01-02 03:04:05"));
    assert!(!has_date_time_shape("--001-01-02 03:04:05"));
}

#[test]
fn every_written_instant_has_the_shape() {
    for t in [0i64, -1, 1_441_497_364, 253_402_300_799, 253_402_300_800, -62_167_219_201,
        MIN_TIMESTAMP, MAX_TIMESTAMP]
    {
        assert!(has_date_time_shape(&time_stamp_to_date_time(t)));
        assert!(is_written_instant(&time_stamp_to_date_time(t)));
    }
}

#[test]
fn timestamp_or_zero_keeps_what_was_read() {
    let read = NaiveDateTime::parse_from_str("2015-09-05 23:56:04", "%Y-%m-%d %H:%M:%S");
    assert_eq!(timestamp_or_zero(read.map(|t| t.and_utc().timestamp())), 1_441_497_364);
    assert_eq!(timestamp_or_zero(Ok(-5)), -5);
    assert_eq!(timestamp_or_zero(Ok(0)), 0);
    let rejected = NaiveDateTime::parse_from_str("no", "%Y-%m-%d %H:%M:%S");
    assert_eq!(timestamp_or_zero(rejected.map(|t| t.and_utc().timestamp())), 0);
}

#[test]
fn reading_undoes_writing() {
    let mut instants: Vec<i64> = vec![
        0, 1, -1, 59, 60, 3_599, 3_600, 86_399, 86_400, -86_400, -86_401, 1_709_164_800,
        951_782_400, 4_107_542_399, 4_107_542_400, -2_208_988_800, 253_402_300_799,
        253_402_300_800, -62_167_219_200, -62_167_219_201, -62_135_596_800, MIN_TIMESTAMP,
        MIN_TIMESTAMP + 1, MAX_TIMESTAMP, MAX_TIMESTAMP - 1,
    ];
    let mut step: i64 = 1;
    while step < MAX_TIMESTAMP / 3 {
        instants.push(step);
        instants.push(-step);
        instants.push(MAX_TIMESTAMP - step);
        instants.push(MIN_TIMESTAMP + step);
        step = step * 3 + 7;
    }
    for t in instants {
        assert!(is_supported_timestamp(t));
        let text = time_stamp_to_date_time(t);
        assert_eq!(date_time_to_time_stamp(&text), t, "{}", text);
    }
}

#[test]
fn reading_undoes_writing_day_by_day() {
    let first = time_stamp_from_year_and_day(1895, 1);
    for day in 0..(366 * 210) {
        let t = first + day * 86_400 + (day * 7_919) % 86_400;
        assert_eq!(date_time_to_time_stamp(&time_stamp_to_date_time(t)), t);
    }
}

#[test]
fn date_and_time_make_up_the_date_time() {
    for t in [0i64, -1, 1_441_497_364, 253_402_300_800, MIN_TIMESTAMP, MAX_TIMESTAMP] {
        let both = format!("{} {}", time_stamp_to_date(t), time_stamp_to_time(t));
        assert_eq!(time_stamp_to_date_time(t), both);
    }
}

#[test]
fn written_times_are_time_literals() {
    for t in [0i64, -1, 1, 86_399, 1_441_497_364, MIN_TIMESTAMP, MAX_TIMESTAMP] {
        assert!(is_valid_time_format(&time_stamp_to_time(t)));
    }
}

#[test]
fn first_day_of_a_year_is_its_midnight() {
    assert_eq!(time_stamp_from_year_and_day(1970, 1), 0);
    assert_eq!(time_stamp_from_year_and_day(1970, 2), 86_400);
    assert_eq!(time_stamp_from_year_and_day(1970, 365), 364 * 86_400);
    assert_eq!(time_stamp_from_year_and_day(1971, 1), 365 * 86_400);
    assert_eq!(time_stamp_from_year_and_day(1969, 365), -86_400);
    assert_eq!(time_stamp_from_year_and_day(1969, 1), -365 * 86_400);
    assert_eq!(time_stamp_from_year_and_day(1968, 366), -366 * 86_400);
    assert_eq!(time_stamp_from_year_and_day(2000, 366), 978_220_800);
    assert_eq!(time_stamp_from_year_and_day(0, 1), -62_167_219_200);
    assert_eq!(time_stamp_from_year_and_day(MIN_YEAR, 1), MIN_TIMESTAMP);
    assert_eq!(time_stamp_from_year_and_day(MAX_YEAR, 365), MAX_TIMESTAMP - 86_399);
}

#[test]
fn ordinal_dates_that_exist() {
    assert!(is_supported_ordinal_date(2024, 1));
    assert!(is_supported_ordinal_date(2024, 60));
    assert!(is_supported_ordinal_date(2024, 366));
    assert!(!is_supported_ordinal_date(2024, 367));
    assert!(!is_supported_ordinal_date(2024, 0));
    assert!(is_supported_ordinal_date(2023, 365));
    assert!(!is_supported_ordinal_date(2023, 366));
    assert!(is_supported_ordinal_date(2000, 366));
    assert!(!is_supported_ordinal_date(1900, 366));
    assert!(!is_supported_ordinal_date(2100, 366));
    assert!(is_supported_ordinal_date(0, 366));
    assert!(is_supported_ordinal_date(-4, 366));
    assert!(!is_supported_ordinal_date(-1, 366));
    assert!(!is_supported_ordinal_date(-100, 366));
    assert!(is_supported_ordinal_date(-400, 366));
    assert!(is_supported_ordinal_date(MIN_YEAR, 1));
    assert!(is_supported_ordinal_date(MAX_YEAR, 365));
    assert!(!is_supported_ordinal_date(MIN_YEAR - 1, 1));
    assert!(!is_supported_ordinal_date(MAX_YEAR + 1, 1));
    assert!(!is_supported_ordinal_date(i32::MIN, 1));
    assert!(!is_supported_ordinal_date(i32::MAX, 1));
    assert!(!is_supported_ordinal_date(2024, u32::MAX));
}

#[test]
fn ordinal_dates_are_those_of_chrono() {
    let years = [
        MIN_YEAR - 1, MIN_YEAR, -400, -100, -5, -4, -1, 0, 1, 4, 100, 400, 1900, 1970, 2000,
        2023, 2024, 2100, MAX_YEAR, MAX_YEAR + 1,
    ];
    for year in years {
        for day in [0u32, 1, 59, 60, 365, 366, 367, 400] {
            let there = NaiveDate::from_yo_opt(year, day).is_some();
            assert_eq!(is_supported_ordinal_date(year, day), there, "{} {}", year, day);
        }
    }
}

#[test]
fn clock_is_read_in_seconds() {
    let now = get_unix_timestamp_ms();
    let by_std = std::time::SystemTime::now()
        .duration_since(std::time::UNIX_EPOCH)
        .unwrap()
        .as_secs() as i64;
    assert!(by_std - now >= 0 && by_std - now <= 5);
    assert!(is_supported_timestamp(now));
    assert!(time_stamp_to_date(now).len() == 10);
}
