use sum_of_best::text::{parse_decimal, parse_i32, parse_unsigned, split_fields};
use sum_of_best::{
    build_duration_from_realtime_str, calc_total_seconds, format_realtime, parse_realtime,
    time_to_duration, Duration,
};

fn nanos(text: &str) -> Option<u64> {
    build_duration_from_realtime_str(text).map(|d| d.as_nanos())
}

#[test]
fn total_seconds_of_a_clock_reading() {
    assert_eq!(calc_total_seconds(0, 0, 0), 0);
    assert_eq!(calc_total_seconds(1, 2, 3), 3723);
    assert_eq!(calc_total_seconds(255, 255, 255), 255 * 3600 + 255 * 60 + 255);
}

#[test]
fn clock_reading_to_duration() {
    assert_eq!(time_to_duration(0, 0, 9, 123_456_000), Duration::from_nanos(9_123_456_000));
    assert_eq!(time_to_duration(1, 2, 3, 4), Duration::from_nanos(3_723_000_000_004));
    assert_eq!(time_to_duration(0, 0, 0, 0), Duration::zero());
}

#[test]
fn checked_add_is_exact() {
    let a = Duration::from_nanos(3_500_000_000);
    let b = Duration::from_nanos(2_200_000_000);
    assert_eq!(a.checked_add(b), Some(Duration::from_nanos(5_700_000_000)));
    assert_eq!(Duration::zero().checked_add(a), Some(a));
}

#[test]
fn plus_is_exact() {
    let a = Duration::from_nanos(9_123_456_000);
    let b = Duration::from_nanos(5_000_000_000);
    assert_eq!(a + b, Duration::from_nanos(14_123_456_000));
    assert_eq!((a + b) + a, a + (b + a));
    assert_eq!(Duration::zero() + a, a);
}

#[test]
fn checked_add_refuses_overflow() {
    let max = Duration::from_nanos(u64::MAX);
    assert_eq!(max.checked_add(Duration::from_nanos(1)), None);
    assert_eq!(max.checked_add(Duration::zero()), Some(max));
}

#[test]
fn durations_are_ordered_by_length() {
    let short = Duration::from_nanos(1);
    let long = Duration::from_nanos(2);
    assert!(short < long);
    assert!(long > short);
    assert!(short <= short);
    assert!(!(long < short));
    assert_eq!(short.partial_cmp(&long), Some(std::cmp::Ordering::Less));
    assert_eq!(long.partial_cmp(&short), Some(std::cmp::Ordering::Greater));
    assert_eq!(long.partial_cmp(&long), Some(std::cmp::Ordering::Equal));
    assert_eq!(short.cmp(&long), std::cmp::Ordering::Less);
    assert_eq!(short.max(long), long);
    let mut list = vec![long, short, Duration::zero()];
    list.sort();
    assert_eq!(list, vec![Duration::zero(), short, long]);
}

#[test]
fn split_fields_cuts_at_every_separator() {
    assert_eq!(split_fields(b"1:02:03", b':'), vec![b"1".to_vec(), b"02".to_vec(), b"03".to_vec()]);
    assert_eq!(split_fields(b"", b':'), vec![Vec::<u8>::new()]);
    assert_eq!(split_fields(b"abc", b':'), vec![b"abc".to_vec()]);
    assert_eq!(split_fields(b"::", b':'), vec![Vec::<u8>::new(), Vec::new(), Vec::new()]);
    assert_eq!(split_fields(b"a:", b':'), vec![b"a".to_vec(), Vec::new()]);
}

#[test]
fn parse_decimal_reads_unsigned_numbers() {
    assert_eq!(parse_decimal(b"0", 255), Some(0));
    assert_eq!(parse_decimal(b"255", 255), Some(255));
    assert_eq!(parse_decimal(b"007", 255), Some(7));
    assert_eq!(parse_decimal(b"18446744073709551615", u64::MAX), Some(u64::MAX));
}

#[test]
fn parse_decimal_refuses_what_is_no_number() {
    assert_eq!(parse_decimal(b"", 255), None);
    assert_eq!(parse_decimal(b"256", 255), None);
    assert_eq!(parse_decimal(b"-1", 255), None);
    assert_eq!(parse_decimal(b"+1", 255), None);
    assert_eq!(parse_decimal(b"1a", 255), None);
    assert_eq!(parse_decimal(b" 1", 255), None);
    assert_eq!(parse_decimal(b"18446744073709551616", u64::MAX), None);
    assert_eq!(parse_decimal(b"99999999999999999999999", u64::MAX), None);
}

#[test]
fn parse_unsigned_takes_a_plus() {
    assert_eq!(parse_unsigned(b"5", 255), Some(5));
    assert_eq!(parse_unsigned(b"+5", 255), Some(5));
    assert_eq!(parse_unsigned(b"+005", 255), Some(5));
    assert_eq!(parse_unsigned(b"+255", 255), Some(255));
    assert_eq!(parse_unsigned(b"+4294967295", 4_294_967_295), Some(4_294_967_295));
}

#[test]
fn parse_unsigned_refuses_what_is_no_unsigned_integer() {
    assert_eq!(parse_unsigned(b"", 255), None);
    assert_eq!(parse_unsigned(b"+", 255), None);
    assert_eq!(parse_unsigned(b"++5", 255), None);
    assert_eq!(parse_unsigned(b"+-5", 255), None);
    assert_eq!(parse_unsigned(b"-5", 255), None);
    assert_eq!(parse_unsigned(b"-0", 255), None);
    assert_eq!(parse_unsigned(b"5+", 255), None);
    assert_eq!(parse_unsigned(b"+256", 255), None);
    assert_eq!(parse_unsigned(b" +5", 255), None);
    assert_eq!(parse_unsigned(b"+4294967296", 4_294_967_295), None);
}

#[test]
fn parse_i32_takes_a_sign() {
    assert_eq!(parse_i32(b"2020"), Some(2020));
    assert_eq!(parse_i32(b"+2020"), Some(2020));
    assert_eq!(parse_i32(b"-2020"), Some(-2020));
    assert_eq!(parse_i32(b"-0"), Some(0));
    assert_eq!(parse_i32(b"+0"), Some(0));
    assert_eq!(parse_i32(b"2147483647"), Some(i32::MAX));
    assert_eq!(parse_i32(b"-2147483648"), Some(i32::MIN));
    assert_eq!(parse_i32(b"-0002147483648"), Some(i32::MIN));
}

#[test]
fn parse_i32_refuses_what_is_no_integer_of_32_bits() {
    assert_eq!(parse_i32(b""), None);
    assert_eq!(parse_i32(b"-"), None);
    assert_eq!(parse_i32(b"+"), None);
    assert_eq!(parse_i32(b"--1"), None);
    assert_eq!(parse_i32(b"-+1"), None);
    assert_eq!(parse_i32(b"+-1"), None);
    assert_eq!(parse_i32(b"1-"), None);
    assert_eq!(parse_i32(b"2147483648"), None);
    assert_eq!(parse_i32(b"-2147483649"), None);
    assert_eq!(parse_i32(b"1.0"), None);
}

#[test]
fn integers_are_read_as_the_standard_library_reads_them() {
    let samples = [
        "", "0", "7", "007", "+7", "-7", "+", "-", "++7", "--7", "+-7", "-+7", "7+", " 7", "7 ",
        "255", "256", "+255", "+256", "-0", "+0", "4294967295", "4294967296", "+4294967295",
        "2147483647", "2147483648", "-2147483648", "-2147483649", "1e3", "0x10", "1_000",
        "99999999999999999999", "-99999999999999999999", "\u{661}",
    ];
    for text in samples {
        let bytes = text.as_bytes();
        assert_eq!(parse_unsigned(bytes, 255), text.parse::<u8>().ok().map(u64::from), "{:?}", text);
        assert_eq!(
            parse_unsigned(bytes, 4_294_967_295),
            text.parse::<u32>().ok().map(u64::from),
            "{:?}",
            text
        );
        assert_eq!(parse_i32(bytes), text.parse::<i32>().ok(), "{:?}", text);
    }
}

#[test]
fn realtime_with_seven_decimals() {
    assert_eq!(nanos("0:00:09.1234560"), Some(9_123_456_000));
    assert_eq!(nanos("1:02:03.0000001"), Some(3_723_000_000_100));
    assert_eq!(nanos("00:00:10.0000000"), Some(10_000_000_000));
}

#[test]
fn realtime_without_fraction() {
    assert_eq!(nanos("1:02:03"), Some(3_723_000_000_000));
    assert_eq!(nanos("0:00:00"), Some(0));
}

#[test]
fn realtime_fraction_is_scaled_by_its_width() {
    assert_eq!(nanos("0:00:01.5"), Some(1_500_000_000));
    assert_eq!(nanos("0:00:01.05"), Some(1_050_000_000));
    assert_eq!(nanos("0:00:02.100"), Some(2_100_000_000));
    assert_eq!(nanos("0:00:00.000001"), Some(1_000));
}

#[test]
fn realtime_fields_go_up_to_255() {
    assert_eq!(nanos("255:255:255"), Some((255 * 3600 + 255 * 60 + 255) * 1_000_000_000));
    assert_eq!(nanos("0:75:00"), Some(4_500_000_000_000));
    assert_eq!(nanos("256:00:00"), None);
    assert_eq!(nanos("0:256:00"), None);
    assert_eq!(nanos("0:00:256"), None);
}

#[test]
fn realtime_refuses_malformed_text() {
    assert_eq!(nanos(""), None);
    assert_eq!(nanos("1:02"), None);
    assert_eq!(nanos("1:02:03:04"), None);
    assert_eq!(nanos("a:02:03"), None);
    assert_eq!(nanos("1::03"), None);
    assert_eq!(nanos("1:02:"), None);
    assert_eq!(nanos("1:02:03."), None);
    assert_eq!(nanos("1:02:03.12345678"), None);
    assert_eq!(nanos("1:02:03.1.2"), None);
    assert_eq!(nanos("1:02:03.-5"), None);
    assert_eq!(nanos("-1:02:03"), None);
    assert_eq!(nanos("+1:02:03"), None);
    assert_eq!(nanos(" 1:02:03"), None);
    assert_eq!(nanos("1:02:03\u{e9}"), None);
}

#[test]
fn parse_realtime_reads_bytes() {
    assert_eq!(parse_realtime(b"0:00:05.7000000"), Some(Duration::from_nanos(5_700_000_000)));
    assert_eq!(parse_realtime(b"0:00:05,7"), None);
}

#[test]
fn format_realtime_writes_seven_decimals() {
    assert_eq!(format_realtime(Duration::from_nanos(9_123_456_000)), b"0:00:09.1234560".to_vec());
    assert_eq!(format_realtime(Duration::zero()), b"0:00:00.0000000".to_vec());
    assert_eq!(format_realtime(Duration::from_nanos(3_723_000_000_100)), b"1:02:03.0000001".to_vec());
    assert_eq!(
        format_realtime(Duration::from_nanos(82_800_000_000_000)),
        b"23:00:00.0000000".to_vec()
    );
    assert_eq!(
        format_realtime(Duration::from_nanos(360_000_000_000_000)),
        b"100:00:00.0000000".to_vec()
    );
}

#[test]
fn format_realtime_cuts_below_a_tenth_of_a_microsecond() {
    assert_eq!(format_realtime(Duration::from_nanos(1_000_000_199)), b"0:00:01.0000001".to_vec());
}

#[test]
fn realtime_round_trip() {
    let samples: [u64; 8] = [
        0,
        100,
        9_123_456_000,
        59_999_999_900,
        60_000_000_000,
        3_599_999_999_900,
        82_800_000_000_000,
        256 * 3600 * 1_000_000_000 - 100,
    ];
    for n in samples {
        let d = Duration::from_nanos(n);
        assert_eq!(parse_realtime(&format_realtime(d)), Some(d));
    }
}

#[test]
fn realtime_round_trip_ends_at_256_hours() {
    let d = Duration::from_nanos(256 * 3600 * 1_000_000_000);
    assert_eq!(format_realtime(d), b"256:00:00.0000000".to_vec());
    assert_eq!(parse_realtime(&format_realtime(d)), None);
}
