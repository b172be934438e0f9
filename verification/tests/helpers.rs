use chrono::{DateTime, TimeDelta, Utc};
use hvrlogparser::output::{make_bucket_name, make_chunk_name};
use hvrlogparser::text::{decimal_string, same_text};
use hvrlogparser::source::{lineloop, ByteSource};
use hvrlogparser::timestamp::{
    parse_bound, stamp_text, ts_extract, Timestamp, MAX_NANOS, MAX_SECS, MIN_SECS,
    NANOS_PER_SEC, PREFIX_LEN,
};

#[test]
fn lineloop_reads_line_by_line() {
    let data = b"ab\n\ncd".to_vec();
    let mut src = ByteSource::new(&data);
    assert_eq!(lineloop(&mut src), b"ab\n".to_vec());
    assert_eq!(src.position(), 3);
    assert_eq!(lineloop(&mut src), b"\n".to_vec());
    assert_eq!(lineloop(&mut src), b"cd".to_vec());
    assert!(src.is_exhausted());
    assert_eq!(lineloop(&mut src), Vec::<u8>::new());
    assert_eq!(src.position(), 6);
}

#[test]
fn byte_source_peeks_reads_and_seeks() {
    let data = b"xyz".to_vec();
    let mut src = ByteSource::new(&data);
    assert_eq!(src.position(), 0);
    assert_eq!(src.peek(), Some(b'x'));
    assert_eq!(src.next_byte(), Some(b'x'));
    assert_eq!(src.next_byte(), Some(b'y'));
    assert_eq!(src.position(), 2);
    src.seek(0);
    assert_eq!(src.peek(), Some(b'x'));
    src.seek(100);
    assert_eq!(src.position(), 3);
    assert!(src.is_exhausted());
    assert_eq!(src.peek(), None);
    assert_eq!(src.next_byte(), None);
    assert_eq!(src.position(), 3);
}

#[test]
fn timestamp_at_the_start_of_a_line() {
    let ts = ts_extract(b"2023-01-01T00:00:00+00:00 started\n");
    assert_eq!(ts, Some(Timestamp { secs: 1672531200, nanos: 0 }));
}

#[test]
fn timestamp_is_brought_to_utc() {
    let ts = ts_extract(b"2023-01-01T02:00:00+02:00 started\n");
    assert_eq!(ts, Some(Timestamp { secs: 1672531200, nanos: 0 }));
    let west = ts_extract(b"2023-01-01T00:00:00-01:30");
    assert_eq!(west, Some(Timestamp { secs: 1672531200 + 5400, nanos: 0 }));
}

#[test]
fn timestamp_needs_the_whole_prefix() {
    assert_eq!(PREFIX_LEN, 25);
    assert_eq!(ts_extract(b"2023-01-01T00:00:00+00:0"), None);
    assert_eq!(ts_extract(b""), None);
    assert_eq!(ts_extract(b"\n"), None);
}

#[test]
fn timestamp_is_absent_from_other_text() {
    assert_eq!(ts_extract(b"    at com.example.Main.run(Main.java:42)\n"), None);
    assert_eq!(ts_extract(b"2023-13-01T00:00:00+00:00 no such month\n"), None);
    assert_eq!(ts_extract(b"2023-01-01 00:00:00+00:00 no letter T\n"), None);
}

#[test]
fn timestamp_is_absent_where_the_prefix_is_not_utf8() {
    let mut line = b"2023-01-01T00:00:00+00:00 rest\n".to_vec();
    line[3] = 0xff;
    assert_eq!(ts_extract(&line), None);
    let mut cut = b"2023-01-01T00:00:00+00:0".to_vec();
    cut.push(0xc3);
    cut.push(0xa9);
    assert_eq!(ts_extract(&cut), None);
}

#[test]
fn leap_second_keeps_its_mark() {
    let ts = ts_extract(b"2016-12-31T23:59:60+00:00 leap\n");
    assert_eq!(ts, Some(Timestamp { secs: 1483228799, nanos: NANOS_PER_SEC }));
    let before = Timestamp { secs: 1483228799, nanos: 0 };
    let after = Timestamp { secs: 1483228800, nanos: 0 };
    assert!(before.is_before(&ts.unwrap()));
    assert!(ts.unwrap().is_before(&after));
}

#[test]
fn bound_is_read_from_the_whole_text() {
    assert_eq!(
        parse_bound("2023-01-01T00:00:00+00:00"),
        Some(Timestamp { secs: 1672531200, nanos: 0 })
    );
    assert_eq!(parse_bound("2023-01-01T00:00:00+00:00 and more"), None);
    assert_eq!(parse_bound("yesterday"), None);
    assert_eq!(parse_bound(""), None);
}

#[test]
fn range_is_that_of_the_calendar() {
    assert_eq!(MIN_SECS, DateTime::<Utc>::MIN_UTC.timestamp());
    assert_eq!(MAX_SECS, DateTime::<Utc>::MAX_UTC.timestamp());
    assert_eq!(MAX_NANOS, DateTime::<Utc>::MAX_UTC.timestamp_subsec_nanos());
    assert_eq!(Timestamp::min(), Timestamp { secs: MIN_SECS, nanos: 0 });
    assert_eq!(Timestamp::max(), Timestamp { secs: MAX_SECS, nanos: MAX_NANOS });
    assert!(DateTime::from_timestamp(MAX_SECS + 1, 0).is_none());
    assert!(DateTime::from_timestamp(MIN_SECS - 1, 0).is_none());
}

#[test]
fn from_parts_checks_the_range() {
    assert_eq!(Timestamp::from_parts(5, 7), Some(Timestamp { secs: 5, nanos: 7 }));
    assert_eq!(Timestamp::from_parts(MAX_SECS + 1, 0), None);
    assert_eq!(Timestamp::from_parts(MIN_SECS - 1, 0), None);
    assert_eq!(Timestamp::from_parts(0, 2 * NANOS_PER_SEC), None);
    assert_eq!(Timestamp::from_parsed(None), None);
    assert_eq!(Timestamp::from_parsed(Some((1, 2))), Some(Timestamp { secs: 1, nanos: 2 }));
}

#[test]
fn instants_are_ordered_by_seconds_then_nanoseconds() {
    let a = Timestamp { secs: 10, nanos: 5 };
    let b = Timestamp { secs: 10, nanos: 6 };
    let c = Timestamp { secs: 11, nanos: 0 };
    assert!(a.is_before(&b));
    assert!(b.is_before(&c));
    assert!(a.is_before(&c));
    assert!(!b.is_before(&a));
    assert!(!a.is_before(&a));
}

#[test]
fn adding_seconds_agrees_with_the_calendar() {
    let cases = [
        (1672531200i64, 0u32, 3600u32),
        (1483228799, NANOS_PER_SEC, 60),
        (1483228799, NANOS_PER_SEC + 250, 86400),
        (-5, 999, 2592000),
        (MIN_SECS, 0, 60),
        (MAX_SECS - 60, 0, 60),
    ];
    for (secs, nanos, add) in cases {
        let t = Timestamp { secs, nanos };
        let expected = DateTime::from_timestamp(secs, nanos).unwrap().naive_utc()
            + TimeDelta::seconds(add as i64);
        let got = t.checked_plus(add).unwrap();
        assert_eq!(got.secs, expected.and_utc().timestamp());
        assert_eq!(got.nanos, expected.and_utc().timestamp_subsec_nanos());
    }
}

#[test]
fn adding_seconds_behind_the_range_gives_nothing() {
    let t = Timestamp { secs: MAX_SECS - 59, nanos: 0 };
    assert_eq!(t.checked_plus(60), None);
    assert_eq!(t.checked_plus(59), Some(Timestamp { secs: MAX_SECS, nanos: 0 }));
    let naive = DateTime::from_timestamp(MAX_SECS - 59, 0).unwrap().naive_utc();
    assert!(naive.checked_add_signed(TimeDelta::seconds(60)).is_none());
    assert!(naive.checked_add_signed(TimeDelta::seconds(59)).is_some());
}

#[test]
fn instant_is_written_as_fourteen_digits() {
    assert_eq!(stamp_text(&Timestamp { secs: 1672534800, nanos: 0 }), "20230101010000");
    assert_eq!(stamp_text(&Timestamp { secs: 0, nanos: 0 }), "19700101000000");
    assert_eq!(stamp_text(&Timestamp { secs: 1700000000, nanos: 0 }), "20231114221320");
}

#[test]
fn numbers_are_written_in_decimal() {
    assert_eq!(decimal_string(0), "0");
    assert_eq!(decimal_string(7), "7");
    assert_eq!(decimal_string(10), "10");
    assert_eq!(decimal_string(109), "109");
    assert_eq!(decimal_string(1234567890), "1234567890");
    assert_eq!(decimal_string(u64::MAX), "18446744073709551615");
}

#[test]
fn file_names_are_base_number_or_stamp_and_suffix() {
    assert_eq!(make_chunk_name("part_", 0), "part_0.out");
    assert_eq!(make_chunk_name("", 42), "42.out");
    assert_eq!(
        make_bucket_name("part_", &Timestamp { secs: 1672534800, nanos: 0 }),
        "part_20230101010000.out"
    );
}

#[test]
fn texts_are_compared_letter_by_letter() {
    assert!(same_text("lines", "lines"));
    assert!(!same_text("lines", "line"));
    assert!(!same_text("lines", "bytes"));
    assert!(same_text("", ""));
}
