use ccs::time::{
    can_read_duration, clock_text, format_relative, in_local_time, parse_duration, parse_rfc3339,
    seconds_since, to_rfc3339, Timestamp, UtcOffset, MAX_SECS, MIN_SECS, SPAN_LIMIT,
};
use chrono::{DateTime, Duration, FixedOffset, Utc};

const NOON: i64 = 1_714_564_800; // 2024-05-01T12:00:00Z

fn at(secs: i64, nanos: u32, offset: i32) -> Timestamp {
    Timestamp::new(secs, nanos, offset).unwrap()
}

fn utc(secs: i64, nanos: u32) -> DateTime<Utc> {
    DateTime::from_timestamp(secs, nanos).unwrap()
}

#[test]
fn timestamps_have_a_range() {
    let t = at(NOON, 5, 3600);
    assert_eq!((t.secs(), t.nanos(), t.offset()), (NOON, 5, 3600));
    assert!(Timestamp::new(MIN_SECS, 0, 0).is_some());
    assert!(Timestamp::new(MIN_SECS - 1, 0, 0).is_none());
    assert!(Timestamp::new(MAX_SECS, 999_999_999, 0).is_some());
    assert!(Timestamp::new(MAX_SECS + 1, 0, 0).is_none());
    assert!(Timestamp::new(NOON, 0, 86_399).is_some());
    assert!(Timestamp::new(NOON, 0, 86_400).is_none());
    assert!(Timestamp::new(NOON, 0, -86_399).is_some());
    assert!(Timestamp::new(NOON, 0, -86_400).is_none());
}

#[test]
fn timestamp_range_is_that_of_chrono() {
    assert_eq!(DateTime::<Utc>::MIN_UTC.timestamp(), MIN_SECS);
    assert_eq!(DateTime::<Utc>::MAX_UTC.timestamp(), MAX_SECS);
    for (secs, nanos) in [
        (MIN_SECS, 0),
        (MIN_SECS - 1, 0),
        (MAX_SECS, 1_999_999_999),
        (MAX_SECS + 1, 0),
        (59, 1_000_000_000),
        (59, 2_000_000_000),
        (58, 1_000_000_000),
        (-1, 1_000_000_000),
        (-60, 1_000_000_000),
        (0, 999_999_999),
    ] {
        assert_eq!(
            Timestamp::new(secs, nanos, 0).is_some(),
            DateTime::from_timestamp(secs, nanos).is_some()
        );
    }
}

#[test]
fn offset_can_be_changed() {
    let t = at(NOON, 7, 0);
    let u = t.at_offset(&UtcOffset::new(-7200).unwrap());
    assert_eq!((u.secs(), u.nanos(), u.offset()), (NOON, 7, -7200));
    assert_eq!(in_local_time(&Some(t), &UtcOffset::new(3600)), Some(at(NOON, 7, 3600)));
    assert_eq!(in_local_time(&Some(u), &None), Some(u));
    assert_eq!(in_local_time(&None, &UtcOffset::new(3600)), None);
}

#[test]
fn offsets_are_less_than_a_day() {
    assert_eq!(UtcOffset::new(86_399).unwrap().secs(), 86_399);
    assert_eq!(UtcOffset::new(-86_399).unwrap().secs(), -86_399);
    assert!(UtcOffset::new(86_400).is_none());
    assert!(UtcOffset::new(-86_400).is_none());
}

#[test]
fn ranks_follow_time() {
    let list = [at(-1, 0, 0), at(-1, 1_500_000_000, 0), at(0, 0, 0), at(0, 1, 7200), at(NOON, 0, 0)];
    for (i, a) in list.iter().enumerate() {
        for (j, b) in list.iter().enumerate() {
            assert_eq!(a.rank() < b.rank(), i < j);
        }
    }
    assert_eq!(at(NOON, 3, 3600).rank(), at(NOON, 3, -3600).rank());
    assert_eq!(at(2, 3, 0).rank(), 4_000_000_003);
}

#[test]
fn seconds_between_two_points() {
    assert_eq!(seconds_since(&at(NOON, 0, 0), &at(NOON - 90, 0, 0)), 90);
    assert_eq!(seconds_since(&at(NOON, 0, 0), &at(NOON + 90, 0, 0)), -90);
    // cut towards zero
    assert_eq!(seconds_since(&at(NOON, 0, 0), &at(NOON - 2, 1, 0)), 1);
    assert_eq!(seconds_since(&at(NOON - 2, 1, 0), &at(NOON, 0, 0)), -1);
    assert_eq!(seconds_since(&at(NOON - 1, 1, 0), &at(NOON, 0, 0)), 0);
    // the offset does not count
    assert_eq!(seconds_since(&at(NOON, 0, 7200), &at(NOON, 0, -7200)), 0);
    assert_eq!(seconds_since(&at(MAX_SECS, 0, 0), &at(MIN_SECS, 0, 0)), MAX_SECS - MIN_SECS);
}

#[test]
fn leap_seconds_count_as_in_chrono() {
    let points = [
        (NOON - 1, 1_500_000_000),
        (NOON - 1, 500_000_000),
        (NOON, 0),
        (NOON, 700_000_000),
        (NOON + 86_400 - 61, 1_200_000_000),
        (NOON - 86_401, 1_999_999_999),
        (NOON + 86_399, 1_000_000_000),
        (-1, 1_000_000_000),
        (0, 0),
    ];
    for a in points {
        for b in points {
            let expected = utc(a.0, a.1).signed_duration_since(utc(b.0, b.1)).num_seconds();
            assert_eq!(seconds_since(&at(a.0, a.1, 0), &at(b.0, b.1, 0)), expected, "{a:?} {b:?}");
        }
    }
    // a leap second before noon: a second and a half from its first half to noon and a half
    assert_eq!(seconds_since(&at(NOON, 500_000_000, 0), &at(NOON - 1, 1_000_000_000, 0)), 1);
    assert_eq!(seconds_since(&at(NOON + 1, 0, 0), &at(NOON - 1, 1_000_000_000, 0)), 2);
}

#[test]
fn earlier_is_in_the_past() {
    let points = [
        at(NOON - 60, 0, 0),
        at(NOON - 1, 999_999_999, 0),
        at(NOON - 1, 1_999_999_999, 0),
        at(NOON, 0, 0),
        at(NOON + 43_199, 1_999_999_999, 0),
        at(NOON + 43_200, 0, 0),
        at(NOON + 86_399, 1_000_000_000, 0),
    ];
    for (i, then) in points.iter().enumerate() {
        for now in &points[i..] {
            assert!(seconds_since(now, then) >= 0);
        }
    }
}

#[test]
fn more_recent_is_no_longer_ago() {
    let now = at(NOON, 500_000_000, 0);
    let points = [at(NOON - 90, 7, 0), at(NOON - 90, 8, 0), at(NOON, 0, 0), at(NOON + 3, 1, 0)];
    for pair in points.windows(2) {
        assert!(seconds_since(&now, &pair[1]) <= seconds_since(&now, &pair[0]));
    }
}

#[test]
fn clock_shows_local_hours_and_minutes() {
    assert_eq!(clock_text(&at(NOON, 0, 0)), "12:00");
    assert_eq!(clock_text(&at(NOON + 59, 999_999_999, 0)), "12:00");
    assert_eq!(clock_text(&at(NOON + 60, 0, 0)), "12:01");
    assert_eq!(clock_text(&at(NOON, 0, 5 * 3600 + 1800)), "17:30");
    assert_eq!(clock_text(&at(NOON, 0, -13 * 3600)), "23:00");
    assert_eq!(clock_text(&at(NOON, 0, 12 * 3600)), "00:00");
    assert_eq!(clock_text(&at(-1, 0, 0)), "23:59");
    assert_eq!(clock_text(&at(NOON - 1, 1_500_000_000, 0)), "11:59");
}

#[test]
fn clock_at_the_ends_of_the_calendar() {
    assert_eq!(clock_text(&at(MIN_SECS, 0, 0)), "00:00");
    assert_eq!(clock_text(&at(MIN_SECS, 0, -3600)), "23:00");
    assert_eq!(clock_text(&at(MAX_SECS, 0, 0)), "23:59");
    assert_eq!(clock_text(&at(MAX_SECS, 0, 3600)), "00:59");
}

#[test]
fn rfc3339_is_written() {
    assert_eq!(to_rfc3339(&at(NOON, 0, 0)), "2024-05-01T12:00:00+00:00");
    assert_eq!(to_rfc3339(&at(NOON, 0, 7200)), "2024-05-01T14:00:00+02:00");
    assert_eq!(to_rfc3339(&at(NOON, 250_000_000, -5400)), "2024-05-01T10:30:00.250-01:30");
    let zone = FixedOffset::east_opt(86_399).unwrap();
    assert_eq!(
        to_rfc3339(&at(MAX_SECS, 1, 86_399)),
        utc(MAX_SECS, 1).with_timezone(&zone).to_rfc3339()
    );
    assert!(!to_rfc3339(&at(MIN_SECS, 0, -86_399)).is_empty());
}

#[test]
fn rfc3339_is_read() {
    let t = parse_rfc3339("2024-05-01T14:00:00.250+02:00").unwrap();
    assert_eq!((t.secs(), t.nanos(), t.offset()), (NOON, 250_000_000, 7200));
    let t = parse_rfc3339("2024-05-01T12:00:00Z").unwrap();
    assert_eq!((t.secs(), t.nanos(), t.offset()), (NOON, 0, 0));
    let t = parse_rfc3339("2016-12-31T23:59:60.5Z").unwrap();
    assert_eq!((t.secs() % 60, t.nanos()), (59, 1_500_000_000));
    for s in ["", "yesterday", "2024-05-01", "2024-05-01T12:00:00", "2024-13-01T12:00:00Z"] {
        assert!(parse_rfc3339(s).is_none(), "{s:?}");
    }
}

#[test]
fn durations_are_read() {
    assert_eq!(parse_duration("45s"), Some(45));
    assert_eq!(parse_duration("30m"), Some(1800));
    assert_eq!(parse_duration("2h"), Some(7200));
    assert_eq!(parse_duration("7d"), Some(604_800));
    assert_eq!(parse_duration("  7d\n"), Some(604_800));
    assert_eq!(parse_duration("-2h"), Some(-7200));
    assert_eq!(parse_duration("+2h"), Some(7200));
    assert_eq!(parse_duration("0s"), Some(0));
}

#[test]
fn what_is_no_duration() {
    for s in ["", "   ", "m", "30", "30x", "h2", "2 h", "1.5h", "--2h", "2hh", "9223372036854775808s"] {
        assert!(can_read_duration(s), "{s:?}");
        assert_eq!(parse_duration(s), None, "{s:?}");
    }
}

#[test]
fn durations_that_cannot_be_read() {
    // the last character takes more than one byte
    assert!(!can_read_duration("30é"));
    assert!(!can_read_duration("é"));
    // longer than any span
    assert!(!can_read_duration("9223372036854775807d"));
    assert!(!can_read_duration("9223372036854776s"));
    assert!(!can_read_duration("-9223372036854776s"));
    assert!(can_read_duration("9223372036854775s"));
    assert!(can_read_duration("é30m"));
}

#[test]
fn greatest_span_is_that_of_chrono() {
    assert_eq!(Duration::MAX.num_seconds(), SPAN_LIMIT);
    assert_eq!(Duration::MIN.num_seconds(), -SPAN_LIMIT);
    assert_eq!(parse_duration("9223372036854775s"), Some(SPAN_LIMIT));
    assert_eq!(parse_duration("-9223372036854775s"), Some(-SPAN_LIMIT));
    for (text, n, len) in [("m", SPAN_LIMIT / 60, 60), ("h", SPAN_LIMIT / 3600, 3600), ("d", SPAN_LIMIT / 86_400, 86_400)] {
        assert_eq!(parse_duration(&format!("{n}{text}")), Some(n * len));
        assert!(!can_read_duration(&format!("{}{text}", n + 1)));
    }
}

#[test]
fn duration_is_read_back() {
    for (unit, len) in [("s", 1), ("m", 60), ("h", 3600), ("d", 86_400)] {
        for n in [0, 1, 59, 1000] {
            assert_eq!(parse_duration(&format!("{n}{unit}")), Some(n * len));
        }
    }
}

#[test]
fn how_long_ago() {
    assert_eq!(format_relative(-1), "just now");
    assert_eq!(format_relative(i64::MIN), "just now");
    assert_eq!(format_relative(0), "0s ago");
    assert_eq!(format_relative(59), "59s ago");
    assert_eq!(format_relative(60), "1m ago");
    assert_eq!(format_relative(3599), "59m ago");
    assert_eq!(format_relative(3600), "1h ago");
    assert_eq!(format_relative(3660), "1h 1m ago");
    assert_eq!(format_relative(86_399), "23h 59m ago");
    assert_eq!(format_relative(86_400), "1d ago");
    assert_eq!(format_relative(90_000), "1d 1h ago");
    assert_eq!(format_relative(7 * 86_400 + 3599), "7d ago");
    assert_eq!(format_relative(i64::MAX), "106751991167300d 15h ago");
}

/// The age that the text of an age stands for.
fn age(text: &str) -> i64 {
    text.trim_end_matches(" ago")
        .split(' ')
        .map(|part| {
            let (n, unit) = part.split_at(part.len() - 1);
            let len = match unit {
                "s" => 1,
                "m" => 60,
                "h" => 3600,
                _ => 86_400,
            };
            n.parse::<i64>().unwrap() * len
        })
        .sum()
}

#[test]
fn ages_are_not_overstated() {
    let mut before = 0;
    for secs in (0..200_000).step_by(7) {
        let text = format_relative(secs);
        let shown = age(&text);
        assert!(before <= shown && shown <= secs && secs < shown + 3600);
        assert_eq!(format_relative(shown), text);
        before = shown;
    }
}

#[test]
fn ages_are_told_apart() {
    assert_eq!(format_relative(3660), format_relative(3719));
    assert_ne!(format_relative(3659), format_relative(3660));
    assert_ne!(format_relative(-1), format_relative(0));
    assert_ne!(format_relative(60), format_relative(3660));
}
