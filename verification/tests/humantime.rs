use rusty_broom::clock::{Duration, Timestamp};
use rusty_broom::humantime::{
    age_at, age_of, format_age, format_duration, parse_duration, DurationError, DAY, HOUR, MINUTE,
    MONTH, WEEK, YEAR,
};

#[test]
fn parses_units() {
    assert_eq!(
        parse_duration("30d").unwrap(),
        Duration::from_secs(30 * DAY)
    );
    assert_eq!(parse_duration("90").unwrap(), Duration::from_secs(90 * DAY));
    assert_eq!(
        parse_duration("12h").unwrap(),
        Duration::from_secs(12 * HOUR)
    );
    assert_eq!(parse_duration("2w").unwrap(), Duration::from_secs(2 * WEEK));
    assert_eq!(
        parse_duration("6mo").unwrap(),
        Duration::from_secs(6 * MONTH)
    );
    assert_eq!(parse_duration("0").unwrap(), Duration::zero());
    assert_eq!(parse_duration("off").unwrap(), Duration::zero());
}

#[test]
fn parses_compound() {
    assert_eq!(
        parse_duration("1y6mo").unwrap(),
        Duration::from_secs(YEAR + 6 * MONTH)
    );
    assert_eq!(
        parse_duration("1w 3d").unwrap(),
        Duration::from_secs(WEEK + 3 * DAY)
    );
}

#[test]
fn rejects_garbage() {
    assert!(parse_duration("").is_err());
    assert!(parse_duration("d").is_err());
    assert!(parse_duration("10x").is_err());
    assert!(parse_duration("abc").is_err());
}

#[test]
fn formats_duration_with_the_coarsest_exact_unit() {
    assert_eq!(format_duration(Duration::zero()), "off");
    assert_eq!(format_duration(parse_duration("1y").unwrap()), "1y");
    assert_eq!(format_duration(parse_duration("6mo").unwrap()), "6mo");
    assert_eq!(format_duration(parse_duration("7d").unwrap()), "1w");
    assert_eq!(format_duration(parse_duration("10d").unwrap()), "10d");
}

#[test]
fn formats_age() {
    assert_eq!(format_age(Duration::from_secs(30)), "just now");
    assert_eq!(format_age(Duration::from_secs(3 * DAY)), "3 days");
    assert_eq!(format_age(Duration::from_secs(5 * MONTH)), "5 months");
    assert_eq!(format_age(Duration::from_secs(3 * YEAR)), "3 years");
}

#[test]
fn every_unit_has_its_spellings() {
    let table = [
        (1, vec!["s", "sec", "secs", "second", "seconds"]),
        (MINUTE, vec!["m", "min", "mins", "minute", "minutes"]),
        (HOUR, vec!["h", "hr", "hrs", "hour", "hours"]),
        (DAY, vec!["", "d", "day", "days"]),
        (WEEK, vec!["w", "week", "weeks"]),
        (MONTH, vec!["mo", "mon", "month", "months"]),
        (YEAR, vec!["y", "yr", "year", "years"]),
    ];
    for (size, names) in table {
        for name in names {
            let text = format!("3{name}");
            assert_eq!(parse_duration(&text), Ok(Duration::from_secs(3 * size)), "{text}");
            let loud = format!("  3 {} ", name.to_uppercase());
            assert_eq!(parse_duration(&loud), Ok(Duration::from_secs(3 * size)), "{loud}");
        }
    }
    for word in ["0", "off", "any", "none", "OFF", " None "] {
        assert_eq!(parse_duration(word), Ok(Duration::zero()));
    }
    assert_eq!(parse_duration("1_000s"), Ok(Duration::from_secs(1000)));
}

#[test]
fn durations_say_what_is_wrong() {
    assert_eq!(parse_duration("  "), Err(DurationError::Empty));
    assert_eq!(DurationError::Empty.message(), "empty duration");
    let cases = [
        ("99999999999999999999d", "duration \"99999999999999999999d\" is too large"),
        ("18446744073709551615y", "duration \"18446744073709551615y\" is too large"),
        ("3d!", "unexpected character '!' in duration \"3d!\""),
        ("days", "no number in duration \"days\""),
        ("10x", "unknown duration unit \"x\" in \"10x\""),
        ("d5", "unit \"d\" without a number in \"d5\""),
    ];
    for (text, message) in cases {
        assert_eq!(parse_duration(text).unwrap_err().message(), message);
    }
    // The sum counts as well.
    assert!(matches!(
        parse_duration("18446744073709551615s 1s"),
        Err(DurationError::TooLarge { .. })
    ));
}

#[test]
fn durations_are_read_back_from_their_text() {
    for secs in [
        0, 1, 59, 60, 3599, 3600, 7200, DAY, 2 * DAY, WEEK, 10 * DAY, MONTH, 13 * MONTH, YEAR,
        5 * YEAR, YEAR + 1, u64::MAX,
    ] {
        let span = Duration::from_secs(secs);
        assert_eq!(parse_duration(&format_duration(span)), Ok(span), "{secs}");
    }
}

#[test]
fn ages_change_their_unit_in_time() {
    let cases = [
        (0, "just now"), (59, "just now"), (60, "1 minute"), (3599, "59 minutes"), (3600, "1 hour"),
        (DAY - 1, "23 hours"), (DAY, "1 day"), (2 * WEEK - 1, "13 days"), (2 * WEEK, "2 weeks"),
        (2 * MONTH - 1, "8 weeks"), (2 * MONTH, "2 months"), (2 * YEAR - 1, "24 months"),
        (2 * YEAR, "2 years"),
    ];
    for (secs, text) in cases {
        assert_eq!(format_age(Duration::from_secs(secs)), text, "{secs}");
    }
}

#[test]
fn ages_never_lie_in_the_future() {
    let then = Timestamp::new(1_000, 500_000_000);
    let now = Timestamp::new(1_010, 250_000_000);
    assert_eq!(age_at(then, now), Duration::new(9, 750_000_000));
    assert_eq!(age_at(now, then), Duration::zero());
    // The clock of this machine is past the epoch and not yet at the end of time.
    assert!(age_of(Timestamp::new(0, 0)).as_secs() > YEAR);
    assert_eq!(age_of(Timestamp::new(i64::MAX, 0)), Duration::zero());
}

#[test]
fn faults_are_worded() {
    let text = || "x".to_string();
    let error = DurationError::UnknownUnit { unit: text(), text: text() };
    assert_eq!(error.worded("<3q>", "<q>"), "unknown duration unit <q> in <3q>");
    assert_eq!(DurationError::Empty.worded("a", "b"), "empty duration");
    let error = DurationError::MissingNumber { unit: text(), text: text() };
    assert_eq!(error.worded("<d>", "<u>"), "unit <u> without a number in <d>");
    let error = DurationError::Unexpected { ch: '!', text: text() };
    assert_eq!(error.worded("<d>", "<!>"), "unexpected character <!> in duration <d>");
    assert_eq!(DurationError::TooLarge { text: text() }.worded("<d>", ""), "duration <d> is too large");
    assert_eq!(DurationError::NoNumber { text: text() }.worded("<d>", ""), "no number in duration <d>");
}

#[test]
fn durations_add_up() {
    for a in ["1y", " 90min", "2W 3d"] {
        for b in ["6mo", "5", "0", "7 d "] {
            for gap in ["", " ", "_ _"] {
                let sum = parse_duration(a).unwrap().as_secs() + parse_duration(b).unwrap().as_secs();
                let text = format!("{a}{gap}{b}");
                assert_eq!(parse_duration(&text), Ok(Duration::from_secs(sum)), "{text:?}");
            }
        }
    }
}
