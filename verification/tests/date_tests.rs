use sitegen::date::MyDate;

fn roundtrip(s: &str) {
    let d = MyDate::from_str(s).expect("should parse");
    assert_eq!(d.to_string(), s);
}

#[test]
fn parse_valid_dates() {
    let d = MyDate::from_str("Jan 02, 2024").unwrap();
    assert_eq!(d.year, 2024);
    assert_eq!(d.month, 1);
    assert_eq!(d.day, 2);
    let d = MyDate::from_str("Dec 31, 1999").unwrap();
    assert_eq!((d.year, d.month, d.day), (1999, 12, 31));
    let d = MyDate::from_str("Feb 29, 2024").unwrap();
    assert_eq!((d.year, d.month, d.day), (2024, 2, 29));
    let d = MyDate::from_str("Feb 29, 2000").unwrap();
    assert_eq!((d.year, d.month, d.day), (2000, 2, 29));
}

#[test]
fn format_parse_round_trip() {
    roundtrip("Jan 02, 2024");
    roundtrip("Feb 28, 1900");
    roundtrip("Mar 01, 0001");
    roundtrip("Apr 30, 9999");
    roundtrip("May 15, 2020");
    roundtrip("Jun 09, 1970");
    roundtrip("Jul 04, 1776");
    roundtrip("Aug 31, 2021");
    roundtrip("Sep 01, 1939");
    roundtrip("Oct 10, 2010");
    roundtrip("Nov 11, 1918");
    roundtrip("Dec 25, 0800");
}

#[test]
fn format_is_canonical() {
    let d = MyDate { year: 2024, month: 1, day: 2 };
    assert_eq!(d.to_string(), "Jan 02, 2024");
    let d = MyDate { year: 33, month: 12, day: 31 };
    assert_eq!(d.to_string(), "Dec 31, 0033");
}

#[test]
fn reject_non_matching_strings() {
    for bad in [
        "",
        "Jan 2, 2024",     // one-digit day
        "jan 02, 2024",    // lower-case month
        "JAN 02, 2024",    // upper-case month
        "Jan 02, 24",      // two-digit year
        "Jan 02,2024",     // missing space
        "Jan  02, 2024",   // extra space
        "Jan 02 2024",     // missing comma
        "Jan 00, 2024",    // day zero
        "Jan 32, 2024",    // day out of range
        "Feb 29, 2023",    // not a leap year
        "Feb 30, 2024",
        "Apr 31, 2024",
        "Foo 02, 2024",    // unknown month
        "2024-01-02",
        "Jan 02, 2024 ",   // trailing junk
        " Jan 02, 2024",
        "Jan 0a, 2024",
        "Jan 02, 20x4",
    ] {
        let e = MyDate::from_str(bad).expect_err(bad);
        assert_eq!(e.text, bad, "error should carry the offending text");
    }
}

#[test]
fn leap_year_rules() {
    assert!(MyDate::from_str("Feb 29, 2000").is_ok()); // divisible by 400
    assert!(MyDate::from_str("Feb 29, 1900").is_err()); // century, not by 400
    assert!(MyDate::from_str("Feb 29, 2024").is_ok()); // divisible by 4
    assert!(MyDate::from_str("Feb 29, 2025").is_err());
}

#[test]
fn date_ordering() {
    let a = MyDate::from_str("Jan 02, 2024").unwrap();
    let b = MyDate::from_str("Jan 03, 2024").unwrap();
    let c = MyDate::from_str("Feb 01, 2023").unwrap();
    assert!(a.lt(&b));
    assert!(!b.lt(&a));
    assert!(c.lt(&a));
    assert!(!a.lt(&a));
}
