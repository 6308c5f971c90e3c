use postgres_ical_parser::datetime::DateTimeFields;
use postgres_ical_parser::props::RawProperty;
use postgres_ical_parser::types::{IcalDateTime, IcalInt, IcalText};

fn prop(name: &str, params: Vec<(&str, Vec<&str>)>, value: Option<&str>) -> RawProperty {
    RawProperty {
        name: name.to_string(),
        params: Some(
            params
                .into_iter()
                .map(|(n, vs)| (n.to_string(), vs.into_iter().map(|v| v.to_string()).collect()))
                .collect(),
        ),
        value: value.map(|v| v.to_string()),
    }
}

fn fields(year: u16, month: u8, day: u8, hour: u8, minute: u8, second: u8) -> DateTimeFields {
    DateTimeFields { year, month, day, hour, minute, second }
}

#[test]
fn parse_ical_date_time() {
    assert!(
        IcalDateTime::parse(prop("", vec![], Some("20020110T123045"))).unwrap()
            == IcalDateTime::Naive(fields(2002, 1, 10, 12, 30, 45))
    );

    assert!(
        IcalDateTime::parse(prop("", vec![], Some("20020110T123045Z"))).unwrap()
            == IcalDateTime::Utc(fields(2002, 1, 10, 12, 30, 45))
    );

    assert!(
        IcalDateTime::parse(prop("", vec![("TZID", vec!["Europe/Paris"])], Some("20020110T123045")))
            .unwrap()
            == IcalDateTime::Tz("Europe/Paris".to_string(), fields(2002, 1, 10, 12, 30, 45))
    );
}

#[test]
fn parse_ical_date_time_invalid() {
    assert!(matches!(
        IcalDateTime::parse(prop(
            "",
            vec![("TZID", vec!["Middle_Earth/Minas_Tirith"])],
            Some("20020110T123045"),
        )),
        Err(_),
    ));

    assert!(matches!(
        IcalDateTime::parse(prop("", vec![("TZID", vec!["Europe/Paris"])], Some("20020110T123045Z"))),
        Err(_),
    ));
}

#[test]
fn date_time_rejects_bad_layout() {
    // Too short, wrong separator, missing value, empty text.
    assert!(IcalDateTime::parse(prop("", vec![], Some("2002011T123045"))).is_err());
    assert!(IcalDateTime::parse(prop("", vec![], Some("20020110X123045"))).is_err());
    assert!(IcalDateTime::parse(prop("", vec![], Some(""))).is_err());
    assert!(IcalDateTime::parse(prop("", vec![], None)).is_err());
    // The failure carries the literal text found.
    assert_eq!(
        IcalDateTime::parse(prop("", vec![], Some("not-a-date"))).unwrap_err(),
        "not-a-date".to_string()
    );
}

#[test]
fn date_time_rejects_nonexistent_dates() {
    assert!(IcalDateTime::parse(prop("", vec![], Some("20020230T120000"))).is_err());
    assert!(IcalDateTime::parse(prop("", vec![], Some("20021301T120000"))).is_err());
    assert!(IcalDateTime::parse(prop("", vec![], Some("20020110T240000"))).is_err());
    assert!(IcalDateTime::parse(prop("", vec![], Some("20020110T126000"))).is_err());
    // Leap-year handling: 2024 has a Feb 29, 2023 does not, 1900 does not, 2000 does.
    assert!(IcalDateTime::parse(prop("", vec![], Some("20240229T000000"))).is_ok());
    assert!(IcalDateTime::parse(prop("", vec![], Some("20230229T000000"))).is_err());
    assert!(IcalDateTime::parse(prop("", vec![], Some("19000229T000000"))).is_err());
    assert!(IcalDateTime::parse(prop("", vec![], Some("20000229T000000"))).is_ok());
}

#[test]
fn date_time_last_tzid_wins() {
    // The last TZID parameter wins, and within it the last value.
    let got = IcalDateTime::parse(prop(
        "",
        vec![
            ("TZID", vec!["Middle_Earth/Minas_Tirith"]),
            ("TZID", vec!["America/New_York", "Europe/Berlin"]),
        ],
        Some("20020110T123045"),
    ))
    .unwrap();
    assert!(got == IcalDateTime::Tz("Europe/Berlin".to_string(), fields(2002, 1, 10, 12, 30, 45)));
}

#[test]
fn parse_int_values() {
    assert_eq!(IcalInt::parse(prop("", vec![], Some("42"))).unwrap(), 42);
    assert_eq!(IcalInt::parse(prop("", vec![], Some("-17"))).unwrap(), -17);
    assert_eq!(IcalInt::parse(prop("", vec![], Some("+5"))).unwrap(), 5);
    assert_eq!(IcalInt::parse(prop("", vec![], Some("007"))).unwrap(), 7);
    assert_eq!(IcalInt::parse(prop("", vec![], Some("0"))).unwrap(), 0);
    assert_eq!(IcalInt::parse(prop("", vec![], Some("2147483647"))).unwrap(), 2147483647);
    assert_eq!(IcalInt::parse(prop("", vec![], Some("-2147483648"))).unwrap(), -2147483648);
}

#[test]
fn parse_int_failures() {
    assert_eq!(IcalInt::parse(prop("", vec![], Some("abc"))).unwrap_err(), "abc".to_string());
    assert!(IcalInt::parse(prop("", vec![], Some("2147483648"))).is_err());
    assert!(IcalInt::parse(prop("", vec![], Some("-2147483649"))).is_err());
    assert!(IcalInt::parse(prop("", vec![], Some("12 "))).is_err());
    assert!(IcalInt::parse(prop("", vec![], Some("1.5"))).is_err());
    assert!(IcalInt::parse(prop("", vec![], Some("-"))).is_err());
    assert!(IcalInt::parse(prop("", vec![], Some(""))).is_err());
    assert!(IcalInt::parse(prop("", vec![], None)).is_err());
}

#[test]
fn parse_text_unescapes() {
    // Identity on backslash-free input.
    assert_eq!(
        IcalText::parse(prop("", vec![], Some("plain text, no escapes?"))).unwrap(),
        "plain text, no escapes?".to_string()
    );
    assert_eq!(IcalText::parse(prop("", vec![], Some("a\\;b"))).unwrap(), "a;b".to_string());
    assert_eq!(IcalText::parse(prop("", vec![], Some("a\\,b"))).unwrap(), "a,b".to_string());
    assert_eq!(IcalText::parse(prop("", vec![], Some("a\\nb"))).unwrap(), "a\nb".to_string());
    assert_eq!(IcalText::parse(prop("", vec![], Some("a\\Nb"))).unwrap(), "a\nb".to_string());
    assert_eq!(IcalText::parse(prop("", vec![], Some("a\\\\b"))).unwrap(), "a\\b".to_string());
}

#[test]
fn parse_text_edge_cases() {
    // A missing value reads as empty text, not a failure.
    assert_eq!(IcalText::parse(prop("", vec![], None)).unwrap(), String::new());
    // An unrecognized escape pair passes through verbatim.
    assert_eq!(IcalText::parse(prop("", vec![], Some("a\\xb"))).unwrap(), "a\\xb".to_string());
    // A trailing lone backslash passes through.
    assert_eq!(IcalText::parse(prop("", vec![], Some("a\\"))).unwrap(), "a\\".to_string());
    // Decoded characters are never re-scanned: `\\;` is a backslash then a
    // plain semicolon, not an escaped semicolon.
    assert_eq!(IcalText::parse(prop("", vec![], Some("\\\\;"))).unwrap(), "\\;".to_string());
    assert_eq!(
        IcalText::parse(prop("", vec![], Some("line1\\nline2\\, with comma"))).unwrap(),
        "line1\nline2, with comma".to_string()
    );
}
