use postgres_ical_parser::datetime::DateTimeFields;
use postgres_ical_parser::parser::{CalendarParseError, Event, EventsReader};
use postgres_ical_parser::props::{RawProperty, TokenizeError};
use postgres_ical_parser::types::IcalDateTime;

fn prop(name: &str, value: &str) -> Result<RawProperty, TokenizeError> {
    Ok(RawProperty {
        name: name.to_string(),
        params: None,
        value: Some(value.to_string()),
    })
}

fn fields(year: u16, month: u8, day: u8, hour: u8, minute: u8, second: u8) -> DateTimeFields {
    DateTimeFields { year, month, day, hour, minute, second }
}

#[test]
fn missing_dtstart_named() {
    let r = Event::from_properties(vec![prop("UID", "abc"), prop("SUMMARY", "Meeting")]);
    assert!(matches!(r, Err(CalendarParseError::MissingProperty("DTSTART"))));
}

#[test]
fn missing_uid_named() {
    let r = Event::from_properties(vec![prop("DTSTART", "20020110T090000Z")]);
    assert!(matches!(r, Err(CalendarParseError::MissingProperty("UID"))));
}

#[test]
fn missing_both_names_dtstart_first() {
    let r = Event::from_properties(vec![prop("SUMMARY", "Meeting")]);
    assert!(matches!(r, Err(CalendarParseError::MissingProperty("DTSTART"))));
}

#[test]
fn unknown_property_is_ignored() {
    let r = Event::from_properties(vec![
        prop("UID", "abc"),
        prop("DTSTART", "20020110T090000Z"),
        prop("X-CUSTOM", "whatever"),
    ])
    .unwrap();
    assert_eq!(r.uid, "abc".to_string());
    assert!(r.dt_start == IcalDateTime::Utc(fields(2002, 1, 10, 9, 0, 0)));
    assert!(r.summary.is_none());
    assert!(r.description.is_none());
    assert!(r.location.is_none());
    assert!(r.created.is_none());
    assert!(r.dt_stamp.is_none());
    assert!(r.dt_end.is_none());
    assert!(r.last_modified.is_none());
    assert_eq!(r.sequence, 0);
}

#[test]
fn sequence_defaults_to_zero() {
    let r = Event::from_properties(vec![
        prop("UID", "abc"),
        prop("DTSTART", "20020110T090000Z"),
    ])
    .unwrap();
    assert_eq!(r.sequence, 0);
}

#[test]
fn sequence_last_occurrence_wins() {
    let r = Event::from_properties(vec![
        prop("UID", "abc"),
        prop("SEQUENCE", "1"),
        prop("DTSTART", "20020110T090000Z"),
        prop("SEQUENCE", "2"),
    ])
    .unwrap();
    assert_eq!(r.sequence, 2);
}

#[test]
fn repeated_text_property_last_wins() {
    let r = Event::from_properties(vec![
        prop("UID", "abc"),
        prop("UID", "def"),
        prop("DTSTART", "20020110T090000Z"),
    ])
    .unwrap();
    assert_eq!(r.uid, "def".to_string());
}

#[test]
fn lowercase_names_are_recognized() {
    let r = Event::from_properties(vec![
        prop("uid", "abc"),
        prop("dtstart", "20020110T090000Z"),
        prop("Summary", "Meeting"),
    ])
    .unwrap();
    assert_eq!(r.uid, "abc".to_string());
    assert_eq!(r.summary, Some("Meeting".to_string()));
}

#[test]
fn invalid_date_time_reports_diagnostics() {
    let r = Event::from_properties(vec![
        prop("UID", "abc"),
        prop("DTSTART", "garbage"),
    ]);
    match r {
        Err(CalendarParseError::InvalidPropertyValue { property, found, expected }) => {
            assert_eq!(property, "DTSTART");
            assert_eq!(found, "garbage".to_string());
            assert_eq!(expected, "DATE-TIME");
        },
        _ => panic!("expected InvalidPropertyValue"),
    }
}

#[test]
fn invalid_sequence_reports_diagnostics() {
    let r = Event::from_properties(vec![
        prop("UID", "abc"),
        prop("DTSTART", "20020110T090000Z"),
        prop("SEQUENCE", "three"),
    ]);
    match r {
        Err(CalendarParseError::InvalidPropertyValue { property, found, expected }) => {
            assert_eq!(property, "SEQUENCE");
            assert_eq!(found, "three".to_string());
            assert_eq!(expected, "INT");
        },
        _ => panic!("expected InvalidPropertyValue"),
    }
}

#[test]
fn tokenizer_error_aborts_assembly() {
    let r = Event::from_properties(vec![
        prop("UID", "abc"),
        Err(TokenizeError::Property("bad line".to_string())),
        prop("DTSTART", "20020110T090000Z"),
    ]);
    assert!(matches!(r, Err(CalendarParseError::ParserError(TokenizeError::Property(_)))));
}

#[test]
fn reader_end_to_end_single_event() {
    let mut reader = EventsReader::new(vec![
        prop("BEGIN", "VCALENDAR"),
        prop("BEGIN", "VEVENT"),
        prop("UID", "abc"),
        prop("DTSTART", "20020110T090000Z"),
        prop("SUMMARY", "Meeting"),
        prop("END", "VEVENT"),
        prop("END", "VCALENDAR"),
    ]);
    let ev = reader.next().unwrap().unwrap();
    assert_eq!(ev.uid, "abc".to_string());
    assert!(ev.dt_start == IcalDateTime::Utc(fields(2002, 1, 10, 9, 0, 0)));
    assert_eq!(ev.summary, Some("Meeting".to_string()));
    assert_eq!(ev.sequence, 0);
    assert!(ev.created.is_none());
    assert!(ev.description.is_none());
    assert!(reader.next().is_none());
    assert!(reader.next().is_none());
}

#[test]
fn reader_skips_unknown_component() {
    let mut reader = EventsReader::new(vec![
        prop("BEGIN", "VCALENDAR"),
        prop("BEGIN", "VFREEBUSY"),
        prop("UID", "ignored"),
        prop("END", "VFREEBUSY"),
        prop("BEGIN", "VEVENT"),
        prop("UID", "abc"),
        prop("DTSTART", "20020110T090000Z"),
        prop("END", "VEVENT"),
        prop("END", "VCALENDAR"),
    ]);
    let ev = reader.next().unwrap().unwrap();
    assert_eq!(ev.uid, "abc".to_string());
    assert!(reader.next().is_none());
}

#[test]
fn reader_skip_discards_nested_event_marker() {
    // An event opening marker inside a skipped component is discarded; the
    // skip ends only at a closing marker of the skipped component's name.
    let mut reader = EventsReader::new(vec![
        prop("BEGIN", "VCALENDAR"),
        prop("BEGIN", "VFREEBUSY"),
        prop("BEGIN", "VEVENT"),
        prop("UID", "ignored"),
        prop("END", "VFREEBUSY"),
        prop("END", "VCALENDAR"),
    ]);
    assert!(reader.next().is_none());
}

#[test]
fn reader_begin_without_name_is_an_error_item() {
    let mut reader = EventsReader::new(vec![
        Ok(RawProperty { name: "BEGIN".to_string(), params: None, value: None }),
        prop("BEGIN", "VEVENT"),
        prop("UID", "abc"),
        prop("DTSTART", "20020110T090000Z"),
        prop("END", "VEVENT"),
    ]);
    assert!(matches!(
        reader.next(),
        Some(Err(CalendarParseError::ParserError(TokenizeError::InvalidComponent))),
    ));
    let ev = reader.next().unwrap().unwrap();
    assert_eq!(ev.uid, "abc".to_string());
    assert!(reader.next().is_none());
}

#[test]
fn reader_surfaces_scanning_errors_and_continues() {
    let mut reader = EventsReader::new(vec![
        Err(TokenizeError::Property("bad line".to_string())),
        prop("BEGIN", "VEVENT"),
        prop("UID", "abc"),
        prop("DTSTART", "20020110T090000Z"),
        prop("END", "VEVENT"),
    ]);
    assert!(matches!(
        reader.next(),
        Some(Err(CalendarParseError::ParserError(TokenizeError::Property(_)))),
    ));
    let ev = reader.next().unwrap().unwrap();
    assert_eq!(ev.uid, "abc".to_string());
    assert!(reader.next().is_none());
}

#[test]
fn reader_failed_event_does_not_corrupt_later_ones() {
    let mut reader = EventsReader::new(vec![
        prop("BEGIN", "VEVENT"),
        prop("UID", "first"),
        prop("END", "VEVENT"),
        prop("BEGIN", "VEVENT"),
        prop("UID", "second"),
        prop("DTSTART", "20020110T090000Z"),
        prop("END", "VEVENT"),
    ]);
    assert!(matches!(
        reader.next(),
        Some(Err(CalendarParseError::MissingProperty("DTSTART"))),
    ));
    let ev = reader.next().unwrap().unwrap();
    assert_eq!(ev.uid, "second".to_string());
    assert!(reader.next().is_none());
}

#[test]
fn reader_ignores_stray_properties() {
    // Properties outside any component, and unmatched closing markers,
    // produce no output.
    let mut reader = EventsReader::new(vec![
        prop("NOTE", "stray"),
        prop("END", "VCALENDAR"),
        prop("BEGIN", "VEVENT"),
        prop("UID", "abc"),
        prop("DTSTART", "20020110T090000Z"),
        prop("END", "VEVENT"),
    ]);
    let ev = reader.next().unwrap().unwrap();
    assert_eq!(ev.uid, "abc".to_string());
    assert!(reader.next().is_none());
}

#[test]
fn read_all_collects_every_result() {
    let results = postgres_ical_parser::parser::read_all(vec![
        prop("BEGIN", "VCALENDAR"),
        prop("BEGIN", "VEVENT"),
        prop("UID", "one"),
        prop("DTSTART", "20020110T090000Z"),
        prop("END", "VEVENT"),
        prop("BEGIN", "VEVENT"),
        prop("UID", "two"),
        prop("END", "VEVENT"),
        prop("END", "VCALENDAR"),
    ]);
    assert_eq!(results.len(), 2);
    assert_eq!(results[0].as_ref().unwrap().uid, "one".to_string());
    assert!(matches!(results[1], Err(CalendarParseError::MissingProperty("DTSTART"))));
}

#[test]
fn reader_event_with_zone_parameter() {
    let mut reader = EventsReader::new(vec![
        prop("BEGIN", "VCALENDAR"),
        prop("BEGIN", "VEVENT"),
        prop("UID", "abc"),
        Ok(RawProperty {
            name: "DTSTART".to_string(),
            params: Some(vec![("TZID".to_string(), vec!["Europe/Paris".to_string()])]),
            value: Some("20020110T123045".to_string()),
        }),
        prop("END", "VEVENT"),
        prop("END", "VCALENDAR"),
    ]);
    let ev = reader.next().unwrap().unwrap();
    assert!(
        ev.dt_start == IcalDateTime::Tz("Europe/Paris".to_string(), fields(2002, 1, 10, 12, 30, 45))
    );
    assert!(reader.next().is_none());
}
