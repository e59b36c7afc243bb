use mediathek_index::item::{to_julian_day, Date, Time};
use mediathek_index::parser::{parse, parse_date, parse_time, parse_url_suffix};
use mediathek_index::Error;

#[test]
fn url_suffix() {
    assert_eq!(None, parse_url_suffix("foo://bar", "".to_owned()).unwrap());

    assert_eq!(
        Some("foo://bar/qux".to_owned()),
        parse_url_suffix("foo://bar", "/qux".to_owned()).unwrap()
    );

    assert_eq!(
        Some("foo://bar/qux".to_owned()),
        parse_url_suffix("foo://bar/baz", "10|qux".to_owned()).unwrap()
    );
}

#[test]
fn url_suffix_out_of_range() {
    assert!(matches!(
        parse_url_suffix("short", "99|tail".to_owned()),
        Err(Error::BadUrlSuffix)
    ));
    assert!(matches!(
        parse_url_suffix("base", "x|tail".to_owned()),
        Err(Error::BadUrlSuffix)
    ));
}

#[test]
fn date_defaults_and_errors() {
    assert_eq!(None, parse_date("").unwrap());
    assert_eq!(
        Some(Date { year: 2024, month: 2, day: 1 }),
        parse_date("01.02.2024").unwrap()
    );
    assert!(matches!(parse_date("32.01.2024"), Err(Error::BadDate)));
    assert!(matches!(parse_date("01.13.2024"), Err(Error::BadDate)));
    assert!(matches!(parse_date("0102"), Err(Error::BadDate)));
    assert_eq!(
        Some(Date { year: 2024, month: 2, day: 29 }),
        parse_date("29.02.2024").unwrap()
    );
    assert!(matches!(parse_date("29.02.2023"), Err(Error::BadDate)));
}

#[test]
fn time_defaults_and_errors() {
    assert_eq!(None, parse_time("").unwrap());
    assert_eq!(
        Some(Time { hour: 20, minute: 15, second: 0 }),
        parse_time("20:15:00").unwrap()
    );
    assert!(matches!(parse_time("24:00:00"), Err(Error::BadTime)));
    assert!(matches!(parse_time("12:60:00"), Err(Error::BadTime)));
    assert!(matches!(parse_time("12:00"), Err(Error::BadTime)));
}

#[test]
fn julian_day_known_values() {
    assert_eq!(2440588, to_julian_day(&Date { year: 1970, month: 1, day: 1 }));
    assert_eq!(2451545, to_julian_day(&Date { year: 2000, month: 1, day: 1 }));
    assert_eq!(2460342, to_julian_day(&Date { year: 2024, month: 2, day: 1 }));
}

#[test]
fn seconds_from_midnight() {
    assert_eq!(72900, Time { hour: 20, minute: 15, second: 0 }.seconds());
    assert_eq!(0, Time { hour: 0, minute: 0, second: 0 }.seconds());
}

fn single_record_payload() -> Vec<u8> {
    let mut payload = String::new();
    payload.push_str("{\"Filmliste\":[\"meta\"],\"X\":[");
    payload.push_str("\"ARD\",\"Topic A\",\"Title 1\",\"01.02.2024\",\"20:15:00\",\"00:45:00\",");
    payload.push_str("\"\",\"desc\",\"https://ex.org/a\",\"https://ex.org\",\"\",\"\",\".s\",");
    payload.push_str("\"\",\" l\",\"\",\"\",\"\",\"\",\"\"]}");
    payload.into_bytes()
}

#[test]
fn single_record_full_parse() {
    let data = single_record_payload();
    let mut items = Vec::new();
    parse(&data, &mut items).unwrap();
    assert_eq!(1, items.len());
    let item = &items[0];
    assert_eq!("ARD", item.channel);
    assert_eq!("Topic A", item.topic);
    assert_eq!("Title 1", item.title);
    assert_eq!(Date { year: 2024, month: 2, day: 1 }, item.date);
    assert_eq!(Time { hour: 20, minute: 15, second: 0 }, item.time);
    assert_eq!(Time { hour: 0, minute: 45, second: 0 }, item.duration);
    assert_eq!("desc", item.description);
    assert_eq!("https://ex.org", item.website);
    assert_eq!("https://ex.org/a", item.url);
    assert_eq!(Some("https://ex.org/a.s".to_owned()), item.url_small);
    assert_eq!(Some("https://ex.org/a l".to_owned()), item.url_large);
}

#[test]
fn pipe_suffix_replaces_prefix() {
    let mut payload = String::new();
    payload.push_str("{\"Filmliste\":[\"meta\"],\"X\":[");
    payload.push_str("\"ARD\",\"T\",\"T1\",\"\",\"\",\"\",");
    payload.push_str("\"\",\"d\",\"https://ex.org/abc\",\"w\",\"\",\"\",\"15|x\",");
    payload.push_str("\"\",\"\",\"\",\"\",\"\",\"\",\"\"]}");
    let mut items = Vec::new();
    parse(payload.as_bytes(), &mut items).unwrap();
    assert_eq!(1, items.len());
    assert_eq!(Some("https://ex.org/x".to_owned()), items[0].url_small);
}

#[test]
fn empty_suffix_gives_no_url() {
    let mut payload = String::new();
    payload.push_str("{\"Filmliste\":[\"meta\"],\"X\":[");
    payload.push_str("\"ARD\",\"T\",\"T1\",\"\",\"\",\"\",");
    payload.push_str("\"\",\"d\",\"https://ex.org/abc\",\"w\",\"\",\"\",\"\",");
    payload.push_str("\"\",\"\",\"\",\"\",\"\",\"\",\"\"]}");
    let mut items = Vec::new();
    parse(payload.as_bytes(), &mut items).unwrap();
    assert_eq!(1, items.len());
    assert_eq!(None, items[0].url_small);
    // a record with an empty date or time falls back to the defaults
    assert_eq!(Date { year: 1, month: 1, day: 1 }, items[0].date);
    assert_eq!(Time { hour: 0, minute: 0, second: 0 }, items[0].time);
    assert_eq!(Time { hour: 0, minute: 0, second: 0 }, items[0].duration);
}

#[test]
fn two_records_in_stream_order() {
    let mut payload = String::new();
    payload.push_str("{\"Filmliste\":[\"meta\"],\"X\":[");
    payload.push_str("\"A\",\"T\",\"first\",\"\",\"\",\"\",\"\",\"\",\"u\",\"w\",\"\",\"\",\"\",\"\",\"\",\"\",\"\",\"\",\"\",\"\"],\"X\":[");
    payload.push_str("\"\",\"\",\"second\",\"\",\"\",\"\",\"\",\"\",\"u2\",\"w2\",\"\",\"\",\"\",\"\",\"\",\"\",\"\",\"\",\"\",\"\"]}");
    let mut items = Vec::new();
    parse(payload.as_bytes(), &mut items).unwrap();
    assert_eq!(2, items.len());
    assert_eq!("first", items[0].title);
    assert_eq!("second", items[1].title);
    assert_eq!("", items[1].channel);
    assert_eq!("", items[1].topic);
}

#[test]
fn framing_errors() {
    let mut items = Vec::new();
    assert!(matches!(
        parse(b"{\"Nope\":[1],\"X\":[\"a\"]}xxxxxxxxxxxxxxxx", &mut items),
        Err(Error::MalformedHeader)
    ));
    assert!(matches!(parse(b"{\"Filmliste\":[", &mut items), Err(Error::UnexpectedEnd)));
    assert!(matches!(parse(b"", &mut items), Err(Error::UnexpectedEnd)));
    // header closes but the last record does not end in the closing pair
    assert!(matches!(
        parse(b"{\"Filmliste\":[1],\"X\":[\"a\",\"b\"", &mut items),
        Err(Error::MalformedLastItem)
    ));
}

#[test]
fn record_must_be_twenty_values() {
    let mut payload = String::new();
    payload.push_str("{\"Filmliste\":[\"meta\"],\"X\":[\"only\",\"three\",\"fields\"]}");
    let mut items = Vec::new();
    assert!(matches!(parse(payload.as_bytes(), &mut items), Err(Error::JsonError)));
}

#[test]
fn push_rejects_embedded_nul() {
    let mut compr = mediathek_index::compressor::BackgroundCompressor::new();
    assert!(matches!(compr.push("bad\0text"), Err(Error::EmbeddedNul)));
    assert_eq!(0, compr.len());
    let off = compr.push("good").unwrap();
    assert_eq!(0, off);
    assert_eq!(5, compr.len());
    let off2 = compr.push("more").unwrap();
    assert_eq!(5, off2);
}
