use statemap::calendar::{nanos_since_epoch, CivilTime};
use statemap::decimal::{decimal_string, parse_decimal};
use statemap::error::StatemapError;
use statemap::json::{datum_record, json_string};
use statemap::statemap::{IterHelper, Statemap};

fn at(year: i32, month: u32, day: u32, hour: u32, minute: u32, second: u32, nanosecond: u32) -> CivilTime {
    CivilTime { year, month, day, hour, minute, second, nanosecond }
}

fn drain(mut it: IterHelper) -> Vec<String> {
    let mut out = Vec::new();
    while let Some(s) = it.next().unwrap() {
        out.push(s);
    }
    out
}

#[test]
fn empty_store_emits_header_only() {
    let sm = Statemap::new("empty", None, None);
    let mut it = sm.into_iter();
    let first = it.next().unwrap().unwrap();
    assert_eq!(
        first,
        "{\"start\":[0,0],\"title\":\"empty\",\"host\":null,\"entityKind\":null,\"states\":{}}"
    );
    assert_eq!(it.next().unwrap(), None);
    assert_eq!(it.next().unwrap(), None);
}

#[test]
fn three_registrations_example() {
    let mut sm = Statemap::new("test", None, None);
    sm.set_state("h1", "s1", None, at(2020, 1, 1, 0, 0, 0, 0)).unwrap();
    sm.set_state("h2", "s1", None, at(2020, 1, 1, 0, 0, 5, 0)).unwrap();
    sm.set_state("h1", "s2", None, at(2020, 1, 1, 0, 0, 10, 0)).unwrap();
    let out = drain(sm.into_iter());
    assert_eq!(out.len(), 4);
    assert_eq!(
        out[0],
        "{\"start\":[1577836800,0],\"title\":\"test\",\"host\":null,\"entityKind\":null,\
         \"states\":{\"s1\":{\"color\":null,\"value\":0},\"s2\":{\"color\":null,\"value\":1}}}"
    );
    let h1a = "{\"time\":\"0\",\"entity\":\"h1\",\"state\":0,\"tag\":null}";
    let h1b = "{\"time\":\"10000000000\",\"entity\":\"h1\",\"state\":1,\"tag\":null}";
    let h2 = "{\"time\":\"5000000000\",\"entity\":\"h2\",\"state\":0,\"tag\":null}";
    let pos = |r: &str| out.iter().position(|s| s == r).unwrap();
    assert!(pos(h1a) < pos(h1b));
    assert!(pos(h2) >= 1);
}

#[test]
fn header_comes_first_with_host_and_kind() {
    let mut sm = Statemap::new("t", Some("box".to_string()), Some("cpu".to_string()));
    sm.set_state("c0", "idle", Some("x"), at(1970, 1, 1, 0, 0, 1, 5)).unwrap();
    let mut it = sm.into_iter();
    assert_eq!(
        it.next().unwrap().unwrap(),
        "{\"start\":[1,5],\"title\":\"t\",\"host\":\"box\",\"entityKind\":\"cpu\",\
         \"states\":{\"idle\":{\"color\":null,\"value\":0}}}"
    );
    assert_eq!(
        it.next().unwrap().unwrap(),
        "{\"time\":\"0\",\"entity\":\"c0\",\"state\":0,\"tag\":\"x\"}"
    );
    assert_eq!(it.next().unwrap(), None);
}

#[test]
fn state_codes_follow_first_sight() {
    let mut sm = Statemap::new("t", None, None);
    sm.set_state("a", "on", None, at(2021, 6, 1, 0, 0, 0, 0)).unwrap();
    sm.set_state("b", "off", None, at(2021, 6, 1, 0, 0, 0, 0)).unwrap();
    sm.set_state("b", "on", None, at(2021, 6, 1, 0, 0, 0, 0)).unwrap();
    sm.set_state("a", "wait", None, at(2021, 6, 1, 0, 0, 0, 0)).unwrap();
    let out = drain(sm.into_iter());
    assert!(out[0].ends_with(
        "\"states\":{\"on\":{\"color\":null,\"value\":0},\"off\":{\"color\":null,\"value\":1},\
         \"wait\":{\"color\":null,\"value\":2}}}"
    ));
    assert!(out.contains(&"{\"time\":\"0\",\"entity\":\"b\",\"state\":0,\"tag\":null}".to_string()));
    assert!(out.contains(&"{\"time\":\"0\",\"entity\":\"a\",\"state\":2,\"tag\":null}".to_string()));
}

#[test]
fn watermark_is_minimum_whatever_the_order() {
    let mut sm = Statemap::new("t", None, None);
    sm.set_state("a", "s", None, at(2000, 1, 1, 0, 0, 30, 0)).unwrap();
    sm.set_state("a", "s", None, at(2000, 1, 1, 0, 0, 10, 7)).unwrap();
    sm.set_state("b", "s", None, at(2000, 1, 1, 0, 0, 20, 0)).unwrap();
    let out = drain(sm.into_iter());
    assert_eq!(out.len(), 4);
    assert!(out[0].starts_with("{\"start\":[946684810,7],"));
    let a1 = "{\"time\":\"19999999993\",\"entity\":\"a\",\"state\":0,\"tag\":null}";
    let a2 = "{\"time\":\"0\",\"entity\":\"a\",\"state\":0,\"tag\":null}";
    let b1 = "{\"time\":\"9999999993\",\"entity\":\"b\",\"state\":0,\"tag\":null}";
    let pos = |r: &str| out.iter().position(|s| s == r).unwrap();
    assert!(pos(a1) < pos(a2));
    assert!(pos(b1) >= 1);
}

#[test]
fn invalid_dates_are_rejected() {
    let mut sm = Statemap::new("t", None, None);
    assert_eq!(sm.set_state("a", "s", None, at(2021, 2, 29, 0, 0, 0, 0)), Err(StatemapError::InvalidTimestamp));
    assert_eq!(sm.set_state("a", "s", None, at(2021, 1, 32, 0, 0, 0, 0)), Err(StatemapError::InvalidTimestamp));
    assert_eq!(sm.set_state("a", "s", None, at(2021, 1, 1, 24, 0, 0, 0)), Err(StatemapError::InvalidTimestamp));
    assert_eq!(sm.set_state("a", "s", None, at(2021, 1, 1, 0, 0, 60, 0)), Err(StatemapError::InvalidTimestamp));
    assert_eq!(sm.set_state("a", "s", None, at(1969, 12, 31, 23, 59, 59, 0)), Err(StatemapError::InvalidTimestamp));
    assert_eq!(sm.set_state("a", "s", None, at(2600, 1, 1, 0, 0, 0, 0)), Err(StatemapError::InvalidTimestamp));
    assert_eq!(sm.state_count(), 0);
    let out = drain(sm.into_iter());
    assert_eq!(out.len(), 1);
    assert!(out[0].contains("\"states\":{}"));
}

#[test]
fn epoch_nanoseconds_of_calendar_fields() {
    assert_eq!(nanos_since_epoch(&at(1970, 1, 1, 0, 0, 0, 0)), Some(0));
    assert_eq!(nanos_since_epoch(&at(2015, 5, 15, 0, 0, 0, 0)), Some(1_431_648_000_000_000_000));
    assert_eq!(nanos_since_epoch(&at(2016, 2, 29, 12, 30, 15, 42)), Some(1_456_749_015_000_000_042));
    assert_eq!(nanos_since_epoch(&at(2100, 2, 29, 0, 0, 0, 0)), None);
    assert_eq!(nanos_since_epoch(&at(2000, 2, 29, 0, 0, 0, 0)), Some(951_782_400_000_000_000));
    assert_eq!(nanos_since_epoch(&at(2554, 7, 21, 23, 34, 33, 709_551_615)), Some(u64::MAX));
    assert_eq!(nanos_since_epoch(&at(2554, 7, 21, 23, 34, 33, 709_551_616)), None);
    assert_eq!(nanos_since_epoch(&at(2000, 1, 1, 0, 0, 0, 999_999_999)), Some(946_684_800_999_999_999));
    assert_eq!(nanos_since_epoch(&at(2000, 1, 1, 0, 0, 0, 1_000_000_000)), None);
    assert_eq!(nanos_since_epoch(&at(2000, 1, 1, 0, 0, 0, 4_000_000_000)), None);
}

#[test]
fn decimal_text_round_trips() {
    for n in [0u64, 7, 10, 1_000_000_000, 12_345_678_901, u64::MAX] {
        let s = decimal_string(n);
        assert_eq!(s, n.to_string());
        assert_eq!(s.parse::<u64>().unwrap(), n);
        assert_eq!(parse_decimal(&s), Some(n));
    }
}

#[test]
fn strings_are_escaped_as_json() {
    assert_eq!(json_string("a\"b\\c\n").unwrap(), "\"a\\\"b\\\\c\\n\"");
    assert_eq!(json_string("\u{1}\u{1f}\t\u{8}\u{c}\r\u{7f}\u{e9}").unwrap(), "\"\\u0001\\u001f\\t\\b\\f\\r\u{7f}\u{e9}\"");
    let mut sm = Statemap::new("q\"t", None, None);
    sm.set_state("e\"1", "s", Some("t\\g"), at(2020, 1, 1, 0, 0, 0, 0)).unwrap();
    let out = drain(sm.into_iter());
    assert!(out[0].contains("\"title\":\"q\\\"t\""));
    assert_eq!(out[1], "{\"time\":\"0\",\"entity\":\"e\\\"1\",\"state\":0,\"tag\":\"t\\\\g\"}");
}

#[test]
fn data_record_layout() {
    assert_eq!(
        datum_record(42, "\"x\"", 3, "null"),
        "{\"time\":\"42\",\"entity\":\"x\",\"state\":3,\"tag\":null}"
    );
}

#[test]
fn decimal_parse_rejects_what_is_not_a_time() {
    assert_eq!(parse_decimal("0"), Some(0));
    assert_eq!(parse_decimal("007"), Some(7));
    assert_eq!(parse_decimal("18446744073709551615"), Some(u64::MAX));
    assert_eq!(parse_decimal("18446744073709551616"), None);
    assert_eq!(parse_decimal("99999999999999999999x"), None);
    assert_eq!(parse_decimal(""), None);
    assert_eq!(parse_decimal("12a"), None);
    assert_eq!(parse_decimal("-1"), None);
    assert_eq!(parse_decimal("+5"), Some(5));
    assert_eq!(parse_decimal("+18446744073709551615"), Some(u64::MAX));
    assert_eq!(parse_decimal("+"), None);
    assert_eq!(parse_decimal("++5"), None);
    assert_eq!(parse_decimal("5+"), None);
    assert_eq!(parse_decimal("1 "), None);
    assert_eq!(parse_decimal("\u{e9}1"), None);
}
