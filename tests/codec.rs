use weather_log::{format_record, parse_kv, parse_line, Error, Record};

fn items(xs: &[&str]) -> Vec<String> {
    xs.iter().map(|s| s.to_string()).collect()
}

fn value(r: &Record, key: &str) -> Option<String> {
    r.get(key).cloned()
}

#[test]
fn parse_input_fills_defaults() {
    let r = parse_kv(&items(&["day=Mon"])).unwrap();
    assert_eq!(r.len(), 4);
    assert_eq!(value(&r, "day"), Some("Mon".to_string()));
    assert_eq!(value(&r, "condition"), Some(String::new()));
    assert_eq!(value(&r, "high"), Some(String::new()));
    assert_eq!(value(&r, "low"), Some(String::new()));
}

#[test]
fn parse_input_rejects_unknown_field() {
    let e = parse_kv(&items(&["temp=5"])).unwrap_err();
    assert_eq!(e, Error::UnknownField("temp".to_string()));
    assert_eq!(e.message(), "unknown field: temp");
}

#[test]
fn parse_input_rejects_separator_in_value() {
    let e = parse_kv(&items(&["high=1|2"])).unwrap_err();
    assert_eq!(e, Error::InvalidValue("1|2".to_string()));
    assert_eq!(e.message(), "value may not contain '|'");
}

#[test]
fn parse_input_rejects_item_without_equals() {
    let e = parse_kv(&items(&["badtoken"])).unwrap_err();
    assert_eq!(e, Error::InvalidItem("badtoken".to_string()));
    assert_eq!(e.message(), "invalid item: badtoken");
}

#[test]
fn parse_input_first_bad_item_decides() {
    let e = parse_kv(&items(&["day=Mon", "temp=5", "badtoken"])).unwrap_err();
    assert_eq!(e, Error::UnknownField("temp".to_string()));
}

#[test]
fn parse_input_splits_at_first_equals() {
    let r = parse_kv(&items(&["high=1=2"])).unwrap();
    assert_eq!(value(&r, "high"), Some("1=2".to_string()));
}

#[test]
fn parse_input_later_item_wins() {
    let r = parse_kv(&items(&["day=Mon", "day=Tue"])).unwrap();
    assert_eq!(value(&r, "day"), Some("Tue".to_string()));
    assert_eq!(r.len(), 4);
}

#[test]
fn parse_input_empty_gives_all_empty() {
    let r = parse_kv(&[]).unwrap();
    assert_eq!(format_record(&r), "day=|condition=|high=|low=");
}

#[test]
fn encode_writes_fields_in_order() {
    let r = parse_kv(&items(&["low=3", "day=Mon", "high=12", "condition=Rain"])).unwrap();
    assert_eq!(format_record(&r), "day=Mon|condition=Rain|high=12|low=3");
}

#[test]
fn encode_drops_extra_fields() {
    let r = parse_line("extra=1|day=Mon").unwrap();
    assert_eq!(format_record(&r), "day=Mon|condition=|high=|low=");
}

#[test]
fn round_trip_through_line() {
    let r = parse_kv(&items(&["day=Mon", "high=20", "condition=a=b"])).unwrap();
    let line = format_record(&r);
    let back = parse_line(&line).unwrap();
    assert_eq!(back.len(), 4);
    for k in ["day", "condition", "high", "low"] {
        assert_eq!(value(&back, k), value(&r, k));
    }
}

#[test]
fn decode_ignores_trailing_separator() {
    let r = parse_line("day=Mon|condition=Sunny|").unwrap();
    assert_eq!(r.len(), 2);
    assert_eq!(value(&r, "day"), Some("Mon".to_string()));
    assert_eq!(value(&r, "condition"), Some("Sunny".to_string()));
}

#[test]
fn decode_skips_empty_segments() {
    let r = parse_line("|day=Mon||high=4").unwrap();
    assert_eq!(r.len(), 2);
    assert_eq!(value(&r, "high"), Some("4".to_string()));
    assert_eq!(parse_line("").unwrap().len(), 0);
}

#[test]
fn decode_accepts_any_key() {
    let r = parse_line("wind=5").unwrap();
    assert_eq!(value(&r, "wind"), Some("5".to_string()));
    assert_eq!(value(&r, "day"), None);
}

#[test]
fn decode_rejects_segment_without_equals() {
    let e = parse_line("day=Mon|oops|high=3").unwrap_err();
    assert_eq!(e, Error::MalformedSegment("oops".to_string()));
    assert_eq!(e.message(), "bad part: oops");
}

#[test]
fn field_names_in_order() {
    let names: Vec<&str> = (0..4).map(weather_log::field_name).collect();
    assert_eq!(names, vec!["day", "condition", "high", "low"]);
    assert!(weather_log::is_field_name("low"));
    assert!(!weather_log::is_field_name("lows"));
}
