use weather_log::{load_all, parse_kv, record_line, store_path, Error, Record};

fn record(xs: &[&str]) -> Record {
    let items: Vec<String> = xs.iter().map(|s| s.to_string()).collect();
    parse_kv(&items).unwrap()
}

fn day_of(r: &Record) -> String {
    r.get("day").cloned().unwrap()
}

#[test]
fn missing_store_loads_empty() {
    let rs = load_all(None).unwrap();
    assert!(rs.is_empty());
}

#[test]
fn initialized_store_loads_empty() {
    assert!(load_all(Some("")).unwrap().is_empty());
}

#[test]
fn appended_records_keep_order() {
    let mut text = String::new();
    for d in ["Mon", "Tue", "Wed"] {
        let day = format!("day={d}");
        text.push_str(&record_line(&record(&[day.as_str(), "high=1"])));
    }
    let rs = load_all(Some(&text)).unwrap();
    let days: Vec<String> = rs.iter().map(day_of).collect();
    assert_eq!(days, vec!["Mon", "Tue", "Wed"]);
}

#[test]
fn record_line_ends_with_newline() {
    let r = record(&["day=Mon"]);
    assert_eq!(record_line(&r), "day=Mon|condition=|high=|low=\n");
}

#[test]
fn load_skips_blank_lines_and_crlf() {
    let text = "day=Mon|high=1\r\n\n   \r\nday=Tue|high=2\n";
    let rs = load_all(Some(text)).unwrap();
    assert_eq!(rs.len(), 2);
    assert_eq!(rs[0].get("high").cloned(), Some("1".to_string()));
    assert_eq!(day_of(&rs[1]), "Tue");
}

#[test]
fn load_without_final_newline() {
    let rs = load_all(Some("day=Mon\nday=Tue")).unwrap();
    assert_eq!(rs.len(), 2);
}

#[test]
fn load_aborts_on_malformed_line() {
    let e = load_all(Some("day=Mon\nnonsense\nday=Tue\n")).unwrap_err();
    assert_eq!(e, Error::MalformedSegment("nonsense".to_string()));
}

#[test]
fn store_path_is_fixed() {
    assert_eq!(store_path(), "data/store.txt");
}
