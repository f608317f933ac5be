use weather_log::{numeric_field, parse_int, parse_line, summarize, summary, Record};

fn with_high(v: &str) -> Record {
    parse_line(&format!("day=Mon|high={v}")).unwrap()
}

#[test]
fn summary_skips_non_numeric_values() {
    let rs: Vec<Record> = ["10", "", "abc", "5"].iter().map(|v| with_high(v)).collect();
    assert_eq!(summary(&rs), "count=4, high_total=15");
}

#[test]
fn summary_of_no_records() {
    assert_eq!(summary(&[]), "count=0, high_total=0");
}

#[test]
fn summary_missing_field_adds_zero() {
    let rs = vec![parse_line("day=Mon").unwrap(), with_high("-7")];
    assert_eq!(summary(&rs), "count=2, high_total=-7");
}

#[test]
fn summary_total_beyond_i64() {
    let rs = vec![with_high("9223372036854775807"), with_high("9223372036854775807")];
    assert_eq!(summary(&rs), "count=2, high_total=18446744073709551614");
}

#[test]
fn summarize_without_field() {
    let rs = vec![with_high("3"), with_high("4"), with_high("5")];
    assert_eq!(summarize(&rs, None), "count=3");
    assert_eq!(summarize(&rs, Some("day")), "count=3, day_total=0");
}

#[test]
fn numeric_field_is_high() {
    assert_eq!(numeric_field(), Some("high".to_string()));
}

#[test]
fn parse_int_follows_std() {
    for s in ["0", "42", "+5", "-5", "007", "-9223372036854775808", "9223372036854775807", "", "-", "+", "1a", " 1", "9223372036854775808", "-9223372036854775809", "١"] {
        assert_eq!(parse_int(s), s.parse::<i64>().ok(), "input {s:?}");
    }
    assert_eq!(parse_int("-12"), Some(-12));
}
