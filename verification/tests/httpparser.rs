use websocket::httpparser::get_header_value;
use websocket::header_lines_are_well_formed;

#[test]
fn missing_header_is_an_error() {
    assert_eq!(get_header_value("Host: a\r\n", "Upgrade"), Err("Header not found".to_string()));
    assert_eq!(get_header_value("", "Upgrade"), Err("Header not found".to_string()));
}

#[test]
fn last_matching_line_wins() {
    let headers = "X-A: first\r\nX-B: other\r\nX-A: second\r\n";
    assert_eq!(get_header_value(headers, "X-A"), Ok("second".to_string()));
}

#[test]
fn key_is_matched_as_a_prefix_of_the_line() {
    let headers = "X-Alpha: one\nX-Al: two";
    assert_eq!(get_header_value(headers, "X-Al"), Ok("two".to_string()));
    assert_eq!(get_header_value("X-Alpha: one\n", "X-Al"), Ok("one".to_string()));
}

#[test]
fn value_stops_at_the_next_separator() {
    assert_eq!(get_header_value("K: a: b: c\r\n", "K"), Ok("a".to_string()));
    assert_eq!(get_header_value("K: a:b\r\n", "K"), Ok("a:b".to_string()));
    assert_eq!(get_header_value("K: \r\n", "K"), Ok("".to_string()));
}

#[test]
fn carriage_return_before_line_feed_is_dropped() {
    assert_eq!(get_header_value("K: v\r\nL: w", "K"), Ok("v".to_string()));
    // A carriage return not followed by a line feed stays.
    assert_eq!(get_header_value("K: v\r", "K"), Ok("v\r".to_string()));
    assert_eq!(get_header_value("K: v\r\r\n", "K"), Ok("v\r".to_string()));
}

#[test]
fn lines_without_separator_are_refused_only_when_they_match() {
    assert!(header_lines_are_well_formed("GET / HTTP/1.1\r\nK: v\r\n", "K"));
    assert!(!header_lines_are_well_formed("K\r\nK: v\r\n", "K"));
    assert!(!header_lines_are_well_formed("K:v\r\n", "K"));
    assert!(header_lines_are_well_formed("", "K"));
}

#[test]
fn unicode_values_are_kept() {
    assert_eq!(get_header_value("Name: José ✓\r\n", "Name"), Ok("José ✓".to_string()));
}

#[test]
fn appended_line_overrides_earlier_ones() {
    let headers = "K: old\r\nOther: x\r\n".to_string() + "K" + ": " + "new" + "\r\n";
    assert_eq!(get_header_value(&headers, "K"), Ok("new".to_string()));
}
