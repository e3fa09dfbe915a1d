use ws_monitor::parse::parse;
use ws_monitor::render::render;

#[test]
fn round_trip_recovers_what_was_rendered() {
    let (body, _) = render(b"wss://X", 12, 34);
    let metrics = parse(&body).unwrap();
    assert_eq!(metrics.family.as_slice(), b"check_count");
    assert_eq!(
        metrics.help.as_slice(),
        b"Number of connection check results".as_slice()
    );
    assert_eq!(metrics.samples.len(), 2);
    let first = &metrics.samples[0];
    assert_eq!(first.labels.len(), 2);
    assert_eq!(first.labels[0].name.as_slice(), b"endpoint");
    assert_eq!(first.labels[0].value.as_slice(), b"wss://X");
    assert_eq!(first.labels[1].name.as_slice(), b"result");
    assert_eq!(first.labels[1].value.as_slice(), b"SUCCESS");
    assert_eq!(first.value, 12);
    let second = &metrics.samples[1];
    assert_eq!(second.labels.len(), 2);
    assert_eq!(second.labels[0].name.as_slice(), b"endpoint");
    assert_eq!(second.labels[0].value.as_slice(), b"wss://X");
    assert_eq!(second.labels[1].name.as_slice(), b"result");
    assert_eq!(second.labels[1].value.as_slice(), b"TIMEOUT");
    assert_eq!(second.value, 34);
}

#[test]
fn round_trip_keeps_zero_samples() {
    let (body, _) = render(b"wss://example.org", 0, 0);
    let metrics = parse(&body).unwrap();
    assert_eq!(metrics.samples.len(), 2);
    assert_eq!(metrics.samples[0].value, 0);
    assert_eq!(metrics.samples[1].value, 0);
}

#[test]
fn round_trip_unescapes_the_label() {
    let label: &[u8] = b"a\"b\\c\nd";
    let (body, _) = render(label, 8, 9);
    let metrics = parse(&body).unwrap();
    assert_eq!(metrics.samples[0].labels[0].value.as_slice(), label);
    assert_eq!(metrics.samples[1].labels[0].value.as_slice(), label);
}

#[test]
fn round_trip_keeps_extreme_values() {
    let (body, _) = render(b"wss://X", u64::MAX, 0);
    let metrics = parse(&body).unwrap();
    assert_eq!(metrics.samples[0].value, u64::MAX);
    assert_eq!(metrics.samples[1].value, 0);
}

#[test]
fn parses_handwritten_exposition_text() {
    let text = "# HELP check_count Number of connection check results\n\
                # TYPE check_count counter\n\
                check_count{endpoint=\"wss://node\",result=\"SUCCESS\"} 7\n\
                check_count{endpoint=\"wss://node\",result=\"TIMEOUT\"} 2\n";
    let metrics = parse(text.as_bytes()).unwrap();
    assert_eq!(metrics.family.as_slice(), b"check_count");
    assert_eq!(metrics.samples[0].value, 7);
    assert_eq!(metrics.samples[1].value, 2);
}

#[test]
fn rejects_a_missing_help_line() {
    let text = "# TYPE check_count counter\n\
                check_count{endpoint=\"e\",result=\"SUCCESS\"} 1\n\
                check_count{endpoint=\"e\",result=\"TIMEOUT\"} 0\n";
    assert!(parse(text.as_bytes()).is_none());
}

#[test]
fn rejects_a_mismatched_family_name() {
    let text = "# HELP check_count Number of connection check results\n\
                # TYPE other_count counter\n\
                check_count{endpoint=\"e\",result=\"SUCCESS\"} 1\n\
                check_count{endpoint=\"e\",result=\"TIMEOUT\"} 0\n";
    assert!(parse(text.as_bytes()).is_none());
}

#[test]
fn rejects_a_truncated_text() {
    let (body, _) = render(b"wss://X", 1, 2);
    let truncated = &body[..body.len() - 1];
    assert!(parse(truncated).is_none());
}

#[test]
fn rejects_trailing_bytes() {
    let (mut body, _) = render(b"wss://X", 1, 2);
    body.push(b'x');
    assert!(parse(&body).is_none());
}

#[test]
fn rejects_a_value_beyond_the_counter_range() {
    let text = "# HELP check_count Number of connection check results\n\
                # TYPE check_count counter\n\
                check_count{endpoint=\"e\",result=\"SUCCESS\"} 18446744073709551616\n\
                check_count{endpoint=\"e\",result=\"TIMEOUT\"} 0\n";
    assert!(parse(text.as_bytes()).is_none());
}

#[test]
fn rejects_a_non_numeric_value() {
    let text = "# HELP check_count Number of connection check results\n\
                # TYPE check_count counter\n\
                check_count{endpoint=\"e\",result=\"SUCCESS\"} x1\n\
                check_count{endpoint=\"e\",result=\"TIMEOUT\"} 0\n";
    assert!(parse(text.as_bytes()).is_none());
}

#[test]
fn rejects_an_unterminated_label_value() {
    let text = "# HELP check_count Number of connection check results\n\
                # TYPE check_count counter\n\
                check_count{endpoint=\"e,result=\"SUCCESS\"} 1\n\
                check_count{endpoint=\"e\",result=\"TIMEOUT\"} 0\n";
    assert!(parse(text.as_bytes()).is_none());
}
