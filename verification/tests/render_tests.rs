use ws_monitor::render::render;

#[test]
fn zero_counts_render_both_samples() {
    let (body, _) = render(b"wss://example.org", 0, 0);
    let expected = "# HELP check_count Number of connection check results\n\
                    # TYPE check_count counter\n\
                    check_count{endpoint=\"wss://example.org\",result=\"SUCCESS\"} 0\n\
                    check_count{endpoint=\"wss://example.org\",result=\"TIMEOUT\"} 0\n";
    assert_eq!(body.as_slice(), expected.as_bytes());
}

#[test]
fn first_success_renders_one_and_zero() {
    let (body, _) = render(b"wss://X", 1, 0);
    let text = String::from_utf8(body).unwrap();
    assert!(text.contains("check_count{endpoint=\"wss://X\",result=\"SUCCESS\"} 1\n"));
    assert!(text.contains("check_count{endpoint=\"wss://X\",result=\"TIMEOUT\"} 0\n"));
}

#[test]
fn rendering_twice_is_byte_identical() {
    let endpoint = b"wss://node.example/rpc";
    let first = render(endpoint, 41, 7);
    let second = render(endpoint, 41, 7);
    assert_eq!(first.0, second.0);
    assert_eq!(first.1, second.1);
}

#[test]
fn content_type_is_the_exposition_format() {
    let (_, content_type) = render(b"wss://example.org", 3, 4);
    assert_eq!(content_type, "text/plain; version=0.0.4");
}

#[test]
fn label_escapes_quote_backslash_and_newline() {
    let (body, _) = render(b"a\"b\\c\nd", 2, 5);
    let text = String::from_utf8(body).unwrap();
    assert!(text.contains("check_count{endpoint=\"a\\\"b\\\\c\\nd\",result=\"SUCCESS\"} 2\n"));
    assert!(text.contains("check_count{endpoint=\"a\\\"b\\\\c\\nd\",result=\"TIMEOUT\"} 5\n"));
}

#[test]
fn large_values_render_in_full() {
    let (body, _) = render(b"wss://example.org", u64::MAX, 1000000007);
    let text = String::from_utf8(body).unwrap();
    assert!(text.contains("result=\"SUCCESS\"} 18446744073709551615\n"));
    assert!(text.contains("result=\"TIMEOUT\"} 1000000007\n"));
}

#[test]
fn multi_digit_values_render_exactly() {
    let (body, _) = render(b"e", 10, 205);
    let expected = "# HELP check_count Number of connection check results\n\
                    # TYPE check_count counter\n\
                    check_count{endpoint=\"e\",result=\"SUCCESS\"} 10\n\
                    check_count{endpoint=\"e\",result=\"TIMEOUT\"} 205\n";
    assert_eq!(body.as_slice(), expected.as_bytes());
}
