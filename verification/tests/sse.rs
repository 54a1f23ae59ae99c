use weir::provider::sse::data_payloads;

#[test]
fn data_lines_are_read_in_order() {
    let chunk = b"event: a\ndata: first\n\nevent: b\ndata: second\n\n";
    assert_eq!(data_payloads(chunk), vec!["first", "second"]);
}

#[test]
fn lines_may_end_with_a_carriage_return() {
    assert_eq!(data_payloads(b"data: first\r\ndata: second\r\n"), vec!["first", "second"]);
    // Only before a line feed does a carriage return end a line.
    assert_eq!(data_payloads(b"data: a\rb\n"), vec!["a\rb"]);
    assert_eq!(data_payloads(b"data: a\r"), vec!["a\r"]);
    assert_eq!(data_payloads(b"data: a\r\r\n"), vec!["a\r"]);
}

#[test]
fn the_last_line_needs_no_end() {
    assert_eq!(data_payloads(b"data: first\ndata: second"), vec!["first", "second"]);
    assert_eq!(data_payloads(b"data: "), vec![""]);
}

#[test]
fn other_lines_hold_nothing() {
    assert!(data_payloads(b"").is_empty());
    assert!(data_payloads(b"\n\n\r\n").is_empty());
    assert!(data_payloads(b"data:none\n data: none\nDATA: none\ndata\nid: 1\n").is_empty());
    assert_eq!(data_payloads(b"data: data: \n"), vec!["data: "]);
}

#[test]
fn what_is_not_utf8_is_replaced() {
    assert_eq!(data_payloads("data: h\u{e9}llo \u{4f60}\n".as_bytes()), vec!["h\u{e9}llo \u{4f60}"]);
    assert_eq!(data_payloads(b"data: a\xffb\n"), vec!["a\u{fffd}b"]);
}

#[test]
fn cutting_between_lines_reads_the_same() {
    let whole = b"event: a\r\ndata: first\n\ndata: second\nretry: 1\ndata: third";
    let expected = data_payloads(whole);
    assert_eq!(expected, vec!["first", "second", "third"]);
    for cut in 0..whole.len() {
        if cut == 0 || whole[cut - 1] == b'\n' {
            let mut parts = data_payloads(&whole[..cut]);
            parts.extend(data_payloads(&whole[cut..]));
            assert_eq!(parts, expected);
        }
    }
}

#[test]
fn a_framed_payload_comes_back() {
    for payload in ["", "{}", "data: ", "two words", "tail\r."] {
        assert_eq!(data_payloads(format!("data: {payload}\n\n").as_bytes()), vec![payload]);
    }
}
