use agent_bridge::frame::FrameAssembler;

fn feed_all(fa: &mut FrameAssembler, data: &[u8]) -> (Vec<String>, bool) {
    fa.feed(data)
}

#[test]
fn whole_buffer_yields_lines_in_order() {
    let mut fa = FrameAssembler::new(1024);
    let (lines, overflow) = feed_all(&mut fa, b"alpha\nbeta\ngamma\n");
    assert!(!overflow);
    assert_eq!(lines, vec!["alpha".to_string(), "beta".to_string(), "gamma".to_string()]);
    assert_eq!(fa.buffered_len(), 0);
}

#[test]
fn framing_deterministic_under_chunking() {
    let data: &[u8] = b"alpha\nbeta\ngamma\ndelta epsilon\n";
    let mut whole = FrameAssembler::new(1024);
    let (expected, _) = whole.feed(data);
    for split in 1..data.len() {
        let mut fa = FrameAssembler::new(1024);
        let (mut a, o1) = fa.feed(&data[..split]);
        let (b, o2) = fa.feed(&data[split..]);
        assert!(!o1 && !o2);
        a.extend(b);
        assert_eq!(a, expected);
        assert_eq!(fa.buffered_len(), 0);
    }
}

#[test]
fn byte_by_byte_chunking() {
    let data: &[u8] = b"one\ntwo\n";
    let mut fa = FrameAssembler::new(64);
    let mut got: Vec<String> = Vec::new();
    for i in 0..data.len() {
        let (lines, overflow) = fa.feed(&data[i..i + 1]);
        assert!(!overflow);
        got.extend(lines);
    }
    assert_eq!(got, vec!["one".to_string(), "two".to_string()]);
}

#[test]
fn partial_line_stays_buffered() {
    let mut fa = FrameAssembler::new(1024);
    let (lines, _) = fa.feed(b"par");
    assert!(lines.is_empty());
    assert_eq!(fa.buffered_len(), 3);
    let (lines, _) = fa.feed(b"tial\nrest");
    assert_eq!(lines, vec!["partial".to_string()]);
    assert_eq!(fa.buffered_len(), 4);
}

#[test]
fn empty_lines_are_dropped() {
    let mut fa = FrameAssembler::new(1024);
    let (lines, _) = fa.feed(b"\n\n  \n\t\na\n");
    assert_eq!(lines, vec!["a".to_string()]);
}

#[test]
fn trailing_whitespace_is_trimmed() {
    let mut fa = FrameAssembler::new(1024);
    let (lines, _) = fa.feed(b"hello \t\r\n  leading kept\n");
    assert_eq!(lines, vec!["hello".to_string(), "  leading kept".to_string()]);
}

#[test]
fn invalid_utf8_line_is_dropped_stream_continues() {
    let mut fa = FrameAssembler::new(1024);
    let (lines, overflow) = fa.feed(b"ok\n\xff\xfe\nafter\n");
    assert!(!overflow);
    assert_eq!(lines, vec!["ok".to_string(), "after".to_string()]);
}

#[test]
fn overflow_clears_buffer_and_emits_nothing() {
    let mut fa = FrameAssembler::new(8);
    let (lines, overflow) = fa.feed(b"12345678");
    assert!(lines.is_empty());
    assert!(!overflow);
    assert_eq!(fa.buffered_len(), 8);
    let (lines, overflow) = fa.feed(b"9");
    assert!(lines.is_empty());
    assert!(overflow);
    assert_eq!(fa.buffered_len(), 0);
    let (lines, overflow) = fa.feed(b"fresh\n");
    assert!(!overflow);
    assert_eq!(lines, vec!["fresh".to_string()]);
}

#[test]
fn overflow_only_without_terminator() {
    let mut fa = FrameAssembler::new(8);
    let (lines, overflow) = fa.feed(b"123456789012\nabc");
    assert!(!overflow);
    assert_eq!(lines, vec!["123456789012".to_string()]);
    assert_eq!(fa.buffered_len(), 3);
}
