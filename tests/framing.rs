use lspcomplete::editing::{
    classify_char, leading_indent_width, next_word_boundary, previous_word_boundary,
};
use lspcomplete::framing::{frame_message, read_message, scan_frame, FrameScan, ReadOutcome};
use lspcomplete::text::{is_word_char, line_len_chars, same_text};

#[test]
fn frame_has_length_header() {
    assert_eq!(frame_message(b"{}"), b"Content-Length: 2\r\n\r\n{}".to_vec());
    let body = vec![b'x'; 1234];
    let framed = frame_message(&body);
    assert!(framed.starts_with(b"Content-Length: 1234\r\n\r\n"));
    assert_eq!(framed.len(), 24 + 1234);
    assert_eq!(frame_message(b""), b"Content-Length: 0\r\n\r\n".to_vec());
}

#[test]
fn scan_finds_whole_frame() {
    let framed = frame_message(b"{\"id\":1}");
    assert_eq!(scan_frame(&framed), FrameScan::Complete { body_start: 21, body_end: 29 });
    let mut two = framed.clone();
    two.extend_from_slice(b"Content-Length: 1");
    assert_eq!(scan_frame(&two), FrameScan::Complete { body_start: 21, body_end: 29 });
}

#[test]
fn scan_waits_for_more_bytes() {
    let framed = frame_message(b"{\"id\":1}");
    assert_eq!(scan_frame(&framed[..framed.len() - 1]), FrameScan::Incomplete);
    assert_eq!(scan_frame(b"Content-Length: 5\r\n"), FrameScan::Incomplete);
    assert_eq!(scan_frame(b""), FrameScan::Incomplete);
}

#[test]
fn scan_reports_missing_length() {
    assert_eq!(scan_frame(b"Foo: 1\r\n\r\n{}"), FrameScan::MissingLength { consumed: 10 });
    assert_eq!(scan_frame(b"Content-Length: x\r\n\r\n"), FrameScan::MissingLength { consumed: 21 });
    assert_eq!(
        scan_frame(b"Content-Length: 99999999999999999999999\r\n\r\n"),
        FrameScan::MissingLength { consumed: 43 }
    );
}

#[test]
fn scan_reads_other_headers_and_spacing() {
    let msg = b"Content-Type: x\r\nContent-Length:  +3 \r\n\r\nabcdef";
    assert_eq!(scan_frame(msg), FrameScan::Complete { body_start: 41, body_end: 44 });
    let last_wins = b"Content-Length: 1\r\nContent-Length: 2\r\n\r\nab";
    assert_eq!(scan_frame(last_wins), FrameScan::Complete { body_start: 40, body_end: 42 });
}

#[test]
fn read_message_parses_json_body() {
    let framed = frame_message(br#"{"jsonrpc":"2.0","id":7,"result":null}"#);
    match read_message(&framed) {
        ReadOutcome::Message { value, consumed } => {
            assert_eq!(consumed, framed.len());
            assert_eq!(value.get("id").and_then(|v| v.as_i64()), Some(7));
        }
        other => panic!("unexpected {:?}", other),
    }
}

#[test]
fn read_message_flags_malformed_and_missing() {
    let framed = frame_message(b"{not json");
    assert!(matches!(read_message(&framed), ReadOutcome::Malformed { consumed } if consumed == framed.len()));
    assert!(matches!(read_message(b"X: 1\r\n\r\n"), ReadOutcome::MissingLength { consumed: 8 }));
    assert!(matches!(read_message(b"Content-"), ReadOutcome::Incomplete));
}

#[test]
fn word_boundaries() {
    let line = "let foo_bar = x.y;";
    assert_eq!(previous_word_boundary(line, 11), 4);
    assert_eq!(previous_word_boundary(line, 13), 12);
    assert_eq!(previous_word_boundary(line, 99), 17);
    assert_eq!(previous_word_boundary("   ", 3), 0);
    assert_eq!(next_word_boundary(line, 4), 11);
    assert_eq!(next_word_boundary(line, 11), 13);
    assert_eq!(next_word_boundary(line, 17), 18);
    assert_eq!(next_word_boundary("ab  ", 2), 4);
}

#[test]
fn char_classes() {
    assert_eq!(classify_char(' '), 0);
    assert_eq!(classify_char('\u{3000}'), 0);
    assert_eq!(classify_char('a'), 1);
    assert_eq!(classify_char('_'), 1);
    assert_eq!(classify_char('ß'), 1);
    assert_eq!(classify_char('.'), 2);
    assert!(is_word_char('7'));
    assert!(!is_word_char('-'));
}

#[test]
fn indent_widths() {
    assert_eq!(leading_indent_width("    x"), 4);
    assert_eq!(leading_indent_width("      x"), 4);
    assert_eq!(leading_indent_width("  x"), 2);
    assert_eq!(leading_indent_width("\tx"), 1);
    assert_eq!(leading_indent_width("  \tx"), 2);
    assert_eq!(leading_indent_width("x"), 0);
    assert_eq!(leading_indent_width(""), 0);
}

#[test]
fn text_helpers() {
    assert_eq!(line_len_chars("héllo"), 5);
    assert!(same_text("abc", "abc"));
    assert!(!same_text("abc", "abd"));
    assert!(!same_text("abc", "ab"));
}
