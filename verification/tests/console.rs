use ease_proc::console::{emit_console_line, LineBuffer};
use ease_proc::monitor::{MonitorTarget, MonitorTargetType, CONSOLE_CAPACITY};

fn target() -> MonitorTarget {
    MonitorTarget::new(1, MonitorTargetType::LocalHost, "x".to_string(), true).unwrap()
}

#[test]
fn complete_lines_come_out() {
    let mut buffer = LineBuffer::new();
    assert!(buffer.feed(&b"abc".to_vec()).is_empty());
    assert_eq!(buffer.feed(&b"d\nef\n\ng".to_vec()), vec![
        b"abcd\n".to_vec(),
        b"ef\n".to_vec(),
        b"\n".to_vec(),
    ]);
    assert_eq!(buffer.pending, b"g".to_vec());
    assert_eq!(buffer.flush(), Some(b"g".to_vec()));
    assert_eq!(buffer.flush(), None);
    assert!(buffer.feed(&Vec::new()).is_empty());
}

#[test]
fn nothing_is_lost_however_the_output_is_cut() {
    let text = b"one\ntwo\r\n\n\nthree four\nrest".to_vec();
    let mut whole = LineBuffer::new();
    let expected = whole.feed(&text);
    for size in 1..=text.len() {
        let mut buffer = LineBuffer::new();
        let mut lines: Vec<Vec<u8>> = Vec::new();
        for chunk in text.chunks(size) {
            lines.extend(buffer.feed(&chunk.to_vec()));
        }
        assert_eq!(lines, expected);
        assert_eq!(buffer.pending, whole.pending);
        let mut all: Vec<u8> = lines.concat();
        all.extend(buffer.flush().unwrap());
        assert_eq!(all, text);
    }
}

#[test]
fn valid_utf8_is_taken_as_it_is() {
    let mut t = target();
    let msg = emit_console_line(&mut t, &"中文 €\n".as_bytes().to_vec(), "12:00".to_string());
    assert_eq!(msg.msg, "中文 €\n");
    assert_eq!(msg.time, "12:00");
    assert_eq!(t.console_outputs.len(), 1);
    assert_eq!(t.console_outputs[0].msg, "中文 €\n");
    assert_eq!(t.console_outputs[0].time, "12:00");
}

#[test]
fn other_output_is_taken_for_gbk() {
    let mut t = target();
    let bytes = vec![0xD6, 0xD0, 0xCE, 0xC4, b'\n'];
    let msg = emit_console_line(&mut t, &bytes, "t".to_string());
    assert_eq!(msg.msg, "中文\n");
    let bytes = vec![b'a', 0xFF];
    let msg = emit_console_line(&mut t, &bytes, "t".to_string());
    assert_eq!(msg.msg, encoding_rs::GBK.decode(&bytes).0.to_string());
    assert_ne!(msg.msg, "a");
}

#[test]
fn only_the_latest_messages_are_kept() {
    let mut t = target();
    for i in 0..CONSOLE_CAPACITY + 5 {
        emit_console_line(&mut t, &i.to_string().into_bytes(), "t".to_string());
    }
    assert_eq!(t.console_outputs.len(), CONSOLE_CAPACITY);
    assert_eq!(t.console_outputs[0].msg, "5");
    assert_eq!(t.console_outputs[CONSOLE_CAPACITY - 1].msg, (CONSOLE_CAPACITY + 4).to_string());
}
