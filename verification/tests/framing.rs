use pbcat::codec::decode_records;
use pbcat::codec::encode_record;
use pbcat::codec::encode_texts;
use pbcat::codec::input_events;
use pbcat::codec::input_record_event;
use pbcat::codec::split_records;
use pbcat::message::Message;

#[test]
fn encode_one_record_appends_text_and_terminator() {
    let mut out = vec![1u8];
    encode_record("hi", &mut out);
    assert_eq!(out, b"\x01hi\0");
}

#[test]
fn round_trip_hello_world() {
    let texts = vec!["hello".to_string(), "world".to_string()];
    let bytes = encode_texts(&texts);
    assert_eq!(bytes, b"hello\0world\0");
    let decoded = decode_records(&bytes);
    assert_eq!(decoded, vec!["hello".to_string(), "world".to_string()]);
}

#[test]
fn final_unterminated_record_is_kept() {
    let events = input_events(b"abc");
    assert_eq!(
        events,
        vec![Message::ReceivedText { text: "abc".to_string() }, Message::Exit]
    );
}

#[test]
fn empty_input_yields_only_exit() {
    assert_eq!(input_events(b""), vec![Message::Exit]);
}

#[test]
fn trailing_terminator_yields_no_extra_record() {
    assert_eq!(decode_records(b"a\0"), vec!["a".to_string()]);
}

#[test]
fn empty_record_in_the_middle_is_kept() {
    assert_eq!(
        decode_records(b"a\0\0b\0"),
        vec!["a".to_string(), "".to_string(), "b".to_string()]
    );
}

#[test]
fn split_keeps_record_bytes() {
    let records = split_records(b"one\0two");
    assert_eq!(records, vec![b"one".to_vec(), b"two".to_vec()]);
}

#[test]
fn malformed_utf8_is_replaced_not_rejected() {
    let decoded = decode_records(&[0xff, 0x00, b'o', b'k']);
    assert_eq!(decoded, vec!["\u{FFFD}".to_string(), "ok".to_string()]);
}

#[test]
fn record_event_strips_one_trailing_terminator() {
    let m = input_record_event(b"abc\0");
    assert_eq!(m, Message::ReceivedText { text: "abc".to_string() });
}

#[test]
fn record_event_keeps_unterminated_record_whole() {
    let m = input_record_event(b"abc");
    assert_eq!(m, Message::ReceivedText { text: "abc".to_string() });
}

#[test]
fn record_event_empty_read_is_exit() {
    assert_eq!(input_record_event(b""), Message::Exit);
}
