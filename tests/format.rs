use mqttui::format::{format_payload, payload_as_json, payload_as_utf8, EMPTY_PAYLOAD};

#[test]
fn json_object_is_pretty_printed_in_key_order() {
    let out = format_payload(b"{\"b\":1,\"a\":[true,null]}");
    assert_eq!(out, "{\n  \"b\": 1,\n  \"a\": [\n    true,\n    null\n  ]\n}");
}

#[test]
fn plain_text_renders_as_itself() {
    assert_eq!(format_payload(b"hello world"), "hello world");
}

#[test]
fn invalid_utf8_gets_replacement_characters() {
    let out = format_payload(&[0x66, 0xff, 0x6f]);
    assert_eq!(out, "f\u{fffd}o");
    assert!(!out.is_empty());
}

#[test]
fn empty_payload_shows_placeholder() {
    assert_eq!(format_payload(&[]), EMPTY_PAYLOAD);
    assert!(!format_payload(&[]).is_empty());
    assert!(payload_as_json(&[]).is_none());
    assert_eq!(payload_as_utf8(&[]), "");
}

#[test]
fn payload_as_utf8_replaces_invalid_bytes() {
    assert_eq!(payload_as_utf8(&[0xc3, 0xa4]), "ä");
    assert_eq!(payload_as_utf8(&[0xc3]), "\u{fffd}");
}

#[test]
fn payload_as_json_needs_valid_json() {
    assert!(payload_as_json(b"[1, 2]").is_some());
    assert!(payload_as_json(b"not json").is_none());
    assert!(payload_as_json(&[0xff]).is_none());
}
