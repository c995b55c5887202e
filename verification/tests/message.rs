use flowstation::message::{
    parse_rwth_fields, parse_rwth_message, rwth_line_id, rwth_message, stable_hash_hex,
};
use flowstation::paging::{
    dapnet_version, extract_callsign, format_plain_message, non_empty_or, normalize_text,
    prefixed_text, sanitize_log_line, truncate_chars,
};

#[test]
fn parse_rwth_text_message_normalizes_fields() {
    let msg = parse_rwth_message("#00 6:1:3EC:3:5357.0 EA5FIV von DL4MFF um 1933z").unwrap();
    assert_eq!(msg.msg_type, 6);
    assert_eq!(msg.speed, Some(1));
    assert_eq!(msg.ric, Some(0x3EC));
    assert_eq!(msg.function, Some(3));
    assert_eq!(msg.callsign, "EA5FIV");
    assert_eq!(msg.recipient, "RIC 1004 / func 3");
    assert!(msg.id.starts_with("rwth:00:"));
}

#[test]
fn parse_rwth_message_keeps_colons_in_text() {
    let msg = parse_rwth_message("#01 6:1:3EC:3:Alarm: Pumpe: Test").unwrap();
    assert_eq!(msg.text, "Alarm: Pumpe: Test");
}

#[test]
fn helpers_are_stable() {
    assert_eq!(dapnet_version("1.0"), "v1.0");
    assert_eq!(dapnet_version("v2"), "v2");
    assert_eq!(extract_callsign("foo dl1abc-9 bar"), Some("DL1ABC-9".to_string()));
    assert_eq!(format_plain_message("DL1ABC", "Hallo"), "DL1ABC - Hallo");
    assert_eq!(prefixed_text("DAPNET", "Alarm"), "DAPNET Alarm");
    assert_eq!(truncate_chars("äöü", 2), ("äö".to_string(), true));
}

#[test]
fn message_id_holds_line_id_and_digest() {
    let msg = parse_rwth_message("#0a 6:1:3EC:3:5357.0 EA5FIV von DL4MFF um 1933z").unwrap();
    assert_eq!(msg.id, "rwth:0A:37fd52865ef869bfd4d4538b214a4b8c");
    assert_eq!(msg.priority, None);
    assert!(msg.timestamp.ends_with("+00:00"));
    assert!(msg.timestamp.contains('T'));
}

#[test]
fn hash_is_md5_in_hexadecimal() {
    assert_eq!(stable_hash_hex(""), "d41d8cd98f00b204e9800998ecf8427e");
    assert_eq!(stable_hash_hex("abc"), "900150983cd24fb0d6963f7d28e17f72");
    assert_eq!(stable_hash_hex("größe"), "fdbb3a56280acfa9031707622c599ccb");
}

#[test]
fn same_line_has_same_id() {
    let line = "#7F 6:1:3EC:3:Test";
    let a = parse_rwth_message(line).unwrap();
    let b = parse_rwth_message(line).unwrap();
    assert_eq!(a.id, b.id);
    let c = parse_rwth_message("#7E 6:1:3EC:3:Test").unwrap();
    assert_ne!(a.id, c.id);
}

#[test]
fn message_is_made_of_fields_hash_and_time() {
    let fields = parse_rwth_fields("#FF 5:x:zz:+7: hi\u{7}\t there ").unwrap();
    assert_eq!(fields.msg_id, 255);
    assert_eq!(fields.body, "5:x:zz:+7: hi\u{7}\t there ");
    assert_eq!(fields.msg_type, 5);
    assert_eq!(fields.speed, None);
    assert_eq!(fields.ric, None);
    assert_eq!(fields.function, Some(7));
    assert_eq!(fields.text, "hi\t there");
    assert_eq!(fields.recipient, "zz");
    assert_eq!(fields.callsign, "zz");
    let msg = rwth_message(fields, "cafe", "now".to_string());
    assert_eq!(msg.id, "rwth:FF:cafe");
    assert_eq!(msg.timestamp, "now");
}

#[test]
fn recipient_without_function() {
    let fields = parse_rwth_fields("#00 6:1:ffffffff::x").unwrap();
    assert_eq!(fields.recipient, "RIC 4294967295");
    assert_eq!(fields.function, None);
    let fields = parse_rwth_fields("#00 6:1:100000000:3:x").unwrap();
    assert_eq!(fields.ric, None);
    assert_eq!(fields.recipient, "100000000");
}

#[test]
fn each_parse_error() {
    let err = |line: &str| parse_rwth_message(line).unwrap_err();
    assert_eq!(err(""), "invalid message id");
    assert_eq!(err("#G0 6:1:3EC:3:x"), "invalid message id");
    assert_eq!(err("#00"), "message line too short");
    assert_eq!(err("#00ä6:1:3EC:3:x"), "message line too short");
    assert_eq!(err("#00 6:1:3EC:3"), "expected five colon-separated fields");
    assert_eq!(err("#00 "), "expected five colon-separated fields");
    assert_eq!(err("#00 256:1:3EC:3:x"), "invalid message type '256'");
    assert_eq!(err("#00 :1:3EC:3:x"), "invalid message type ''");
    assert_eq!(err("#00 6:1:3EC:3: \u{1} "), "empty message text");
}

#[test]
fn line_id_is_taken_by_bytes() {
    assert_eq!(rwth_line_id("#3F rest"), Some(0x3f));
    assert_eq!(rwth_line_id("#+F rest"), Some(0xf));
    assert_eq!(rwth_line_id("#-F rest"), None);
    assert_eq!(rwth_line_id("#ä rest"), None);
    assert_eq!(rwth_line_id("ä3F"), None);
    assert_eq!(rwth_line_id("#3ä"), None);
    for line in ["", "#", "#1", "#12", "#1ä", "ää", "€12", "𝄞12", "x00y", "x+0", "x++", "x0+"] {
        let expected = line.get(1..3).and_then(|id| u8::from_str_radix(id, 16).ok());
        assert_eq!(rwth_line_id(line), expected);
    }
}

#[test]
fn normalizing_is_idempotent_and_clean() {
    let text = "\u{a0}\r\n a\u{0}b\tc\u{85}d \u{2003}";
    let once = normalize_text(text);
    assert_eq!(once, "ab\tcd");
    assert_eq!(normalize_text(&once), once);
}

#[test]
fn callsigns() {
    assert_eq!(extract_callsign("(dl1abc)"), Some("DL1ABC".to_string()));
    assert_eq!(extract_callsign("de OE/dl1abc/p, 73"), Some("OE/DL1ABC/P".to_string()));
    assert_eq!(extract_callsign("a1 12345 abcdef"), None);
    assert_eq!(extract_callsign("a1b"), Some("A1B".to_string()));
    assert_eq!(extract_callsign("a23456789012"), Some("A23456789012".to_string()));
    assert_eq!(extract_callsign("a234567890123"), None);
    assert_eq!(extract_callsign("d1äbc x9y"), Some("X9Y".to_string()));
    assert_eq!(extract_callsign(""), None);
    let found = extract_callsign("von dl4mff um").unwrap();
    assert_eq!(extract_callsign(&found), Some(found.clone()));
}

#[test]
fn versions_and_fallbacks() {
    assert_eq!(dapnet_version("  "), "v1.0");
    assert_eq!(dapnet_version(" V3 "), "V3");
    assert_eq!(dapnet_version(&dapnet_version("9")), "v9");
    assert_eq!(non_empty_or("  x ", "y"), "x");
    assert_eq!(non_empty_or(" \t", " y "), " y ");
}

#[test]
fn messages_with_empty_parts() {
    assert_eq!(format_plain_message(" ", " hi "), "hi");
    assert_eq!(format_plain_message("a", ""), "a - ");
    assert_eq!(prefixed_text(" ", " hi "), "hi");
    assert_eq!(prefixed_text(" p ", "  "), "p");
    assert_eq!(prefixed_text(" p ", " hi "), "p hi");
}

#[test]
fn truncation() {
    assert_eq!(truncate_chars("abc", 3), ("abc".to_string(), false));
    assert_eq!(truncate_chars("abc", 0), (String::new(), true));
    assert_eq!(truncate_chars("", 0), (String::new(), false));
    let long = "€".repeat(200);
    assert_eq!(sanitize_log_line(&long), "€".repeat(160));
    assert_eq!(sanitize_log_line("short"), "short");
}
