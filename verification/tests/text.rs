use flowstation::number::{decimal_text, lower_hex_text, upper_hex_text};
use flowstation::text::{in_callsign, is_control, is_whitespace, trim, CharClass};

#[test]
fn classes_agree_with_unicode() {
    for n in 0..0x11_0000u32 {
        if let Some(c) = char::from_u32(n) {
            assert_eq!(is_whitespace(c), c.is_whitespace());
            assert_eq!(is_control(c), c.is_control());
            assert_eq!(in_callsign(c), c.is_ascii_alphanumeric() || c == '-' || c == '/');
        }
    }
}

#[test]
fn class_members() {
    assert!(CharClass::Whitespace.contains(' '));
    assert!(!CharClass::Word.contains(' '));
    assert!(CharClass::NotCallsign.contains('.'));
    assert!(CharClass::LineEnding.contains('\r'));
    assert!(!CharClass::LineEnding.contains(' '));
}

#[test]
fn trimming() {
    for s in ["", " ", "a", " a", "a ", "\u{3000}a b\u{2029}", "\u{200b}a", "ä\u{1680}"] {
        assert_eq!(trim(s), s.trim());
        assert_eq!(trim(trim(s)), trim(s));
    }
}

#[test]
fn decimal_numbers() {
    for n in [0, 9, 10, 99, 100, 1004, 65535, u64::MAX] {
        assert_eq!(decimal_text(n), n.to_string());
        assert_eq!(decimal_text(n).parse::<u64>().unwrap(), n);
    }
}

#[test]
fn hexadecimal_numbers() {
    for b in 0..=255u8 {
        assert_eq!(upper_hex_text(b), format!("{b:02X}"));
        assert_eq!(u8::from_str_radix(&upper_hex_text(b), 16).unwrap(), b);
        assert_eq!(lower_hex_text(&[b]), format!("{b:02x}"));
    }
    assert_eq!(lower_hex_text(&[]), "");
    assert_eq!(lower_hex_text(&[0xca, 0xfe, 0x09]), "cafe09");
}
