use wotwrh_stringify::text::{equals_marker, starts_with_at, whitespace_width_at, whitespace_width_before};

#[test]
fn white_space_is_what_char_says() {
    let mut buffer = [0u8; 4];
    let mut seen = 0;
    for code in 0u32..=0x10FFFF {
        if let Some(c) = char::from_u32(code) {
            let bytes = c.encode_utf8(&mut buffer).as_bytes();
            let width = if c.is_whitespace() { bytes.len() } else { 0 };
            assert_eq!(whitespace_width_at(bytes, 0), width, "U+{:04X}", code);
            assert_eq!(whitespace_width_before(bytes, bytes.len()), width, "U+{:04X}", code);
            if width > 0 {
                seen += 1;
            }
        }
    }
    assert_eq!(seen, 25);
}

#[test]
fn white_space_is_measured_in_place() {
    let text = "a \u{3000}b\u{a0}".as_bytes();
    assert_eq!(whitespace_width_at(text, 0), 0);
    assert_eq!(whitespace_width_at(text, 1), 1);
    assert_eq!(whitespace_width_at(text, 2), 3);
    assert_eq!(whitespace_width_at(text, 5), 0);
    assert_eq!(whitespace_width_at(text, 6), 2);
    assert_eq!(whitespace_width_at(text, 8), 0);
    assert_eq!(whitespace_width_at(text, 9), 0);
    assert_eq!(whitespace_width_before(text, 0), 0);
    assert_eq!(whitespace_width_before(text, 1), 0);
    assert_eq!(whitespace_width_before(text, 2), 1);
    assert_eq!(whitespace_width_before(text, 5), 3);
    assert_eq!(whitespace_width_before(text, 8), 2);
    assert_eq!(whitespace_width_before(text, 9), 0);
}

#[test]
fn white_space_cut_short_is_none() {
    assert_eq!(whitespace_width_at(&[0xE3, 0x80], 0), 0);
    assert_eq!(whitespace_width_at(&[0xC2], 0), 0);
    assert_eq!(whitespace_width_before(&[0x80, 0x80], 2), 0);
}

#[test]
fn marker_is_found_where_it_stands() {
    assert!(starts_with_at(b"a|b|6|x", 4, "6|"));
    assert!(!starts_with_at(b"a|b|6|x", 3, "6|"));
    assert!(!starts_with_at(b"a|b|6", 4, "6|"));
    assert!(!starts_with_at(b"6|", 3, "6|"));
    assert!(starts_with_at(b"abc", 3, ""));
    assert!(equals_marker(b"mute", "mute"));
    assert!(!equals_marker(b"muted", "mute"));
    assert!(!equals_marker(b"mut", "mute"));
}
