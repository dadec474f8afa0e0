use dictate::text::{decimal_text, ends_with_space, same_text, starts_with, trim, white_space};

#[test]
fn white_space_is_that_of_unicode() {
    for u in 0..=0x10FFFFu32 {
        if let Some(c) = char::from_u32(u) {
            assert_eq!(white_space(c), c.is_whitespace(), "U+{:04X}", u);
        }
    }
}

#[test]
fn trimming_takes_white_space_from_both_ends_only() {
    for text in [
        "", " ", " \t\n", "a", " a b ", "\u{3000}x\u{2003}y\u{85}", "a\u{200B}", "ä  ö",
    ] {
        assert_eq!(trim(text), text.trim());
        assert_eq!(trim(trim(text)), text.trim());
    }
    assert_eq!(trim("  a b "), "a b");
}

#[test]
fn decimal_agrees_with_display() {
    for n in [0, 1, 9, 10, 99, 100, 8000, 16000, 44100, 65535, u32::MAX] {
        assert_eq!(decimal_text(n), n.to_string());
    }
}

#[test]
fn prefixes_and_equality() {
    assert!(starts_with("event", ""));
    assert!(starts_with("event5", "event"));
    assert!(!starts_with("eve", "event"));
    assert!(!starts_with("xevent", "event"));
    assert!(same_text("clipboard", "clipboard"));
    assert!(!same_text("clipboard", "clipboard "));
    assert!(!same_text("type", "clipboard"));
    assert!(same_text("", ""));
    assert!(ends_with_space("a "));
    assert!(!ends_with_space("a\u{A0}"));
    assert!(!ends_with_space(""));
}
