use dictate::overlay::{Command, Frame, Overlay};

fn shown(width: u32, height: u32) -> Overlay {
    let mut o = Overlay::new();
    o.configure(width, height);
    o.apply(Command::Show);
    o
}

#[test]
fn a_new_overlay_is_hidden_and_has_nothing_to_draw_on() {
    let o = Overlay::new();
    assert!(!o.is_visible());
    assert!(!o.exiting());
    assert_eq!(o.text(), "");
    assert!(o.fits());
    assert_eq!(o.redraw(), None);
}

#[test]
fn showing_starts_with_its_own_text() {
    let mut o = Overlay::new();
    assert!(!o.apply(Command::SetText("early".to_string())));
    assert_eq!(o.text(), "early");
    assert!(o.apply(Command::Show));
    assert!(o.is_visible());
    assert_eq!(o.text(), "Recording...");
}

#[test]
fn text_is_drawn_only_while_the_bar_is_shown() {
    let mut o = shown(100, 50);
    assert!(o.apply(Command::SetText("one".to_string())));
    assert!(o.apply(Command::Hide));
    assert!(!o.is_visible());
    assert_eq!(o.text(), "one");
    assert!(!o.apply(Command::SetText("two".to_string())));
    assert_eq!(o.text(), "two");
}

#[test]
fn shutdown_and_close_are_for_good() {
    let mut o = Overlay::new();
    assert!(!o.apply(Command::Shutdown));
    assert!(o.exiting());
    o.apply(Command::Show);
    o.configure(10, 10);
    assert!(o.exiting());
    let mut o = Overlay::new();
    o.closed();
    assert!(o.exiting());
}

#[test]
fn sizes_have_a_least_value() {
    assert_eq!(
        shown(0, 0).redraw(),
        Some(Frame {
            width: 1,
            height: 48,
            stride: 4
        })
    );
    assert_eq!(
        shown(1920, 47).redraw(),
        Some(Frame {
            width: 1920,
            height: 48,
            stride: 7680
        })
    );
    assert_eq!(
        shown(1920, 60).redraw(),
        Some(Frame {
            width: 1920,
            height: 60,
            stride: 7680
        })
    );
}

#[test]
fn text_is_padded_and_centred() {
    let f = shown(1920, 48).redraw().unwrap();
    assert_eq!(f.text_width(), 1888);
    assert_eq!(f.text_top(), 14);
    let f = shown(10, 61).redraw().unwrap();
    assert_eq!(f.text_width(), -22);
    assert_eq!(f.text_top(), 20);
}

#[test]
fn a_bar_can_be_too_large_to_draw() {
    assert!(shown(0x1FFF_FFFF / 48, 48).fits());
    assert!(!shown(0x2000_0000, 48).fits());
    assert!(!shown(1, 0x8000_0000).fits());
    assert!(!shown(65536, 65536).fits());
    assert!(!shown(u32::MAX, u32::MAX).fits());
}

#[test]
fn the_last_word_counts() {
    let mut o = Overlay::new();
    o.apply(Command::Hide);
    o.apply(Command::Show);
    o.apply(Command::SetText("first".to_string()));
    o.apply(Command::SetText("second".to_string()));
    o.configure(100, 50);
    assert!(o.is_visible());
    assert_eq!(o.text(), "second");
    o.apply(Command::Hide);
    o.apply(Command::Shutdown);
    o.closed();
    assert!(!o.is_visible());
    assert_eq!(o.text(), "second");
    o.apply(Command::Show);
    o.configure(10, 10);
    assert!(o.is_visible());
    assert_eq!(o.text(), "Recording...");
}
