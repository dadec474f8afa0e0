use dictate::transcript::{Transcript, TranscriptEvent};

#[test]
fn pieces_are_joined_with_one_space() {
    let mut t = Transcript::new();
    assert_eq!(t.text(), "");
    let d = t.add_piece("Hello", "type").unwrap();
    assert_eq!(d.full, "Hello");
    assert_eq!(d.typed, Some("Hello ".to_string()));
    let d = t.add_piece("world. ", "type").unwrap();
    assert_eq!(d.full, "Hello world. ");
    assert_eq!(d.typed, Some("world. ".to_string()));
    let d = t.add_piece("Again", "type").unwrap();
    assert_eq!(d.full, "Hello world. Again");
    assert_eq!(t.text(), "Hello world. Again");
}

#[test]
fn an_empty_piece_changes_nothing() {
    let mut t = Transcript::new();
    assert!(t.add_piece("", "type").is_none());
    t.add_piece("one", "type");
    assert!(t.add_piece("", "type").is_none());
    assert_eq!(t.text(), "one");
}

#[test]
fn nothing_is_typed_in_clipboard_mode() {
    let mut t = Transcript::new();
    let d = t.add_piece("copied", "clipboard").unwrap();
    assert_eq!(d.full, "copied");
    assert_eq!(d.typed, None);
}

#[test]
fn key_strokes_are_those_of_the_whole_text() {
    let mut t = Transcript::new();
    let mut keys = String::new();
    for piece in ["a", "b ", " c", "d"] {
        keys.push_str(&t.add_piece(piece, "both").unwrap().typed.unwrap());
    }
    assert_eq!(t.text(), "a b  c d");
    assert_eq!(keys, "a b  c d ");
}

#[test]
fn enter_is_pressed_only_after_typed_text() {
    let mut t = Transcript::new();
    let e = t.ending(true, "type");
    assert!(!e.press_enter);
    assert_eq!(e.history, "");
    t.add_piece(" \n", "type");
    let e = t.ending(true, "type");
    assert!(!e.press_enter);
    assert_eq!(e.history, "");
    t.add_piece("done\n", "type");
    let e = t.ending(true, "type");
    assert!(e.press_enter);
    assert_eq!(e.history, "done");
    assert!(!t.ending(false, "type").press_enter);
    assert!(!t.ending(true, "clipboard").press_enter);
}

#[test]
fn events_carry_their_text() {
    let event = TranscriptEvent::Final {
        delta: "b".to_string(),
        accumulated: "a b".to_string(),
    };
    assert!(matches!(event, TranscriptEvent::Final { delta, accumulated } if accumulated.ends_with(&delta)));
    assert!(matches!(TranscriptEvent::Interim("x".to_string()), TranscriptEvent::Interim(t) if t == "x"));
}
