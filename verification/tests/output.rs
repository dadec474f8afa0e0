use dictate::output::type_text;
use dictate::sound::file_name;

#[test]
fn empty_text_types_nothing() {
    assert_eq!(type_text(""), None);
}

#[test]
fn a_space_is_typed_behind_text() {
    assert_eq!(type_text("hello"), Some("hello ".to_string()));
    assert_eq!(type_text("größe"), Some("größe ".to_string()));
    assert_eq!(type_text("tab\t"), Some("tab\t ".to_string()));
}

#[test]
fn a_space_that_is_there_is_not_doubled() {
    assert_eq!(type_text("hello "), Some("hello ".to_string()));
    assert_eq!(type_text(" "), Some(" ".to_string()));
    let once = type_text("once").unwrap();
    assert_eq!(type_text(&once), Some(once.clone()));
}

#[test]
fn sounds_are_wav_files() {
    assert_eq!(file_name("start"), "start.wav");
    assert_eq!(file_name(""), ".wav");
}
