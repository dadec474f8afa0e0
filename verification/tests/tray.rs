use dictate::tray::{DictateTray, Status};

#[test]
fn the_icon_follows_the_recording() {
    let mut tray = DictateTray::new();
    assert_eq!(tray.id(), "dictate");
    assert_eq!(tray.icon_name(), "audio-input-microphone");
    assert_eq!(tray.title(), "Dictate");
    assert_eq!(tray.status(), Status::Passive);
    tray.set_recording(true);
    assert_eq!(tray.title(), "Dictate (recording)");
    assert_eq!(tray.status(), Status::Active);
    assert_eq!(tray.id(), "dictate");
    assert_eq!(tray.icon_name(), "audio-input-microphone");
    tray.set_recording(false);
    assert_eq!(tray.title(), "Dictate");
    assert_eq!(tray.status(), Status::Passive);
}
