use dictate::evdev::{
    enumerate_key_devices, is_event_node, is_key_press, watch_key, InputEvent, InputNode,
    WatchError,
};

fn node(name: &str, has_key: Option<bool>) -> InputNode {
    InputNode {
        name: name.to_string(),
        has_key,
    }
}

fn event(event_type: u16, code: u16, value: i32) -> InputEvent {
    InputEvent {
        event_type,
        code,
        value,
    }
}

#[test]
fn only_presses_of_the_key_count() {
    assert!(is_key_press(&event(1, 70, 1), 70));
    assert!(!is_key_press(&event(1, 70, 0), 70));
    assert!(!is_key_press(&event(1, 70, 2), 70));
    assert!(!is_key_press(&event(1, 71, 1), 70));
    assert!(!is_key_press(&event(2, 70, 1), 70));
    assert!(!is_key_press(&event(0, 0, 1), 0));
}

#[test]
fn only_event_nodes_are_opened() {
    assert!(is_event_node("event0"));
    assert!(is_event_node("event"));
    assert!(!is_event_node("mouse0"));
    assert!(!is_event_node("even"));
    assert!(!is_event_node("Event0"));
    assert!(!is_event_node(""));
}

#[test]
fn devices_with_the_key_are_found_in_order() {
    let nodes = [
        node("event3", Some(true)),
        node("mouse0", Some(true)),
        node("event1", Some(false)),
        node("event2", None),
        node("event0", Some(true)),
    ];
    assert_eq!(enumerate_key_devices(&nodes), vec![0, 4]);
    assert_eq!(watch_key(&nodes, 70), Ok(vec![0, 4]));
}

#[test]
fn no_device_is_an_error() {
    let nodes = [node("event1", Some(false)), node("mice", Some(true))];
    assert_eq!(enumerate_key_devices(&nodes), Vec::<usize>::new());
    let error = watch_key(&nodes, 70).unwrap_err();
    assert_eq!(error, WatchError::NoDevice(70));
    assert_eq!(
        error.message(),
        "no input device found with key 70 capability"
    );
    assert_eq!(
        watch_key(&[], u16::MAX).unwrap_err().message(),
        "no input device found with key 65535 capability"
    );
}
