use dictate::ipc::{answer_line, frame_request, IpcError, Request, Response};

#[test]
fn answers_carry_their_message() {
    let done = Response::ok("recording");
    assert!(done.ok);
    assert_eq!(done.message, Some("recording".to_string()));
    let failed = Response::err(String::from("no such command"));
    assert!(!failed.ok);
    assert_eq!(failed.message, Some("no such command".to_string()));
}

#[test]
fn a_request_is_one_line() {
    let request = Request {
        command: "toggle".to_string(),
        arg: None,
    };
    assert_eq!(request.command, "toggle");
    assert_eq!(request.arg, None);
    let encoded = br#"{"command":"toggle","arg":null}"#.to_vec();
    let line = frame_request(encoded.clone());
    assert_eq!(line.iter().position(|&b| b == b'\n'), Some(line.len() - 1));
    assert_eq!(line[..line.len() - 1].to_vec(), encoded);
    assert_eq!(frame_request(Vec::new()), vec![b'\n']);
}

#[test]
fn a_missing_answer_is_an_error() {
    assert_eq!(answer_line(Some("{}".to_string())), Ok("{}".to_string()));
    assert_eq!(answer_line(Some(String::new())), Ok(String::new()));
    assert_eq!(answer_line(None), Err(IpcError::NoResponse));
}

#[test]
fn ipc_errors_in_words() {
    assert_eq!(IpcError::Bind.message(), "failed to bind IPC socket");
    assert_eq!(
        IpcError::NotRunning.message(),
        "daemon not running (can't connect to socket)"
    );
    assert_eq!(IpcError::NoResponse.message(), "no response from daemon");
}
