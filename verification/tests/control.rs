use mycochip::control::{dispatch, list_response, pin_response, ControlAction, ControlRequest};

fn devices() -> Vec<String> {
    vec!["device1".to_string(), "device2".to_string()]
}

fn reply(action: ControlAction) -> String {
    match action {
        ControlAction::Reply(text) => text,
        other => panic!("expected a reply, got {:?}", other),
    }
}

fn io(machine_id: &str, port: &str, pin_index: u32) -> ControlRequest {
    ControlRequest::Io { machine_id: machine_id.to_string(), port: port.to_string(), pin_index }
}

#[test]
fn list_names_the_devices() {
    assert_eq!(reply(dispatch(&ControlRequest::List, &devices())), "device1, device2");
    assert_eq!(list_response(&vec![]), "");
    assert_eq!(list_response(&vec!["only".to_string()]), "only");
    assert_eq!(
        list_response(&vec!["a".to_string(), "b".to_string(), "c".to_string()]),
        "a, b, c"
    );
}

#[test]
fn logs_are_answered() {
    assert_eq!(reply(dispatch(&ControlRequest::Logs, &devices())), "hello from the logs");
}

#[test]
fn unknown_requests_get_the_error_text() {
    assert_eq!(reply(dispatch(&ControlRequest::Unknown, &devices())), "Error!");
}

#[test]
fn a_pin_request_asks_for_the_pin() {
    match dispatch(&io("device2", "B", 3), &devices()) {
        ControlAction::ReadPin { machine_id, port, pin_index } => {
            assert_eq!(machine_id, "device2");
            assert_eq!(port, 'B');
            assert_eq!(pin_index, 3);
        }
        other => panic!("expected a pin to read, got {:?}", other),
    }
    match dispatch(&io("device1", "Dx", 7), &devices()) {
        ControlAction::ReadPin { machine_id, port, pin_index } => {
            assert_eq!(machine_id, "device1");
            assert_eq!(port, 'D');
            assert_eq!(pin_index, 7);
        }
        other => panic!("expected a pin to read, got {:?}", other),
    }
}

#[test]
fn a_malformed_pin_request_gets_the_error_text() {
    assert_eq!(reply(dispatch(&io("nobody", "B", 3), &devices())), "Error!");
    assert_eq!(reply(dispatch(&io("device1", "", 3), &devices())), "Error!");
    assert_eq!(reply(dispatch(&io("device1", "B", 8), &devices())), "Error!");
    assert_eq!(reply(dispatch(&io("device1", "B", 259), &devices())), "Error!");
    assert_eq!(reply(dispatch(&io("device1", "B", 3), &vec![])), "Error!");
}

#[test]
fn a_pin_state_is_answered_in_words() {
    assert_eq!(pin_response(true), "true");
    assert_eq!(pin_response(false), "false");
}
