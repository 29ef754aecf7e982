use redis_starter_rust::commands::CommandError;
use redis_starter_rust::parser::DecodeKind;
use redis_starter_rust::server::{handle_request, RequestError};

#[test]
fn ping_is_answered_with_pong() {
    let response = handle_request(b"*1\r\n$4\r\nPING\r\n").unwrap();
    assert_eq!(response, b"+PONG\r\n");
}

#[test]
fn echo_is_answered_with_the_stored_payload_verbatim() {
    let response = handle_request(b"*2\r\n$4\r\nECHO\r\n$2\r\nhi\r\n").unwrap();
    assert_eq!(response, b"$2\r\nhi\r\n");
}

#[test]
fn an_empty_read_ends_the_connection_step() {
    assert_eq!(handle_request(b"").unwrap_err(), RequestError::Empty);
}

#[test]
fn malformed_bytes_end_the_step_with_the_decode_cause() {
    let err = handle_request(b"*1\r\n$4\r\nPING").unwrap_err();
    match err {
        RequestError::Decode(e) => {
            assert_eq!(e.kind, DecodeKind::MissingTerminator);
            assert!(e.offset <= b"*1\r\n$4\r\nPING".len());
        }
        other => panic!("expected a decode failure, got {other:?}"),
    }
}

#[test]
fn an_unrecognized_command_ends_the_step_with_the_command_cause() {
    let err = handle_request(b"*1\r\n$3\r\nGET\r\n").unwrap_err();
    assert_eq!(
        err,
        RequestError::Command(CommandError::UnknownCommand("get".into()))
    );
}

#[test]
fn one_failed_request_does_not_affect_the_next_well_formed_one() {
    // each step works on its own buffer alone: a malformed request leaves no
    // state behind that could touch another request
    assert!(handle_request(b"!garbage\r\n").is_err());
    assert_eq!(handle_request(b"*1\r\n$4\r\nPING\r\n").unwrap(), b"+PONG\r\n");
    assert!(handle_request(b":not-an-int\r\n").is_err());
    assert_eq!(
        handle_request(b"*2\r\n$4\r\nECHO\r\n$2\r\nok\r\n").unwrap(),
        b"$2\r\nok\r\n"
    );
}

#[test]
fn only_the_first_unit_of_a_read_is_answered() {
    // one request/response pair per read: trailing bytes are not consumed
    let response = handle_request(b"*1\r\n$4\r\nPING\r\n*1\r\n$4\r\nPING\r\n").unwrap();
    assert_eq!(response, b"+PONG\r\n");
}
