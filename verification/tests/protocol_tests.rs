use walrust::protocol::{Protocol, ProtocolError, RequestType};

#[test]
fn malformed_header() {
    let malformed_header = "this\r\n is a \r\n\r\n test";
    let parse_header = Protocol::header_parser(malformed_header);
    assert!(parse_header.is_err());
    match parse_header {
        Err(x) => assert_eq!(x, ProtocolError::MalformedHeader),
        Ok(_) => panic!("expected error"),
    }
}

#[test]
fn malformed_payload() {
    let malformed_payload = "this\r\n is a \r\n\n test";
    let parse_payload = Protocol::header_parser(malformed_payload);
    assert!(parse_payload.is_err());
    match parse_payload {
        Err(x) => assert_eq!(x, ProtocolError::MalformedPayload),
        Ok(_) => panic!("expected error"),
    }
}

#[test]
fn valid_header_options_values() {
    let payload = "request_type:join\r\n\r\n";
    let res = Protocol::header_parser(payload);
    assert!(res.is_ok());
}

#[test]
fn join_request_keeps_body() {
    let p = Protocol::header_parser("request_type:join\r\n\r\nhello\r\n\r\nworld").unwrap();
    assert_eq!(p.request_type(), RequestType::Join);
    assert_eq!(p.body(), "hello\r\n\r\nworld");
}

#[test]
fn join_request_empty_body() {
    let p = Protocol::header_parser("request_type:join\r\n\r\n").unwrap();
    assert_eq!(p.request_type(), RequestType::Join);
    assert_eq!(p.body(), "");
}

#[test]
fn several_join_lines() {
    let p = Protocol::header_parser("request_type:join\r\nrequest_type:join\r\n\r\nx").unwrap();
    assert_eq!(p.request_type(), RequestType::Join);
    assert_eq!(p.body(), "x");
}

#[test]
fn unknown_value_is_refused() {
    let r = Protocol::header_parser("request_type:heartbeat\r\n\r\nbody");
    assert_eq!(r.unwrap_err(), ProtocolError::InvalidOptionValue);
}

#[test]
fn unknown_option_is_refused() {
    let r = Protocol::header_parser("role:join\r\n\r\nbody");
    assert_eq!(r.unwrap_err(), ProtocolError::InvalidHeaderOption);
}

#[test]
fn key_is_not_trimmed() {
    let r = Protocol::header_parser(" request_type:join\r\n\r\n");
    assert_eq!(r.unwrap_err(), ProtocolError::InvalidHeaderOption);
    let r = Protocol::header_parser("request_type: join\r\n\r\n");
    assert_eq!(r.unwrap_err(), ProtocolError::InvalidOptionValue);
}

#[test]
fn empty_header_is_malformed() {
    let r = Protocol::header_parser("\r\n\r\nbody");
    assert_eq!(r.unwrap_err(), ProtocolError::MalformedHeader);
}

#[test]
fn first_fault_decides() {
    let r = Protocol::header_parser("request_type:join\r\nrole:x\r\nbroken\r\n\r\n");
    assert_eq!(r.unwrap_err(), ProtocolError::InvalidHeaderOption);
    let r = Protocol::header_parser("broken\r\nrole:x\r\n\r\n");
    assert_eq!(r.unwrap_err(), ProtocolError::MalformedHeader);
}

#[test]
fn split_at_first_colon() {
    let r = Protocol::header_parser("request_type:join:more\r\n\r\n");
    assert_eq!(r.unwrap_err(), ProtocolError::InvalidOptionValue);
}

#[test]
fn demo_buffer_of_bootstrap_program() {
    let r = Protocol::header_parser("request_type:join\r\n hello\r\n\r\nnothing");
    assert_eq!(r.unwrap_err(), ProtocolError::MalformedHeader);
}

#[test]
fn appending_only_grows_body() {
    let a = Protocol::header_parser("request_type:join\r\n\r\nab").unwrap();
    let b = Protocol::header_parser("request_type:join\r\n\r\nab\r\n\r\ncd").unwrap();
    assert_eq!(a.body(), "ab");
    assert_eq!(b.body(), "ab\r\n\r\ncd");
    let e1 = Protocol::header_parser("x\r\n\r\n").unwrap_err();
    let e2 = Protocol::header_parser("x\r\n\r\nmore").unwrap_err();
    assert_eq!(e1, e2);
}

#[test]
fn payload_error_only_without_blank_line() {
    assert_eq!(Protocol::header_parser("").unwrap_err(), ProtocolError::MalformedPayload);
    assert_eq!(Protocol::header_parser("request_type:join\r\n").unwrap_err(), ProtocolError::MalformedPayload);
    assert_eq!(Protocol::header_parser("\r\n\r").unwrap_err(), ProtocolError::MalformedPayload);
}

#[test]
fn non_ascii_body() {
    let p = Protocol::header_parser("request_type:join\r\n\r\nhé→✓").unwrap();
    assert_eq!(p.body(), "hé→✓");
}
