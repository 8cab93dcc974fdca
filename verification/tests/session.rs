use presence::protocol::{render_response, ErrorCode, Response};
use presence::registry::Registry;
use presence::session::{handle_chunk, handle_disconnect, ChunkOutcome, ChunkStep};

/// The chunk must decode; hand back the outcome it led to.
fn respond(step: ChunkStep) -> ChunkOutcome {
    match step {
        ChunkStep::Respond(out) => out,
        ChunkStep::Malformed => panic!("the chunk was expected to decode as text"),
    }
}

#[test]
fn unknown_command_is_answered_and_leaves_connection_unregistered() {
    let mut reg = Registry::new();
    let out = respond(handle_chunk(&mut reg, 1, b"FOO bar"));
    assert_eq!(out.response, Response::Rejected(ErrorCode::UnkCmd));
    assert_eq!(render_response(&out.response), b"ERR UNK_CMD\n".to_vec());
    assert!(out.joined.is_none());
    assert!(reg.lookup(1).is_none());
}

#[test]
fn whitespace_only_chunk_is_an_empty_command() {
    let mut reg = Registry::new();
    let out = respond(handle_chunk(&mut reg, 1, b" \t \r\n "));
    assert_eq!(render_response(&out.response), b"ERR NIL_CMD\n".to_vec());
    assert!(out.joined.is_none());
}

#[test]
fn reg_without_nickname_is_answered_with_nil_nick() {
    let mut reg = Registry::new();
    let out = respond(handle_chunk(&mut reg, 1, b"REG"));
    assert_eq!(render_response(&out.response), b"ERR NIL_NICK\n".to_vec());
    assert!(out.joined.is_none());
    assert!(reg.lookup(1).is_none());
}

#[test]
fn successful_registration_fires_joined_event() {
    let mut reg = Registry::new();
    let out = respond(handle_chunk(&mut reg, 1, b"REG alice"));
    assert_eq!(render_response(&out.response), b"OK\n".to_vec());
    assert_eq!(out.joined, Some(b"alice".to_vec()));
    assert_eq!(reg.lookup(1).unwrap().nickname, b"alice".to_vec());
}

#[test]
fn second_reg_on_same_connection_is_rejected_and_keeps_nickname() {
    let mut reg = Registry::new();
    let first = respond(handle_chunk(&mut reg, 1, b"REG alice"));
    assert_eq!(render_response(&first.response), b"OK\n".to_vec());
    let out = respond(handle_chunk(&mut reg, 1, b"REG bob"));
    assert_eq!(render_response(&out.response), b"ERR ALR_REG\n".to_vec());
    assert!(out.joined.is_none());
    assert_eq!(reg.lookup(1).unwrap().nickname, b"alice".to_vec());
}

#[test]
fn racing_registrations_for_one_nickname_admit_one() {
    let mut reg = Registry::new();
    let first = respond(handle_chunk(&mut reg, 1, b"REG alice"));
    let second = respond(handle_chunk(&mut reg, 2, b"REG alice"));
    let third = respond(handle_chunk(&mut reg, 3, b"REG alice"));
    assert_eq!(first.response, Response::Accepted);
    assert_eq!(second.response, Response::Rejected(ErrorCode::Tkn));
    assert_eq!(third.response, Response::Rejected(ErrorCode::Tkn));
}

#[test]
fn malformed_chunk_gets_no_response_and_changes_nothing() {
    let mut reg = Registry::new();
    respond(handle_chunk(&mut reg, 1, b"REG alice"));
    // a lone continuation byte is not text
    assert!(matches!(handle_chunk(&mut reg, 2, b"\x80"), ChunkStep::Malformed));
    // a REG whose nickname breaks off mid-sequence is not text either
    assert!(matches!(
        handle_chunk(&mut reg, 2, b"REG b\xc3"),
        ChunkStep::Malformed
    ));
    // the registry is untouched
    assert_eq!(reg.lookup(1).unwrap().nickname, b"alice".to_vec());
    assert!(reg.lookup(2).is_none());
}

#[test]
fn multibyte_nickname_registers() {
    let mut reg = Registry::new();
    let out = respond(handle_chunk(&mut reg, 1, "REG z\u{00fc}rich".as_bytes()));
    assert_eq!(out.response, Response::Accepted);
    assert_eq!(out.joined, Some("z\u{00fc}rich".as_bytes().to_vec()));
}

#[test]
fn disconnect_of_registered_connection_cleans_up_and_fires_left_once() {
    let mut reg = Registry::new();
    respond(handle_chunk(&mut reg, 1, b"REG alice"));
    let left = handle_disconnect(&mut reg, 1);
    assert_eq!(left, Some(b"alice".to_vec()));
    assert!(reg.lookup(1).is_none());
    // a second disconnect of the same identity fires no further event
    assert!(handle_disconnect(&mut reg, 1).is_none());
}

#[test]
fn disconnect_of_unregistered_connection_fires_no_event() {
    let mut reg = Registry::new();
    respond(handle_chunk(&mut reg, 1, b"FOO"));
    assert!(handle_disconnect(&mut reg, 1).is_none());
}

#[test]
fn end_to_end_scenario() {
    let mut reg = Registry::new();
    // client A registers as alice
    let a = respond(handle_chunk(&mut reg, 10, b"REG alice"));
    assert_eq!(render_response(&a.response), b"OK\n".to_vec());
    // client B asks for the same nickname and is rejected
    let b1 = respond(handle_chunk(&mut reg, 20, b"REG alice"));
    assert_eq!(render_response(&b1.response), b"ERR TKN\n".to_vec());
    // client B registers as bob
    let b2 = respond(handle_chunk(&mut reg, 20, b"REG bob"));
    assert_eq!(render_response(&b2.response), b"OK\n".to_vec());
    // client A disconnects: its identity is gone, one left event for alice
    let left = handle_disconnect(&mut reg, 10);
    assert_eq!(left, Some(b"alice".to_vec()));
    assert!(reg.lookup(10).is_none());
    assert!(handle_disconnect(&mut reg, 10).is_none());
    // client B is untouched
    assert_eq!(reg.lookup(20).unwrap().nickname, b"bob".to_vec());
}
