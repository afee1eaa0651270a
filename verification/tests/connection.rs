//! Connection tests: handshake sequencing, the not-initialized guard,
//! correlation of interleaved responses, and cancellation on teardown.

use crossbeam_channel::{unbounded, Receiver, Sender};
use lsp_client::conn::{Connection, Dispatched};
use lsp_client::errors::ErrorKind;
use lsp_client::handshake::HandshakeState;
use lsp_client::msg::{Identifier, Message, Outcome};
use lsp_client::pending::PendingTable;

/// A connection whose outbound and inbound queues are visible to the test:
/// what the client sends lands in `server_rx`; the test plays the server by
/// pushing into `server_tx`.
fn test_connection() -> (Connection, Receiver<Message>, Sender<Message>) {
    let (out_tx, out_rx) = unbounded::<Message>();
    let (in_tx, in_rx) = unbounded::<Message>();
    (Connection::new(out_tx, in_rx), out_rx, in_tx)
}

fn initialized_connection() -> (Connection, Receiver<Message>, Sender<Message>) {
    let (mut conn, server_rx, server_tx) = test_connection();
    conn.initialize_start().unwrap();
    let _init_request = server_rx.recv().unwrap();
    server_tx
        .send(Message::Response {
            id: Identifier::Num(1),
            outcome: Outcome::Success(b"{}".to_vec()),
        })
        .unwrap();
    conn.initialize_finish().unwrap();
    let _initialized_note = server_rx.recv().unwrap();
    assert_eq!(conn.state, HandshakeState::Initialized);
    (conn, server_rx, server_tx)
}

#[test]
fn handshake_full_scenario() {
    let (mut conn, server_rx, server_tx) = test_connection();
    assert_eq!(conn.state, HandshakeState::Uninitialized);

    // the client sends Request { id: 1, method: "initialize", params: caps }
    conn.initialize_start().unwrap();
    assert_eq!(conn.state, HandshakeState::AwaitingInitializeResponse);
    match server_rx.recv().unwrap() {
        Message::Request { id, method, params } => {
            assert_eq!(id, Identifier::Num(1));
            assert_eq!(method, b"initialize".to_vec());
            assert!(!params.is_empty());
        }
        other => panic!("expected the initialize request, got {:?}", other),
    }

    // the server replies Response { id: 1, result: ... }
    server_tx
        .send(Message::Response {
            id: Identifier::Num(1),
            outcome: Outcome::Success(b"{\"capabilities\":{}}".to_vec()),
        })
        .unwrap();
    conn.initialize_finish().unwrap();
    assert_eq!(conn.state, HandshakeState::Initialized);

    // the client then sends Notification { method: "initialized" }
    match server_rx.recv().unwrap() {
        Message::Notification { method, .. } => assert_eq!(method, b"initialized".to_vec()),
        other => panic!("expected the initialized notification, got {:?}", other),
    }

    // an ordinary request now succeeds under id 2 ...
    let id = conn
        .send_request(b"textDocument/definition".to_vec(), b"{\"pos\":0}".to_vec())
        .unwrap();
    assert_eq!(id, Identifier::Num(2));
    match server_rx.recv().unwrap() {
        Message::Request { id, method, .. } => {
            assert_eq!(id, Identifier::Num(2));
            assert_eq!(method, b"textDocument/definition".to_vec());
        }
        other => panic!("expected the definition request, got {:?}", other),
    }

    // ... and its response resolves the caller's handle with the location
    server_tx
        .send(Message::Response {
            id: Identifier::Num(2),
            outcome: Outcome::Success(b"{\"uri\":\"file:///a\"}".to_vec()),
        })
        .unwrap();
    let inbound = conn.recv_message().unwrap();
    assert!(matches!(conn.handle_inbound(inbound), Dispatched::ResponseMatched));
    assert_eq!(
        conn.poll_response(&Identifier::Num(2)),
        Some(Ok(Outcome::Success(b"{\"uri\":\"file:///a\"}".to_vec())))
    );
}

#[test]
fn handshake_fails_on_notification_before_response() {
    let (mut conn, _server_rx, server_tx) = test_connection();
    conn.initialize_start().unwrap();
    server_tx
        .send(Message::Notification { method: b"window/logMessage".to_vec(), params: b"{}".to_vec() })
        .unwrap();
    assert_eq!(conn.initialize_finish(), Err(ErrorKind::Protocol));
    assert_eq!(conn.state, HandshakeState::Failed(ErrorKind::Protocol));
}

#[test]
fn handshake_fails_on_response_with_wrong_id() {
    let (mut conn, _server_rx, server_tx) = test_connection();
    conn.initialize_start().unwrap();
    server_tx
        .send(Message::Response {
            id: Identifier::Num(9),
            outcome: Outcome::Success(b"{}".to_vec()),
        })
        .unwrap();
    assert_eq!(conn.initialize_finish(), Err(ErrorKind::Protocol));
    assert_eq!(conn.state, HandshakeState::Failed(ErrorKind::Protocol));
}

#[test]
fn handshake_never_initializes_out_of_order() {
    // initialized can only follow initialize: finishing before starting is a
    // protocol error and does not touch the state
    let (mut conn, _server_rx, _server_tx) = test_connection();
    assert_eq!(conn.initialize_finish(), Err(ErrorKind::Protocol));
    assert_eq!(conn.state, HandshakeState::Uninitialized);
    // and starting twice is refused too
    conn.initialize_start().unwrap();
    assert_eq!(conn.initialize_start(), Err(ErrorKind::Protocol));
    assert_eq!(conn.state, HandshakeState::AwaitingInitializeResponse);
}

#[test]
fn guard_rejects_requests_before_initialized() {
    let (mut conn, server_rx, _server_tx) = test_connection();
    assert_eq!(
        conn.send_request(b"textDocument/hover".to_vec(), b"{}".to_vec()),
        Err(ErrorKind::NotInitialized)
    );
    // nothing went out on the wire queue
    assert!(server_rx.try_recv().is_err());

    conn.initialize_start().unwrap();
    let _ = server_rx.recv().unwrap();
    // still not initialized: awaiting the response
    assert_eq!(
        conn.send_request(b"textDocument/hover".to_vec(), b"{}".to_vec()),
        Err(ErrorKind::NotInitialized)
    );
    assert!(server_rx.try_recv().is_err());
}

#[test]
fn correlation_out_of_order_responses() {
    let (mut conn, server_rx, _server_tx) = initialized_connection();
    let id_a = conn.send_request(b"a".to_vec(), b"1".to_vec()).unwrap();
    let id_b = conn.send_request(b"b".to_vec(), b"2".to_vec()).unwrap();
    let id_c = conn.send_request(b"c".to_vec(), b"3".to_vec()).unwrap();
    assert_eq!((&id_a, &id_b, &id_c), (&Identifier::Num(2), &Identifier::Num(3), &Identifier::Num(4)));
    for _ in 0..3 {
        let _ = server_rx.recv().unwrap();
    }
    // responses arrive in a permuted order; each resolves only its own id
    for (id, payload) in [(4u64, &b"rc"[..]), (2, &b"ra"[..]), (3, &b"rb"[..])] {
        let m = Message::Response {
            id: Identifier::Num(id),
            outcome: Outcome::Success(payload.to_vec()),
        };
        assert!(matches!(conn.handle_inbound(m), Dispatched::ResponseMatched));
    }
    assert_eq!(conn.poll_response(&id_a), Some(Ok(Outcome::Success(b"ra".to_vec()))));
    assert_eq!(conn.poll_response(&id_b), Some(Ok(Outcome::Success(b"rb".to_vec()))));
    assert_eq!(conn.poll_response(&id_c), Some(Ok(Outcome::Success(b"rc".to_vec()))));
}

#[test]
fn unmatched_response_is_dropped_not_fatal() {
    let (mut conn, _server_rx, _server_tx) = initialized_connection();
    let stale = Message::Response {
        id: Identifier::Num(99),
        outcome: Outcome::Success(b"{}".to_vec()),
    };
    assert!(matches!(conn.handle_inbound(stale), Dispatched::ResponseUnmatched));
    // the connection still works afterwards
    let id = conn.send_request(b"m".to_vec(), b"{}".to_vec()).unwrap();
    assert_eq!(conn.poll_response(&id), None);
}

#[test]
fn interleaved_notification_is_not_mistaken_for_response() {
    let (mut conn, server_rx, _server_tx) = initialized_connection();
    let id = conn.send_request(b"q".to_vec(), b"{}".to_vec()).unwrap();
    let _ = server_rx.recv().unwrap();

    // a notification arrives between the request and its response
    let note = Message::Notification { method: b"progress".to_vec(), params: b"{}".to_vec() };
    match conn.handle_inbound(note) {
        Dispatched::Note(Message::Notification { method, .. }) => {
            assert_eq!(method, b"progress".to_vec())
        }
        other => panic!("expected the notification routed out, got {:?}", other),
    }
    // the request is still suspended, not resolved by the notification
    assert_eq!(conn.poll_response(&id), None);

    // only the real matching response resolves it
    let resp = Message::Response { id: Identifier::Num(2), outcome: Outcome::Failure(b"e".to_vec()) };
    assert!(matches!(conn.handle_inbound(resp), Dispatched::ResponseMatched));
    assert_eq!(conn.poll_response(&id), Some(Ok(Outcome::Failure(b"e".to_vec()))));
}

#[test]
fn server_request_is_routed_out_untouched() {
    let (mut conn, _server_rx, _server_tx) = initialized_connection();
    let req = Message::Request {
        id: Identifier::Str(b"srv-1".to_vec()),
        method: b"workspace/configuration".to_vec(),
        params: b"{}".to_vec(),
    };
    match conn.handle_inbound(req) {
        Dispatched::ServerRequest(Message::Request { id, .. }) => {
            assert_eq!(id, Identifier::Str(b"srv-1".to_vec()))
        }
        other => panic!("expected the server request routed out, got {:?}", other),
    }
}

#[test]
fn close_cancels_outstanding_request() {
    let (mut conn, _server_rx, _server_tx) = initialized_connection();
    conn.next_id = 7;
    let id = conn.send_request(b"slow".to_vec(), b"{}".to_vec()).unwrap();
    assert_eq!(id, Identifier::Num(7));
    // the connection is closed while id 7 is outstanding: its pending handle
    // resolves with ConnectionClosed rather than hanging
    conn.close();
    assert_eq!(conn.poll_response(&id), Some(Err(ErrorKind::ConnectionClosed)));
}

#[test]
fn send_fails_with_connection_closed_when_writer_gone() {
    let (mut conn, server_rx, _server_tx) = initialized_connection();
    drop(server_rx);
    assert_eq!(
        conn.send_request(b"m".to_vec(), b"{}".to_vec()),
        Err(ErrorKind::ConnectionClosed)
    );
    assert_eq!(
        conn.send_notification(b"n".to_vec(), b"{}".to_vec()),
        Err(ErrorKind::ConnectionClosed)
    );
}

#[test]
fn finish_fails_with_connection_closed_when_reader_gone() {
    let (mut conn, _server_rx, server_tx) = test_connection();
    conn.initialize_start().unwrap();
    drop(server_tx);
    assert_eq!(conn.initialize_finish(), Err(ErrorKind::ConnectionClosed));
    assert_eq!(conn.state, HandshakeState::Failed(ErrorKind::ConnectionClosed));
    // the pending initialize entry was cancelled, not left waiting
    assert_eq!(
        conn.poll_response(&Identifier::Num(1)),
        Some(Err(ErrorKind::ConnectionClosed))
    );
}

#[test]
fn pending_table_len_counts_outstanding() {
    let mut t = PendingTable::new();
    assert_eq!(t.len(), 0);
    t.insert(Identifier::Num(5));
    assert_eq!(t.len(), 1);
}
