//! Codec tests: exact wire bytes, round trips, split frames, malformed
//! frames.

use lsp_client::codec::{decode, encode, DecodeOut};
use lsp_client::msg::{msg_is_wf, Identifier, Message, Outcome};

fn req(id: Identifier, method: &[u8], params: &[u8]) -> Message {
    Message::Request { id, method: method.to_vec(), params: params.to_vec() }
}

fn resp_ok(id: Identifier, result: &[u8]) -> Message {
    Message::Response { id, outcome: Outcome::Success(result.to_vec()) }
}

fn resp_err(id: Identifier, error: &[u8]) -> Message {
    Message::Response { id, outcome: Outcome::Failure(error.to_vec()) }
}

fn note(method: &[u8], params: &[u8]) -> Message {
    Message::Notification { method: method.to_vec(), params: params.to_vec() }
}

#[test]
fn encode_exact_bytes_notification() {
    let m = note(b"a", b"1");
    let bytes = encode(&m);
    let expected: Vec<u8> =
        b"Content-Length: 41\r\n\r\n{\"jsonrpc\":\"2.0\",\"method\":\"a\",\"params\":1}".to_vec();
    assert_eq!(bytes, expected);
}

#[test]
fn encode_exact_bytes_request() {
    let m = req(Identifier::Num(1), b"initialize", b"{}");
    let bytes = encode(&m);
    let expected: Vec<u8> = b"Content-Length: 58\r\n\r\n{\"jsonrpc\":\"2.0\",\"id\":1,\"method\":\"initialize\",\"params\":{}}"
        .to_vec();
    assert_eq!(bytes, expected);
}

#[test]
fn encode_exact_bytes_response() {
    let m = resp_ok(Identifier::Num(7), b"null");
    let bytes = encode(&m);
    let expected: Vec<u8> =
        b"Content-Length: 38\r\n\r\n{\"jsonrpc\":\"2.0\",\"id\":7,\"result\":null}".to_vec();
    assert_eq!(bytes, expected);
}

fn assert_round_trip(m: Message) {
    let bytes = encode(&m);
    match decode(&bytes) {
        DecodeOut::Complete { msg, used } => {
            assert_eq!(msg, m);
            assert_eq!(used, bytes.len());
        }
        _ => panic!("expected a complete message"),
    }
}

#[test]
fn round_trip_request_num_id() {
    assert_round_trip(req(Identifier::Num(42), b"textDocument/definition", b"{\"x\":1}"));
}

#[test]
fn round_trip_request_str_id() {
    assert_round_trip(req(Identifier::Str(b"alpha-7".to_vec()), b"shutdown", b"null"));
}

#[test]
fn round_trip_response_success() {
    assert_round_trip(resp_ok(Identifier::Num(1), b"{\"capabilities\":{}}"));
}

#[test]
fn round_trip_response_failure() {
    assert_round_trip(resp_err(Identifier::Str(b"k".to_vec()), b"{\"code\":-32600}"));
}

#[test]
fn round_trip_notification() {
    assert_round_trip(note(b"initialized", b"{}"));
}

#[test]
fn round_trip_empty_method_and_params() {
    assert_round_trip(note(b"", b""));
    assert_round_trip(req(Identifier::Num(0), b"", b""));
}

#[test]
fn round_trip_largest_u64_id() {
    assert_round_trip(req(Identifier::Num(u64::MAX), b"m", b"0"));
}

#[test]
fn split_at_every_boundary_yields_need_more_then_message() {
    let m = req(Identifier::Num(3), b"hover", b"{\"line\":2}");
    let bytes = encode(&m);
    for i in 0..bytes.len() {
        let prefix: Vec<u8> = bytes[..i].to_vec();
        match decode(&prefix) {
            DecodeOut::NeedMoreData => {}
            _ => panic!("prefix of length {} must ask for more data", i),
        }
    }
    assert_round_trip(m);
}

#[test]
fn malformed_body_is_rejected_without_overreading() {
    let bytes: Vec<u8> = b"Content-Length: 5\r\n\r\n{bad}".to_vec();
    match decode(&bytes) {
        DecodeOut::Malformed => {}
        _ => panic!("a 5-byte body that is not a message must be malformed"),
    }
    // the same frame followed by further stream bytes is still judged on
    // exactly its own five body bytes
    let mut more = bytes.clone();
    more.extend_from_slice(b"Content-Length: 41\r\n\r\n");
    match decode(&more) {
        DecodeOut::Malformed => {}
        _ => panic!("trailing bytes must not rescue a malformed body"),
    }
}

#[test]
fn malformed_header_is_rejected() {
    let bytes: Vec<u8> = b"Content-Size: 5\r\n\r\nabcde".to_vec();
    match decode(&bytes) {
        DecodeOut::Malformed => {}
        _ => panic!("a wrong header name must be malformed"),
    }
}

#[test]
fn header_without_digits_is_rejected() {
    let bytes: Vec<u8> = b"Content-Length: \r\n\r\n".to_vec();
    match decode(&bytes) {
        DecodeOut::Malformed => {}
        _ => panic!("a length-less header must be malformed"),
    }
}

#[test]
fn oversized_length_is_rejected() {
    let bytes: Vec<u8> = b"Content-Length: 99999999999999999999999\r\n\r\n".to_vec();
    match decode(&bytes) {
        DecodeOut::Malformed => {}
        _ => panic!("a length beyond addressable memory must be malformed"),
    }
}

#[test]
fn decode_consumes_only_one_frame() {
    let a = note(b"one", b"1");
    let b = note(b"two", b"2");
    let mut stream = encode(&a);
    let enc_a_len = stream.len();
    stream.extend_from_slice(&encode(&b));
    match decode(&stream) {
        DecodeOut::Complete { msg, used } => {
            assert_eq!(msg, a);
            assert_eq!(used, enc_a_len);
        }
        _ => panic!("expected the first message"),
    }
    let rest: Vec<u8> = stream[enc_a_len..].to_vec();
    match decode(&rest) {
        DecodeOut::Complete { msg, used } => {
            assert_eq!(msg, b);
            assert_eq!(used, rest.len());
        }
        _ => panic!("expected the second message"),
    }
}

#[test]
fn well_formedness_rejects_embedded_quotes() {
    let bad = note(b"met\"hod", b"{}");
    assert!(!msg_is_wf(&bad));
    let bad_id = req(Identifier::Str(b"a\"b".to_vec()), b"m", b"{}");
    assert!(!msg_is_wf(&bad_id));
    let good = req(Identifier::Str(b"ab".to_vec()), b"m", b"{\"any\":\"quotes ok here\"}");
    assert!(msg_is_wf(&good));
    assert_round_trip(good);
}
