use kv_server::codec::encode;
use kv_server::command::{
    apply, command_request, error_response, parse, respond, Command, Malformed, ParseError,
};
use kv_server::connection::{Connection, ConnectionError};
use kv_server::frame::{Frame, FrameDecodeError};
use kv_server::store::Store;

fn set(key: &str, value: &[u8]) -> Command {
    Command::SetValue { key: key.to_string(), value: value.to_vec() }
}

fn get(key: &str) -> Command {
    Command::GetValue { key: key.to_string() }
}

fn request(parts: &[&[u8]]) -> Vec<u8> {
    encode(&Frame::Array(parts.iter().map(|p| p.to_vec()).collect()))
}

fn error_bytes(text: &str) -> Vec<u8> {
    encode(&Frame::Error(text.to_string()))
}

#[test]
fn command_round_trip() {
    let big = vec![0xa5u8; 70_000];
    for cmd in [
        set("foo", b"bar"),
        set("", b""),
        set("ключ", &big),
        set("k\r\n", &[0, 1, 2, 255]),
        get("foo"),
        get(""),
    ] {
        assert_eq!(parse(command_request(&cmd)), Ok(cmd.clone()));
    }
}

#[test]
fn request_frame_uses_upper_case_names() {
    assert_eq!(
        command_request(&set("k", b"v")),
        Frame::Array(vec![b"SET".to_vec(), b"k".to_vec(), b"v".to_vec()])
    );
    assert_eq!(command_request(&get("k")), Frame::Array(vec![b"GET".to_vec(), b"k".to_vec()]));
}

#[test]
fn command_names_ignore_case() {
    let f = Frame::Array(vec![b"gEt".to_vec(), b"a".to_vec()]);
    assert_eq!(parse(f), Ok(get("a")));
    let f = Frame::Array(vec![b"set".to_vec(), b"a".to_vec(), b"b".to_vec()]);
    assert_eq!(parse(f), Ok(set("a", b"b")));
}

#[test]
fn malformed_requests() {
    assert_eq!(parse(Frame::Null), Err(ParseError::Malformed(Malformed::NotAnArray)));
    assert_eq!(parse(Frame::Bulk(b"GET".to_vec())), Err(ParseError::Malformed(Malformed::NotAnArray)));
    assert_eq!(parse(Frame::Array(vec![])), Err(ParseError::Malformed(Malformed::NoCommandName)));
    assert_eq!(
        parse(Frame::Array(vec![b"GET".to_vec()])),
        Err(ParseError::Malformed(Malformed::WrongArgCount))
    );
    assert_eq!(
        parse(Frame::Array(vec![b"SET".to_vec(), b"k".to_vec()])),
        Err(ParseError::Malformed(Malformed::WrongArgCount))
    );
    assert_eq!(
        parse(Frame::Array(vec![b"GET".to_vec(), vec![0xff]])),
        Err(ParseError::Malformed(Malformed::InvalidKey))
    );
    assert_eq!(
        parse(Frame::Array(vec![vec![0xff, 0xfe]])),
        Err(ParseError::Malformed(Malformed::InvalidName))
    );
}

#[test]
fn unknown_command_is_unsupported() {
    let f = Frame::Array(vec![b"FOO".to_vec(), b"x".to_vec()]);
    assert_eq!(parse(f), Err(ParseError::Unsupported("FOO".to_string())));
}

#[test]
fn error_frames_name_the_reason() {
    assert_eq!(
        error_response(ParseError::Unsupported("FOO".to_string())),
        Frame::Error("ERR unsupported command 'FOO'".to_string())
    );
    assert_eq!(
        error_response(ParseError::Malformed(Malformed::WrongArgCount)),
        Frame::Error("ERR protocol error: wrong number of arguments".to_string())
    );
    assert_eq!(
        error_response(ParseError::Malformed(Malformed::NotAnArray)),
        Frame::Error("ERR protocol error: expected an array of bulk strings".to_string())
    );
}

#[test]
fn store_last_write_wins() {
    let mut store = Store::new();
    store.set("k".to_string(), b"v1".to_vec());
    store.set("k".to_string(), b"v2".to_vec());
    assert_eq!(store.get(&"k".to_string()), Some(b"v2".to_vec()));
}

#[test]
fn store_never_set_key_is_absent() {
    let mut store = Store::new();
    assert_eq!(store.get(&"k".to_string()), None);
    store.set("other".to_string(), b"x".to_vec());
    assert_eq!(store.get(&"k".to_string()), None);
    store.set(String::new(), Vec::new());
    assert_eq!(store.get(&String::new()), Some(Vec::new()));
}

#[test]
fn apply_set_then_get() {
    let mut store = Store::new();
    assert_eq!(apply(&mut store, set("a", b"1")), Frame::Simple("OK".to_string()));
    assert_eq!(apply(&mut store, get("a")), Frame::Bulk(b"1".to_vec()));
    assert_eq!(apply(&mut store, get("b")), Frame::Null);
}

#[test]
fn respond_reports_errors_and_leaves_store() {
    let mut store = Store::new();
    let f = Frame::Array(vec![b"SET".to_vec(), b"a".to_vec()]);
    assert_eq!(
        respond(&mut store, f),
        Frame::Error("ERR protocol error: wrong number of arguments".to_string())
    );
    assert_eq!(store.get(&"a".to_string()), None);
}

#[test]
fn scenario_set_then_get() {
    let mut store = Store::new();
    let mut conn = Connection::new();
    let (out, status) = conn.receive(&mut store, &request(&[b"SET", b"foo", b"bar"]));
    assert_eq!(out, encode(&Frame::Simple("OK".to_string())));
    assert_eq!(out, vec![b'+', 0, 0, 0, 2, b'O', b'K']);
    assert_eq!(status, Ok(()));
    let (out, status) = conn.receive(&mut store, &request(&[b"GET", b"foo"]));
    assert_eq!(out, vec![b'$', 0, 0, 0, 3, b'b', b'a', b'r']);
    assert_eq!(status, Ok(()));
    assert_eq!(conn.finish(), Ok(()));
}

#[test]
fn scenario_get_missing() {
    let mut store = Store::new();
    let mut conn = Connection::new();
    let (out, status) = conn.receive(&mut store, &request(&[b"GET", b"missing"]));
    assert_eq!(out, vec![b'_']);
    assert_eq!(status, Ok(()));
}

#[test]
fn scenario_unsupported_command_keeps_connection() {
    let mut store = Store::new();
    let mut conn = Connection::new();
    let (out, status) = conn.receive(&mut store, &request(&[b"FOO", b"x"]));
    assert_eq!(out, error_bytes("ERR unsupported command 'FOO'"));
    assert_eq!(status, Ok(()));
    let (out, status) = conn.receive(&mut store, &request(&[b"SET", b"k", b"v"]));
    assert_eq!(out, encode(&Frame::Simple("OK".to_string())));
    assert_eq!(status, Ok(()));
    let (out, status) = conn.receive(&mut store, &request(&[b"GET", b"k"]));
    assert_eq!(out, encode(&Frame::Bulk(b"v".to_vec())));
    assert_eq!(status, Ok(()));
}

#[test]
fn scenario_truncated_bulk_then_close() {
    let mut store = Store::new();
    let mut conn = Connection::new();
    let (out, status) = conn.receive(&mut store, &[b'$', 0, 0, 0, 10, b'a', b'b']);
    assert!(out.is_empty());
    assert_eq!(status, Ok(()));
    assert_eq!(conn.finish(), Err(ConnectionError::Truncated));
}

#[test]
fn scenario_two_connections_share_the_store() {
    let mut store = Store::new();
    let mut a = Connection::new();
    let mut b = Connection::new();
    let (out, _) = a.receive(&mut store, &request(&[b"SET", b"k", b"1"]));
    assert_eq!(out, encode(&Frame::Simple("OK".to_string())));
    let (out, _) = b.receive(&mut store, &request(&[b"GET", b"k"]));
    assert_eq!(out, encode(&Frame::Bulk(b"1".to_vec())));
}

#[test]
fn interleaved_connections_see_their_own_writes() {
    let mut store = Store::new();
    let mut conns: Vec<Connection> = (0..4).map(|_| Connection::new()).collect();
    for round in 0..3u8 {
        for (i, conn) in conns.iter_mut().enumerate() {
            let key = format!("key{}", i);
            let value = vec![i as u8, round];
            let (out, _) = conn.receive(&mut store, &request(&[b"SET", key.as_bytes(), &value]));
            assert_eq!(out, encode(&Frame::Simple("OK".to_string())));
        }
        for (i, conn) in conns.iter_mut().enumerate().rev() {
            let key = format!("key{}", i);
            let (out, _) = conn.receive(&mut store, &request(&[b"GET", key.as_bytes()]));
            assert_eq!(out, encode(&Frame::Bulk(vec![i as u8, round])));
        }
    }
}

#[test]
fn requests_split_across_reads_and_batched() {
    let mut store = Store::new();
    let mut conn = Connection::new();
    let mut bytes = request(&[b"SET", b"a", b"1"]);
    bytes.extend(request(&[b"GET", b"a"]));
    let (first, second) = bytes.split_at(7);
    let (out, status) = conn.receive(&mut store, first);
    assert!(out.is_empty());
    assert_eq!(status, Ok(()));
    let (out, status) = conn.receive(&mut store, second);
    let mut want = encode(&Frame::Simple("OK".to_string()));
    want.extend(encode(&Frame::Bulk(b"1".to_vec())));
    assert_eq!(out, want);
    assert_eq!(status, Ok(()));
    assert_eq!(conn.finish(), Ok(()));
}

#[test]
fn decode_error_closes_after_earlier_responses() {
    let mut store = Store::new();
    let mut conn = Connection::new();
    let mut bytes = request(&[b"SET", b"a", b"1"]);
    bytes.push(b'!');
    let (out, status) = conn.receive(&mut store, &bytes);
    assert_eq!(out, encode(&Frame::Simple("OK".to_string())));
    assert_eq!(status, Err(ConnectionError::Decode(FrameDecodeError::UnknownTag(b'!'))));
    assert_eq!(store.get(&"a".to_string()), Some(b"1".to_vec()));
}

#[test]
fn bad_aggregate_element_is_a_decode_error() {
    let mut store = Store::new();
    let mut conn = Connection::new();
    let (out, status) = conn.receive(&mut store, &[b'*', 0, 0, 0, 1, b'_']);
    assert!(out.is_empty());
    assert_eq!(status, Err(ConnectionError::Decode(FrameDecodeError::BadElementTag(b'_'))));
}
