use kv::broadcast::Broadcaster;
use kv::error::KvError;
use kv::pb::{CommandRequest, CommandResponse, Kvpair, Val, Value};
use kv::service::{
    assert_res_error, assert_res_ok, dispatch, dispatch_stream, Service, ServiceInner,
    StreamingResponse,
};
use kv::storage::{MemTable, Storage};

fn sv(s: &str) -> Value {
    Value { value: Some(Val::Str(s.to_string())) }
}

fn iv(i: i64) -> Value {
    Value { value: Some(Val::Integer(i)) }
}

fn bv(b: bool) -> Value {
    Value { value: Some(Val::Bool(b)) }
}

fn single(res: StreamingResponse) -> CommandResponse {
    match res {
        StreamingResponse::Single(r) => r,
        StreamingResponse::Subscription(_) => panic!("expected a single response"),
    }
}

#[test]
fn prost_stream_should_work() {
    let cmd = CommandRequest::new_hdel("table".to_string(), "key".to_string());
    let mut buf: Vec<u8> = Vec::new();
    cmd.encode_frame(&mut buf).unwrap();
    if let Ok(s) = CommandRequest::decode_frame(&mut buf) {
        assert_eq!(s, cmd);
    } else {
        assert!(false);
    }
    assert!(buf.is_empty());
}

#[test]
fn service_should_work() {
    let mut service: Service = ServiceInner::new(MemTable::new()).into();

    let res = service.execute(CommandRequest::new_hset(
        "table".to_string(),
        "key".to_string(),
        sv("value"),
    ));
    let data = single(res);
    assert!(assert_res_ok(&data, &[Value::default()], &[]));

    let res = service.execute(CommandRequest::new_hget("table".to_string(), "key".to_string()));
    let data = single(res);
    assert!(assert_res_ok(&data, &[sv("value")], &[]));
}

#[test]
fn set_then_get_returns_value() {
    let mut store = MemTable::new();
    store.set("t", "k".to_string(), iv(7)).unwrap();
    let got = store.get("t", "k").unwrap();
    assert_eq!(got, Some(iv(7)));
}

#[test]
fn set_reports_previous_value() {
    let mut store = MemTable::new();
    let first = store.set("t", "k".to_string(), iv(1)).unwrap();
    assert_eq!(first, None);
    let second = store.set("t", "k".to_string(), iv(2)).unwrap();
    assert_eq!(second, Some(iv(1)));
}

#[test]
fn set_del_get_reports_not_found() {
    let mut store = MemTable::new();
    store.set("t", "k".to_string(), sv("v")).unwrap();
    let deleted = store.del("t", "k").unwrap();
    assert_eq!(deleted, Some(sv("v")));
    assert_eq!(store.get("t", "k").unwrap(), None);
    let mut st = MemTable::new();
    st.set("t", "k".to_string(), sv("v")).unwrap();
    let res = dispatch(CommandRequest::new_hdel("t".to_string(), "k".to_string()), &mut st);
    assert!(assert_res_ok(&res, &[sv("v")], &[]));
    let res = dispatch(CommandRequest::new_hget("t".to_string(), "k".to_string()), &mut st);
    assert!(assert_res_error(&res, 404, "Not found"));
}

#[test]
fn hset_then_hget_scenario() {
    let mut store = MemTable::new();
    let res = dispatch(
        CommandRequest::new_hset("t".to_string(), "k".to_string(), sv("v")),
        &mut store,
    );
    assert_eq!(res.status, 200);
    assert!(assert_res_ok(&res, &[Value::default()], &[]));

    let res = dispatch(CommandRequest::new_hget("t".to_string(), "k".to_string()), &mut store);
    assert_eq!(res.status, 200);
    assert!(assert_res_ok(&res, &[sv("v")], &[]));

    let res = dispatch(
        CommandRequest::new_hget("t".to_string(), "absent".to_string()),
        &mut store,
    );
    assert_eq!(res.status, 404);
}

#[test]
fn hdel_scenario() {
    let mut store = MemTable::new();
    let res = dispatch(
        CommandRequest::new_hdel("t".to_string(), "missing".to_string()),
        &mut store,
    );
    assert!(assert_res_error(&res, 404, "Not found"));
    assert!(res.values.is_empty());

    dispatch(
        CommandRequest::new_hset("t".to_string(), "k".to_string(), iv(5)),
        &mut store,
    );
    let res = dispatch(CommandRequest::new_hdel("t".to_string(), "k".to_string()), &mut store);
    assert_eq!(res.status, 200);
    assert!(assert_res_ok(&res, &[iv(5)], &[]));
}

#[test]
fn hmget_scenario() {
    let mut store = MemTable::new();
    dispatch(
        CommandRequest::new_hset("t".to_string(), "b".to_string(), iv(42)),
        &mut store,
    );
    let res = dispatch(
        CommandRequest::new_hmget(
            "t".to_string(),
            vec!["a".to_string(), "b".to_string(), "c".to_string()],
        ),
        &mut store,
    );
    assert_eq!(res.status, 200);
    assert_eq!(res.values.len(), 3);
    assert!(assert_res_ok(&res, &[Value::default(), iv(42), Value::default()], &[]));
}

#[test]
fn hmset_reports_previous_values_in_order() {
    let mut store = MemTable::new();
    dispatch(
        CommandRequest::new_hset("t".to_string(), "a".to_string(), iv(1)),
        &mut store,
    );
    let res = dispatch(
        CommandRequest::new_hmset(
            "t".to_string(),
            vec![
                Kvpair::new("a".to_string(), iv(10)),
                Kvpair::new("a".to_string(), iv(20)),
                Kvpair::new("b".to_string(), iv(30)),
            ],
        ),
        &mut store,
    );
    assert!(assert_res_ok(&res, &[iv(1), iv(10), Value::default()], &[]));
    let res = dispatch(CommandRequest::new_hget("t".to_string(), "a".to_string()), &mut store);
    assert!(assert_res_ok(&res, &[iv(20)], &[]));
}

#[test]
fn hexist_and_hmexist_report_booleans() {
    let mut store = MemTable::new();
    dispatch(
        CommandRequest::new_hset("t".to_string(), "k".to_string(), iv(1)),
        &mut store,
    );
    let res = dispatch(
        CommandRequest::new_hexist("t".to_string(), "k".to_string()),
        &mut store,
    );
    assert!(assert_res_ok(&res, &[bv(true)], &[]));
    let res = dispatch(
        CommandRequest::new_hmexist("t".to_string(), vec!["k".to_string(), "x".to_string()]),
        &mut store,
    );
    assert!(assert_res_ok(&res, &[bv(true), bv(false)], &[]));
}

#[test]
fn hgetall_returns_all_pairs() {
    let mut store = MemTable::new();
    dispatch(
        CommandRequest::new_hset("t".to_string(), "a".to_string(), iv(1)),
        &mut store,
    );
    dispatch(
        CommandRequest::new_hset("t".to_string(), "b".to_string(), iv(2)),
        &mut store,
    );
    let res = dispatch(CommandRequest::new_hgetall("t".to_string()), &mut store);
    assert_eq!(res.status, 200);
    // HGETALL order is unspecified, so the check must accept any order.
    assert!(assert_res_ok(
        &res,
        &[],
        &[
            Kvpair::new("b".to_string(), iv(2)),
            Kvpair::new("a".to_string(), iv(1)),
        ]
    ));
    assert!(!assert_res_ok(&res, &[], &[Kvpair::new("a".to_string(), iv(1))]));
}

#[test]
fn empty_request_is_invalid_command() {
    let mut store = MemTable::new();
    let res = dispatch(CommandRequest { request_data: None }, &mut store);
    assert!(assert_res_error(&res, 400, "Cannot parse command"));
}

#[test]
fn frame_round_trip_with_unicode_strings() {
    let cmd = CommandRequest::new_hset(
        "table-\u{00e9}".to_string(),
        "key-\u{4e2d}\u{6587}".to_string(),
        sv("value \u{1f600}"),
    );
    let mut buf: Vec<u8> = Vec::new();
    cmd.encode_frame(&mut buf).unwrap();
    let decoded = CommandRequest::decode_frame(&mut buf).unwrap();
    assert_eq!(decoded, cmd);
}

#[test]
fn response_frame_round_trip() {
    let resp = CommandResponse {
        status: 200,
        message: "fine".to_string(),
        values: vec![iv(1), sv("x"), Value { value: Some(Val::Float(1.5f64.to_bits())) }],
        pairs: vec![Kvpair::new("k".to_string(), Value { value: Some(Val::Binary(vec![1, 2, 3])) })],
    };
    let mut buf: Vec<u8> = Vec::new();
    resp.encode_frame(&mut buf).unwrap();
    let decoded = CommandResponse::decode_frame(&mut buf).unwrap();
    assert_eq!(decoded, resp);
    assert!(buf.is_empty());
}

fn binary_req(n: usize) -> CommandRequest {
    CommandRequest::new_hset(
        "t".to_string(),
        "k".to_string(),
        Value { value: Some(Val::Binary(vec![0xABu8; n])) },
    )
}

#[test]
fn compression_boundary() {
    // Find the payload padding that makes the encoded message exactly 1436
    // bytes long.
    let mut probe: Vec<u8> = Vec::new();
    kv::frame::encode_req(&mut probe, &binary_req(0));
    let overhead = probe.len();
    let at_limit = binary_req(1436 - overhead);
    let over_limit = binary_req(1437 - overhead);

    let mut buf: Vec<u8> = Vec::new();
    at_limit.encode_frame(&mut buf).unwrap();
    // Raw frame: CF=0 and the payload travels unchanged.
    assert_eq!(buf[0] & 0x80, 0);
    assert_eq!(buf.len(), 4 + 1436);
    let decoded = CommandRequest::decode_frame(&mut buf).unwrap();
    assert_eq!(decoded, at_limit);
    assert!(buf.is_empty());

    let mut buf: Vec<u8> = Vec::new();
    over_limit.encode_frame(&mut buf).unwrap();
    // Compressed frame: CF=1.
    assert_eq!(buf[0] & 0x80, 0x80);
    let decoded = CommandRequest::decode_frame(&mut buf).unwrap();
    assert_eq!(decoded, over_limit);
    assert!(buf.is_empty());
}

#[test]
fn oversized_frame_is_rejected() {
    // A header announcing a payload over the 16 MiB cap.
    let mut buf: Vec<u8> = vec![0x01, 0x00, 0x00, 0x01];
    buf.extend_from_slice(&[0u8; 8]);
    let r = CommandRequest::decode_frame(&mut buf);
    assert!(matches!(r, Err(KvError::FrameError(_))));
}

#[test]
fn garbage_payload_is_rejected() {
    // A well-formed header whose payload is no encoded request.
    let mut buf: Vec<u8> = vec![0x00, 0x00, 0x00, 0x02, 0xFF, 0xFF];
    let r = CommandRequest::decode_frame(&mut buf);
    assert!(matches!(r, Err(KvError::DecodeError(_))));
}

#[test]
fn subscribe_publish_unsubscribe_scenario() {
    let mut service: Service = ServiceInner::new(MemTable::new()).into();

    let id1 = match service.execute(CommandRequest::new_subscribe("topicA".to_string())) {
        StreamingResponse::Subscription(id) => id,
        _ => panic!("expected a subscription"),
    };
    let first = service.recv(id1).unwrap();
    assert_eq!(first.values[0], iv(id1 as i64));

    let res = service.execute(CommandRequest::new_publish(
        "topicA".to_string(),
        vec![sv("hello")],
    ));
    let ok = single(res);
    assert_eq!(ok.status, 200);

    let got = service.recv(id1).unwrap();
    assert_eq!(got.status, 200);
    assert_eq!(got.values, vec![sv("hello")]);

    let res = service.execute(CommandRequest::new_unsubscribe("topicA".to_string(), id1));
    assert_eq!(single(res).status, 200);

    service.execute(CommandRequest::new_publish(
        "topicA".to_string(),
        vec![sv("after")],
    ));
    assert!(service.recv(id1).is_none());
}

#[test]
fn unsubscribe_is_idempotent() {
    let mut b = Broadcaster::new();
    let id = b.subscribe("t".to_string());
    assert!(b.unsubscribe("t", id));
    assert!(!b.unsubscribe("t", id));
    b.publish("t", vec![sv("x")]);
    assert!(b.recv(id).is_none());
}

#[test]
fn publish_order_is_preserved() {
    let mut b = Broadcaster::new();
    let id = b.subscribe("t".to_string());
    // Drain the informational id response first.
    let first = b.recv(id).unwrap();
    assert_eq!(first.values[0], iv(id as i64));
    b.publish("t", vec![iv(1)]);
    b.publish("t", vec![iv(2)]);
    b.publish("t", vec![iv(3)]);
    assert_eq!(b.recv(id).unwrap().values, vec![iv(1)]);
    assert_eq!(b.recv(id).unwrap().values, vec![iv(2)]);
    assert_eq!(b.recv(id).unwrap().values, vec![iv(3)]);
    assert!(b.recv(id).is_none());
}

#[test]
fn publish_to_unknown_topic_is_a_noop() {
    let mut b = Broadcaster::new();
    let id = b.subscribe("t".to_string());
    b.recv(id).unwrap();
    b.publish("other", vec![sv("x")]);
    assert!(b.recv(id).is_none());
}

#[test]
fn dispatch_stream_reports_missing_subscription() {
    let mut b = Broadcaster::new();
    let res = dispatch_stream(CommandRequest::new_unsubscribe("t".to_string(), 9), &mut b);
    match res {
        StreamingResponse::Single(r) => assert_eq!(r.status, 404),
        _ => panic!("expected a single response"),
    }
}

#[test]
fn error_messages_render() {
    let e = KvError::NotFound("t".to_string(), "k".to_string());
    assert_eq!(e.message(), "Not found for table: t, key: k");
    assert_eq!(e.status(), 404);
    let e = KvError::InvalidCommand("nope".to_string());
    assert_eq!(e.message(), "Cannot parse command: nope");
    assert_eq!(e.status(), 400);
    let e = KvError::ConvertError("weird".to_string(), "Integer");
    assert_eq!(e.message(), "Cannot convert value weird to Integer");
    assert_eq!(e.status(), 500);
    let e = KvError::StorageError("disk".to_string());
    assert_eq!(e.status(), 500);
    let e = KvError::CertifcateParseError("server", "cert");
    assert_eq!(e.message(), "Certificate parse error: error to load server cert");
    assert_eq!(e.status(), 500);
    let e = KvError::Internal("boom".to_string());
    assert_eq!(e.message(), "Internal error: boom");
    assert_eq!(e.status(), 500);
}

#[test]
fn response_constructors() {
    let ok = CommandResponse::ok();
    assert_eq!(ok.status, 200);
    assert!(ok.message.is_empty());
    let err = CommandResponse::internal_error("bad".to_string());
    assert_eq!(err.status, 500);
    assert_eq!(err.message, "bad");
    let def = CommandResponse::default();
    assert_eq!(def.status, 0);
    let _ = def.format();
    let _ = CommandRequest::new_hget("a".to_string(), "b".to_string()).format();
    let _ = Value::default().format();
}

#[test]
fn value_extractors() {
    assert_eq!(iv(5).as_integer().unwrap(), 5);
    assert!(matches!(sv("x").as_integer(), Err(KvError::ConvertError(_, _))));
    assert_eq!(bv(true).as_bool().unwrap(), true);
    assert!(matches!(iv(1).as_bool(), Err(KvError::ConvertError(_, _))));
    let f = Value { value: Some(Val::Float(2.5f64.to_bits())) };
    assert_eq!(f.as_float_bits().unwrap(), 2.5f64.to_bits());
    let b = Value { value: Some(Val::Binary(vec![9, 8])) };
    assert_eq!(b.as_binary().unwrap(), vec![9, 8]);
    assert!(matches!(Value::default().as_integer(), Err(KvError::ConvertError(_, _))));
}

#[test]
fn response_first_integer() {
    let ok = CommandResponse::ok_values(vec![iv(7)]);
    assert_eq!(ok.first_integer().unwrap(), 7);
    let nf = CommandResponse::from_err(KvError::NotFound("t".to_string(), "k".to_string()));
    assert!(matches!(nf.first_integer(), Err(KvError::ConvertError(_, _))));
    let empty = CommandResponse::ok();
    assert!(matches!(empty.first_integer(), Err(KvError::ConvertError(_, _))));
}

#[test]
fn ivec_key_recovery() {
    assert_eq!(kv::storage::ivec_to_key(b"table:key"), Some("key".to_string()));
    assert_eq!(kv::storage::ivec_to_key(b"t:k:extra"), Some("k".to_string()));
    assert_eq!(kv::storage::ivec_to_key(b"t:"), Some("".to_string()));
    assert_eq!(kv::storage::ivec_to_key(b"nocolon"), None);
    assert_eq!(kv::storage::ivec_to_key(&[0xFFu8, 0x3A]), None);
}

#[test]
fn key_loading_rejects_pem_without_keys() {
    assert!(matches!(
        kv::tls::load_key_der("not a pem file"),
        Err(KvError::CertifcateParseError(_, _))
    ));
    assert!(matches!(
        kv::tls::load_key_der(""),
        Err(KvError::CertifcateParseError(_, _))
    ));
}

#[test]
fn small_frames_always_encode() {
    let cmd = CommandRequest::new_hget("t".to_string(), "k".to_string());
    let mut buf: Vec<u8> = Vec::new();
    assert!(cmd.encode_frame(&mut buf).is_ok());
    let resp = CommandResponse::ok();
    assert!(resp.encode_frame(&mut buf).is_ok());
}
