use zcash_txshape::auth::basic_auth_header;
use zcash_txshape::rpc::{
    block_shapes, extract_shape, first_call, next_step, read_block_reply, CallOutcome, FetchError,
    FetchStep, Json, RpcCall,
};

fn obj(fields: Vec<(&str, Json)>) -> Json {
    Json::Object(fields.into_iter().map(|(k, v)| (k.to_string(), v)).collect())
}

fn list(n: usize) -> Json {
    Json::Array((0..n).map(|_| Json::Null).collect())
}

fn block_reply(txs: Vec<Json>) -> Json {
    obj(vec![
        ("result", obj(vec![("height", Json::UInt(10)), ("tx", Json::Array(txs))])),
        ("error", Json::Null),
        ("id", Json::Str("txshape".to_string())),
    ])
}

#[test]
fn extract_shape_counts_lists_and_applies_defaults() {
    let tx = obj(vec![
        ("size", Json::UInt(600)),
        ("vin", list(2)),
        ("vout", list(3)),
        ("vShieldedSpend", list(1)),
        ("orchard", obj(vec![("actions", list(4))])),
    ]);
    let s = extract_shape(&tx).unwrap();
    assert_eq!(s.n_vin, 2);
    assert_eq!(s.n_vout, 3);
    assert_eq!(s.n_joinsplit, 0);
    assert_eq!(s.n_sapling_spend, 1);
    assert_eq!(s.n_sapling_output, 0);
    assert_eq!(s.n_orchard_action, 4);
    assert_eq!(s.size_bucket, 2);
    assert_eq!(s.version, 1);

    let bare = extract_shape(&obj(vec![("orchard", Json::Null), ("vin", Json::Null)])).unwrap();
    assert_eq!(bare.n_vin, 0);
    assert_eq!(bare.size_bucket, 0);
    assert_eq!(bare.version, 1);
    let versioned = extract_shape(&obj(vec![("version", Json::UInt(5)), ("size", Json::UInt(5000))])).unwrap();
    assert_eq!(versioned.version, 5);
    assert_eq!(versioned.size_bucket, 5);
}

#[test]
fn extract_shape_refuses_unexpected_shapes() {
    assert_eq!(extract_shape(&Json::Null).err(), Some(FetchError::Parse));
    assert_eq!(extract_shape(&obj(vec![("vin", Json::UInt(3))])).err(), Some(FetchError::Parse));
    assert_eq!(extract_shape(&obj(vec![("size", Json::OtherNumber)])).err(), Some(FetchError::Parse));
    assert_eq!(extract_shape(&obj(vec![("size", Json::UInt(1 << 40))])).err(), Some(FetchError::Parse));
    assert_eq!(extract_shape(&obj(vec![("orchard", list(1))])).err(), Some(FetchError::Parse));
}

#[test]
fn block_without_tx_list_is_empty() {
    assert_eq!(block_shapes(&obj(vec![("height", Json::UInt(3))])).unwrap().len(), 0);
    assert_eq!(block_shapes(&obj(vec![("height", Json::Str("x".to_string()))])).err(), Some(FetchError::Parse));
    assert_eq!(block_shapes(&Json::Bool(true)).err(), Some(FetchError::Parse));
}

#[test]
fn block_reply_gives_every_shape() {
    let body = Some(block_reply(vec![obj(vec![("vin", list(1))]), obj(vec![("vout", list(2))])]));
    let shapes = read_block_reply(200, "", &body).unwrap().unwrap();
    assert_eq!(shapes.len(), 2);
    assert_eq!(shapes[0].n_vin, 1);
    assert_eq!(shapes[1].n_vout, 2);
}

#[test]
fn reply_envelope_rules() {
    assert_eq!(read_block_reply(404, "  not found\n", &Some(Json::Null)).err(), Some(FetchError::Status(404, "not found".to_string())));
    assert_eq!(read_block_reply(200, "<html>", &None).err(), Some(FetchError::Parse));
    let null_result = Some(obj(vec![("result", Json::Null)]));
    assert!(read_block_reply(200, "", &null_result).unwrap().is_none());
    let error_only = Some(obj(vec![("error", obj(vec![("code", Json::OtherNumber)]))]));
    assert!(read_block_reply(200, "", &error_only).unwrap().is_none());
    let neither = Some(obj(vec![("id", Json::UInt(1))]));
    assert_eq!(read_block_reply(200, "", &neither).err(), Some(FetchError::MissingResult));
    let bad_tx = Some(block_reply(vec![Json::UInt(1)]));
    assert_eq!(read_block_reply(200, "", &bad_tx).err(), Some(FetchError::Parse));
}

#[test]
fn null_result_by_height_means_no_data_without_fallback() {
    let call = first_call(7);
    assert_eq!(call, RpcCall::BlockByHeight(7));
    let outcome = CallOutcome::Reply(200, String::new(), Some(obj(vec![("result", Json::Null), ("error", Json::Null)])));
    match next_step(&call, &outcome) {
        FetchStep::Done(Ok(None)) => {}
        _ => panic!("expected no data"),
    }
}

#[test]
fn server_not_ready_falls_back_to_block_hash() {
    let call = first_call(9);
    let step = next_step(&call, &CallOutcome::Reply(500, "Internal error".to_string(), None));
    let hash_call = match step {
        FetchStep::Call(c) => c,
        _ => panic!("expected a fallback request"),
    };
    assert_eq!(hash_call, RpcCall::HashOfHeight(9));
    let reply = CallOutcome::Reply(200, String::new(), Some(obj(vec![("result", Json::Str("00ab".to_string()))])));
    let by_hash = match next_step(&hash_call, &reply) {
        FetchStep::Call(c) => c,
        _ => panic!("expected a request by hash"),
    };
    assert_eq!(by_hash, RpcCall::BlockByHash("00ab".to_string()));
    let body = Some(block_reply(vec![obj(vec![("vin", list(1))])]));
    match next_step(&by_hash, &CallOutcome::Reply(200, String::new(), body)) {
        FetchStep::Done(Ok(Some(v))) => assert_eq!(v.len(), 1),
        _ => panic!("expected the block"),
    }
}

#[test]
fn fallback_ends_without_data_or_with_errors() {
    let hash_call = RpcCall::HashOfHeight(3);
    match next_step(&hash_call, &CallOutcome::Reply(503, " busy ".to_string(), None)) {
        FetchStep::Done(Err(FetchError::Status(503, text))) => assert_eq!(text, "busy"),
        _ => panic!("expected the status error"),
    }
    match next_step(&hash_call, &CallOutcome::Reply(200, "oops".to_string(), None)) {
        FetchStep::Done(Err(FetchError::Parse)) => {}
        _ => panic!("expected a parse error"),
    }
    match next_step(&hash_call, &CallOutcome::Reply(200, String::new(), Some(obj(vec![("result", Json::UInt(5))])))) {
        FetchStep::Done(Err(FetchError::Parse)) => {}
        _ => panic!("expected a parse error"),
    }
    match next_step(&hash_call, &CallOutcome::Reply(200, String::new(), Some(obj(vec![("id", Json::UInt(1))])))) {
        FetchStep::Done(Err(FetchError::MissingResult)) => {}
        _ => panic!("expected a missing result"),
    }
    match next_step(&hash_call, &CallOutcome::Reply(200, String::new(), Some(obj(vec![("result", Json::Null)])))) {
        FetchStep::Done(Ok(None)) => {}
        _ => panic!("expected no data"),
    }
    match next_step(&hash_call, &CallOutcome::Reply(200, String::new(), Some(obj(vec![("error", Json::Str("x".to_string()))])))) {
        FetchStep::Done(Ok(None)) => {}
        _ => panic!("expected no data"),
    }
    match next_step(&hash_call, &CallOutcome::TransportFailed) {
        FetchStep::Done(Err(FetchError::Transport)) => {}
        _ => panic!("expected a transport error"),
    }
    match next_step(&first_call(3), &CallOutcome::Reply(503, "no".to_string(), None)) {
        FetchStep::Done(Err(FetchError::Status(503, text))) => assert_eq!(text, "no"),
        _ => panic!("expected the status error"),
    }
    match next_step(&first_call(3), &CallOutcome::TransportFailed) {
        FetchStep::Done(Err(FetchError::Transport)) => {}
        _ => panic!("expected a transport error"),
    }
}

#[test]
fn basic_auth_header_encodes_credentials() {
    let h = basic_auth_header(&Some("user".to_string()), &Some("pass".to_string()));
    assert_eq!(h, Some("Basic dXNlcjpwYXNz".to_string()));
    let only_user = basic_auth_header(&Some("user".to_string()), &None);
    assert_eq!(only_user, Some("Basic dXNlcjo=".to_string()));
    assert_eq!(basic_auth_header(&None, &None), None);
}
