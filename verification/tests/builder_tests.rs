use jsonrpc_client_core::{parse_json, Id, JsonValue, Params, RequestBuilder, SubscriptionId};

fn bv(s: &str) -> Vec<u8> {
    s.as_bytes().to_vec()
}

fn obj_get<'a>(v: &'a JsonValue, key: &str) -> Option<&'a JsonValue> {
    match v {
        JsonValue::Obj(ms) => {
            for (k, mv) in ms.iter() {
                if k.as_slice() == key.as_bytes() {
                    return Some(mv);
                }
            }
            None
        }
        _ => None,
    }
}

#[test]
fn identifiers_distinct_increasing_from_zero() {
    let mut b = RequestBuilder::new();
    let mut ids: Vec<Id> = Vec::new();
    for _ in 0..5 {
        let (id, _text) = b.single_request(&bv("m"), &Params::Omitted);
        ids.push(id);
    }
    assert_eq!(
        ids,
        vec![Id::Num(0), Id::Num(1), Id::Num(2), Id::Num(3), Id::Num(4)]
    );
    for i in 0..ids.len() {
        for j in 0..i {
            assert!(ids[i] != ids[j]);
        }
    }
}

#[test]
fn next_id_advances_by_one() {
    let mut b = RequestBuilder::new();
    assert_eq!(b.next_id(), Id::Num(0));
    assert_eq!(b.next_id(), Id::Num(1));
    assert_eq!(b.next_id(), Id::Num(2));
}

#[test]
fn call_round_trip_recovers_method_and_params() {
    let mut b = RequestBuilder::new();
    let params = Params::Array(vec![JsonValue::Int(1), JsonValue::Int(2)]);
    let (id, text) = b.single_request(&bv("foo"), &params);
    assert_eq!(id, Id::Num(0));
    assert_eq!(
        text,
        bv("{\"jsonrpc\":\"2.0\",\"method\":\"foo\",\"params\":[1,2],\"id\":0}")
    );
    let parsed = parse_json(&text).expect("request text parses back");
    assert_eq!(obj_get(&parsed, "method"), Some(&JsonValue::Str(bv("foo"))));
    assert_eq!(
        obj_get(&parsed, "params"),
        Some(&JsonValue::Arr(vec![JsonValue::Int(1), JsonValue::Int(2)]))
    );
    assert_eq!(obj_get(&parsed, "id"), Some(&JsonValue::Int(0)));
    assert_eq!(obj_get(&parsed, "jsonrpc"), Some(&JsonValue::Str(bv("2.0"))));
}

#[test]
fn unsubscribe_params_single_element_with_identifier() {
    let mut b = RequestBuilder::new();
    let sid = SubscriptionId::Str(bv("0xabc"));
    let (id, text) = b.unsubscribe_request(&bv("unsub"), &sid);
    assert_eq!(id, Id::Num(0));
    assert_eq!(
        text,
        bv("{\"jsonrpc\":\"2.0\",\"method\":\"unsub\",\"params\":[\"0xabc\"],\"id\":0}")
    );
    let parsed = parse_json(&text).expect("request text parses back");
    assert_eq!(
        obj_get(&parsed, "params"),
        Some(&JsonValue::Arr(vec![JsonValue::Str(bv("0xabc"))]))
    );
}

#[test]
fn unsubscribe_with_numeric_identifier() {
    let mut b = RequestBuilder::new();
    let sid = SubscriptionId::Num(7);
    let (_, text) = b.unsubscribe_request(&bv("unsub"), &sid);
    assert_eq!(
        text,
        bv("{\"jsonrpc\":\"2.0\",\"method\":\"unsub\",\"params\":[7],\"id\":0}")
    );
}

#[test]
fn subscribe_request_uses_same_envelope() {
    let mut b = RequestBuilder::new();
    let params = Params::Array(vec![JsonValue::Str(bv("newHeads"))]);
    let (id, text) = b.subscribe_request(&bv("eth_subscribe"), &params);
    assert_eq!(id, Id::Num(0));
    assert_eq!(
        text,
        bv("{\"jsonrpc\":\"2.0\",\"method\":\"eth_subscribe\",\"params\":[\"newHeads\"],\"id\":0}")
    );
}

#[test]
fn omitted_params_leave_no_params_member() {
    let mut b = RequestBuilder::new();
    let (_, text) = b.single_request(&bv("status"), &Params::Omitted);
    assert_eq!(text, bv("{\"jsonrpc\":\"2.0\",\"method\":\"status\",\"id\":0}"));
    let parsed = parse_json(&text).expect("request text parses back");
    assert_eq!(obj_get(&parsed, "params"), None);
}

#[test]
fn counter_carries_across_request_kinds() {
    let mut b = RequestBuilder::new();
    let (id0, _) = b.single_request(&bv("a"), &Params::Omitted);
    let (id1, _) = b.subscribe_request(&bv("b"), &Params::Omitted);
    let (id2, _) = b.unsubscribe_request(&bv("c"), &SubscriptionId::Str(bv("s")));
    assert_eq!((id0, id1, id2), (Id::Num(0), Id::Num(1), Id::Num(2)));
}

#[test]
fn method_name_is_escaped() {
    let mut b = RequestBuilder::new();
    let (_, text) = b.single_request(&bv("a\"b\\c\nd"), &Params::Omitted);
    assert_eq!(
        text,
        bv("{\"jsonrpc\":\"2.0\",\"method\":\"a\\\"b\\\\c\\nd\",\"id\":0}")
    );
}

#[test]
fn negative_parameter_serialization() {
    let mut b = RequestBuilder::new();
    let params = Params::Array(vec![JsonValue::Int(-5), JsonValue::Int(0)]);
    let (_, text) = b.single_request(&bv("m"), &params);
    assert_eq!(
        text,
        bv("{\"jsonrpc\":\"2.0\",\"method\":\"m\",\"params\":[-5,0],\"id\":0}")
    );
}

#[test]
fn extreme_integer_serialization() {
    let mut b = RequestBuilder::new();
    let params = Params::Array(vec![JsonValue::Int(i64::MIN), JsonValue::Int(i64::MAX)]);
    let (_, text) = b.single_request(&bv("m"), &params);
    assert_eq!(
        text,
        bv("{\"jsonrpc\":\"2.0\",\"method\":\"m\",\"params\":[-9223372036854775808,9223372036854775807],\"id\":0}")
    );
    let parsed = parse_json(&text).expect("request text parses back");
    assert_eq!(
        obj_get(&parsed, "params"),
        Some(&JsonValue::Arr(vec![
            JsonValue::Int(i64::MIN),
            JsonValue::Int(i64::MAX)
        ]))
    );
}

#[test]
fn nested_parameter_values_serialize() {
    let mut b = RequestBuilder::new();
    let inner = JsonValue::Obj(vec![
        (bv("k"), JsonValue::Bool(true)),
        (bv("n"), JsonValue::Null),
    ]);
    let params = Params::Array(vec![JsonValue::Arr(vec![inner]), JsonValue::Bool(false)]);
    let (_, text) = b.single_request(&bv("m"), &params);
    assert_eq!(
        text,
        bv("{\"jsonrpc\":\"2.0\",\"method\":\"m\",\"params\":[[{\"k\":true,\"n\":null}],false],\"id\":0}")
    );
}
