use jsonrpc_client_core::{
    parse_response, DecodedOutcome, ErrorObject, Id, JsonValue, RpcError, SubscriptionId,
};

fn bv(s: &str) -> Vec<u8> {
    s.as_bytes().to_vec()
}

fn decode(s: &str) -> Result<Vec<DecodedOutcome>, RpcError> {
    parse_response(&bv(s))
}

fn invalid_json() -> Result<Vec<DecodedOutcome>, RpcError> {
    Err(RpcError::ParseError(bv("invalid JSON")))
}

fn bad_envelope() -> Result<Vec<DecodedOutcome>, RpcError> {
    Err(RpcError::ParseError(bv("not a JSON-RPC response")))
}

#[test]
fn single_success_yields_one_outcome() {
    let os = decode("{\"jsonrpc\":\"2.0\",\"id\":0,\"result\":42}").expect("decodes");
    assert_eq!(os.len(), 1);
    assert_eq!(os[0].id, Id::Num(0));
    assert_eq!(os[0].result, Ok(JsonValue::Int(42)));
    assert_eq!(os[0].method, None);
    assert_eq!(os[0].subscription, None);
}

#[test]
fn batch_success_and_error_in_order() {
    let os = decode(
        "[{\"jsonrpc\":\"2.0\",\"id\":0,\"result\":1},{\"jsonrpc\":\"2.0\",\"id\":1,\"error\":{\"code\":-32601,\"message\":\"not found\"}}]",
    )
    .expect("decodes");
    assert_eq!(os.len(), 2);
    assert_eq!(os[0].id, Id::Num(0));
    assert_eq!(os[0].result, Ok(JsonValue::Int(1)));
    assert_eq!(os[1].id, Id::Num(1));
    assert_eq!(
        os[1].result,
        Err(RpcError::JsonRpcError(ErrorObject {
            code: -32601,
            message: bv("not found"),
            data: None,
        }))
    );
    assert_eq!(os[1].subscription, None);
}

#[test]
fn malformed_text_is_a_parse_error() {
    let r = decode("not json");
    assert!(matches!(r, Err(RpcError::ParseError(_))));
    assert_eq!(r, invalid_json());
}

#[test]
fn empty_batch_yields_no_outcomes_and_no_error() {
    assert_eq!(decode("[]"), Ok(vec![]));
}

#[test]
fn string_result_is_a_subscription_acknowledgement() {
    let os = decode("{\"jsonrpc\":\"2.0\",\"id\":1,\"result\":\"0xdeadbeef\"}").expect("decodes");
    assert_eq!(os[0].result, Ok(JsonValue::Str(bv("0xdeadbeef"))));
    assert_eq!(os[0].subscription, Some(SubscriptionId::Str(bv("0xdeadbeef"))));
}

#[test]
fn numeric_result_is_no_subscription_acknowledgement() {
    let os = decode("{\"jsonrpc\":\"2.0\",\"id\":1,\"result\":7}").expect("decodes");
    assert_eq!(os[0].subscription, None);
}

#[test]
fn error_entry_never_carries_a_subscription() {
    let os = decode(
        "{\"jsonrpc\":\"2.0\",\"id\":2,\"error\":{\"code\":1,\"message\":\"m\",\"data\":\"0xabc\"}}",
    )
    .expect("decodes");
    assert_eq!(os[0].subscription, None);
    assert_eq!(
        os[0].result,
        Err(RpcError::JsonRpcError(ErrorObject {
            code: 1,
            message: bv("m"),
            data: Some(JsonValue::Str(bv("0xabc"))),
        }))
    );
}

#[test]
fn method_member_is_reported_when_present() {
    let os = decode("{\"jsonrpc\":\"2.0\",\"id\":3,\"result\":true,\"method\":\"chain_newHead\"}")
        .expect("decodes");
    assert_eq!(os[0].method, Some(bv("chain_newHead")));
}

#[test]
fn unknown_members_are_ignored() {
    let os = decode("{\"jsonrpc\":\"2.0\",\"id\":4,\"result\":null,\"extra\":[1,2],\"x\":{}}")
        .expect("decodes");
    assert_eq!(os[0].id, Id::Num(4));
    assert_eq!(os[0].result, Ok(JsonValue::Null));
}

#[test]
fn wrong_version_is_a_parse_error() {
    assert_eq!(
        decode("{\"jsonrpc\":\"1.0\",\"id\":0,\"result\":1}"),
        bad_envelope()
    );
}

#[test]
fn missing_version_is_tolerated() {
    let os = decode("{\"id\":0,\"result\":1}").expect("decodes");
    assert_eq!(os[0].id, Id::Num(0));
}

#[test]
fn missing_id_is_a_parse_error() {
    assert_eq!(
        decode("{\"jsonrpc\":\"2.0\",\"result\":1}"),
        bad_envelope()
    );
}

#[test]
fn null_and_string_ids_are_tolerated() {
    let os = decode("{\"jsonrpc\":\"2.0\",\"id\":null,\"error\":{\"code\":0,\"message\":\"\"}}")
        .expect("decodes");
    assert_eq!(os[0].id, Id::Null);
    let os = decode("{\"jsonrpc\":\"2.0\",\"id\":\"abc\",\"result\":1}").expect("decodes");
    assert_eq!(os[0].id, Id::Str(bv("abc")));
}

#[test]
fn negative_id_is_a_parse_error() {
    assert_eq!(
        decode("{\"jsonrpc\":\"2.0\",\"id\":-1,\"result\":1}"),
        bad_envelope()
    );
}

#[test]
fn error_without_code_or_message_is_a_parse_error() {
    assert_eq!(
        decode("{\"jsonrpc\":\"2.0\",\"id\":0,\"error\":{\"message\":\"m\"}}"),
        bad_envelope()
    );
    assert_eq!(
        decode("{\"jsonrpc\":\"2.0\",\"id\":0,\"error\":{\"code\":1}}"),
        bad_envelope()
    );
}

#[test]
fn entry_with_neither_result_nor_error_is_a_parse_error() {
    assert_eq!(
        decode("{\"jsonrpc\":\"2.0\",\"id\":0}"),
        bad_envelope()
    );
}

#[test]
fn malformed_batch_entry_aborts_the_whole_decode() {
    assert_eq!(
        decode("[{\"jsonrpc\":\"2.0\",\"id\":0,\"result\":1},5]"),
        bad_envelope()
    );
}

#[test]
fn whitespace_around_and_inside_is_tolerated() {
    assert_eq!(decode("  [ ]  "), Ok(vec![]));
    let os = decode(" { \"jsonrpc\" : \"2.0\" , \"id\" : 0 , \"result\" : 42 } ")
        .expect("decodes");
    assert_eq!(os[0].result, Ok(JsonValue::Int(42)));
}

#[test]
fn trailing_garbage_is_a_parse_error() {
    assert_eq!(
        decode("{\"jsonrpc\":\"2.0\",\"id\":0,\"result\":1}x"),
        invalid_json()
    );
}

#[test]
fn top_level_scalar_is_a_parse_error() {
    assert_eq!(decode("42"), bad_envelope());
    assert_eq!(decode("\"not a response\""), bad_envelope());
    assert_eq!(decode("true"), bad_envelope());
}

#[test]
fn nested_result_values_decode() {
    let os = decode("{\"jsonrpc\":\"2.0\",\"id\":0,\"result\":[[1,[]],{\"a\":false}]}")
        .expect("decodes");
    assert_eq!(
        os[0].result,
        Ok(JsonValue::Arr(vec![
            JsonValue::Arr(vec![JsonValue::Int(1), JsonValue::Arr(vec![])]),
            JsonValue::Obj(vec![(bv("a"), JsonValue::Bool(false))]),
        ]))
    );
}

#[test]
fn batch_of_three_preserves_order() {
    let os = decode(
        "[{\"id\":2,\"result\":\"b\"},{\"id\":0,\"result\":\"a\"},{\"id\":1,\"result\":\"c\"}]",
    )
    .expect("decodes");
    assert_eq!(os.len(), 3);
    assert_eq!(os[0].id, Id::Num(2));
    assert_eq!(os[1].id, Id::Num(0));
    assert_eq!(os[2].id, Id::Num(1));
}

#[test]
fn nineteen_digit_ids_decode() {
    let os = decode("{\"jsonrpc\":\"2.0\",\"id\":9223372036854775807,\"result\":1}")
        .expect("decodes");
    assert_eq!(os[0].id, Id::Num(9223372036854775807));
}
