use jsonrpc_client_core::{parse_json, to_json, JsonValue};

fn bv(s: &str) -> Vec<u8> {
    s.as_bytes().to_vec()
}

#[test]
fn scalars_parse() {
    assert_eq!(parse_json(&bv("null")), Some(JsonValue::Null));
    assert_eq!(parse_json(&bv("true")), Some(JsonValue::Bool(true)));
    assert_eq!(parse_json(&bv("false")), Some(JsonValue::Bool(false)));
    assert_eq!(parse_json(&bv("0")), Some(JsonValue::Int(0)));
    assert_eq!(parse_json(&bv("-12")), Some(JsonValue::Int(-12)));
    assert_eq!(parse_json(&bv("\"hi\"")), Some(JsonValue::Str(bv("hi"))));
}

#[test]
fn escaped_strings_round_trip() {
    let v = JsonValue::Str(vec![0x61, 0x22, 0x5c, 0x0a, 0x09, 0x0d, 0x08, 0x0c, 0x01, 0x62]);
    let text = to_json(&v);
    assert_eq!(
        text,
        bv("\"a\\\"\\\\\\n\\t\\r\\b\\f\\u0001b\"")
    );
    assert_eq!(parse_json(&text), Some(v));
}

#[test]
fn unicode_escapes_decode_to_utf8() {
    assert_eq!(parse_json(&bv("\"\\u0041\"")), Some(JsonValue::Str(bv("A"))));
    assert_eq!(parse_json(&bv("\"\\u007F\"")), Some(JsonValue::Str(vec![0x7f])));
    assert_eq!(
        parse_json(&bv("\"\\u00e9\"")),
        Some(JsonValue::Str(vec![0xc3, 0xa9]))
    );
    assert_eq!(
        parse_json(&bv("\"\\u0100\"")),
        Some(JsonValue::Str(vec![0xc4, 0x80]))
    );
    assert_eq!(
        parse_json(&bv("\"\\u20AC\"")),
        Some(JsonValue::Str(vec![0xe2, 0x82, 0xac]))
    );
}

#[test]
fn lone_surrogate_escapes_are_rejected() {
    assert_eq!(parse_json(&bv("\"\\uD800\"")), None);
    assert_eq!(parse_json(&bv("\"\\uDFFF\"")), None);
}

#[test]
fn raw_utf8_passes_through_strings() {
    let text = bv("\"caf\u{00e9}\"");
    assert_eq!(parse_json(&text), Some(JsonValue::Str(bv("caf\u{00e9}"))));
}

#[test]
fn forward_slash_escape_parses() {
    assert_eq!(parse_json(&bv("\"a\\/b\"")), Some(JsonValue::Str(bv("a/b"))));
}

#[test]
fn leading_zeros_are_rejected() {
    assert_eq!(parse_json(&bv("01")), None);
    assert_eq!(parse_json(&bv("-01")), None);
    assert_eq!(parse_json(&bv("0")), Some(JsonValue::Int(0)));
    assert_eq!(parse_json(&bv("-0")), Some(JsonValue::Int(0)));
}

#[test]
fn the_full_signed_64_bit_range_parses() {
    assert_eq!(
        parse_json(&bv("1234567890123456789")),
        Some(JsonValue::Int(1234567890123456789))
    );
    assert_eq!(
        parse_json(&bv("9223372036854775807")),
        Some(JsonValue::Int(i64::MAX))
    );
    assert_eq!(
        parse_json(&bv("-9223372036854775808")),
        Some(JsonValue::Int(i64::MIN))
    );
}

#[test]
fn values_beyond_the_signed_64_bit_range_are_rejected() {
    assert_eq!(parse_json(&bv("9223372036854775808")), None);
    assert_eq!(parse_json(&bv("-9223372036854775809")), None);
    assert_eq!(parse_json(&bv("99999999999999999999999999")), None);
}

#[test]
fn fractions_and_exponents_are_rejected() {
    assert_eq!(parse_json(&bv("1.5")), None);
    assert_eq!(parse_json(&bv("1e3")), None);
}

#[test]
fn arrays_and_objects_round_trip() {
    let v = JsonValue::Obj(vec![
        (bv("a"), JsonValue::Arr(vec![JsonValue::Int(1), JsonValue::Null])),
        (bv("b"), JsonValue::Obj(vec![])),
        (bv("c"), JsonValue::Bool(true)),
    ]);
    let text = to_json(&v);
    assert_eq!(text, bv("{\"a\":[1,null],\"b\":{},\"c\":true}"));
    assert_eq!(parse_json(&text), Some(v));
}

#[test]
fn trailing_commas_are_rejected() {
    assert_eq!(parse_json(&bv("[1,]")), None);
    assert_eq!(parse_json(&bv("{\"a\":1,}")), None);
}

#[test]
fn unterminated_input_is_rejected() {
    assert_eq!(parse_json(&bv("[1,2")), None);
    assert_eq!(parse_json(&bv("\"abc")), None);
    assert_eq!(parse_json(&bv("{\"a\":1")), None);
    assert_eq!(parse_json(&bv("")), None);
}

#[test]
fn control_bytes_in_strings_must_be_escaped() {
    assert_eq!(parse_json(&vec![0x22, 0x01, 0x22]), None);
    assert_eq!(parse_json(&bv("\"\\u0001\"")), Some(JsonValue::Str(vec![0x01])));
}

#[test]
fn duplicate_keys_keep_the_first_occurrence() {
    let parsed = parse_json(&bv("{\"a\":1,\"a\":2}")).expect("parses");
    assert_eq!(
        parsed,
        JsonValue::Obj(vec![(bv("a"), JsonValue::Int(1)), (bv("a"), JsonValue::Int(2))])
    );
}
