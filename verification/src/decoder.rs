//! Decoding of raw response bodies into per-request outcomes.
//!
//! A response body is either a single response object or a batch (an array
//! of response objects). Each object carries an identifier, a success value
//! or an error object, an optional originating method name, and — when the
//! success value is string-shaped — a subscription identifier. A numeric
//! success value is an ordinary result, never an acknowledgement: decoding
//! `42` yields no subscription identifier.

use vstd::prelude::*;

use crate::json::{
    arr_suffix_view, bytes_clone, bytes_eq, lemma_arr_suffix_view, lemma_obj_suffix_view,
    obj_suffix_view, parse_json, sp_json, JsonVal, JsonValue,
};

verus! {

/// Identifier of a response entry, as the remote peer shaped it.
#[derive(Debug, PartialEq, Eq)]
pub enum Id {
    Null,
    Num(u64),
    Str(Vec<u8>),
}

/// Mathematical model of an [`Id`].
pub ghost enum IdV {
    Null,
    Num(int),
    Str(Seq<u8>),
}

impl View for Id {
    type V = IdV;

    open spec fn view(&self) -> IdV {
        match self {
            Id::Null => IdV::Null,
            Id::Num(n) => IdV::Num(*n as int),
            Id::Str(s) => IdV::Str(s@),
        }
    }
}

/// Opaque token that associates notifications with the subscription that
/// produced them. The decoder only ever extracts string-shaped tokens; the
/// numeric variant is for callers that hold a numeric registry key and hand
/// it to the unsubscribe builder.
#[derive(Debug, PartialEq, Eq)]
pub enum SubscriptionId {
    Num(u64),
    Str(Vec<u8>),
}

/// Mathematical model of a [`SubscriptionId`].
pub ghost enum SubIdV {
    Num(int),
    Str(Seq<u8>),
}

impl View for SubscriptionId {
    type V = SubIdV;

    open spec fn view(&self) -> SubIdV {
        match self {
            SubscriptionId::Num(n) => SubIdV::Num(*n as int),
            SubscriptionId::Str(s) => SubIdV::Str(s@),
        }
    }
}

/// Application-level failure reported by the remote peer: code, message and
/// optional data.
#[derive(Debug, PartialEq, Eq)]
pub struct ErrorObject {
    pub code: i64,
    pub message: Vec<u8>,
    pub data: Option<JsonValue>,
}

/// Mathematical model of an [`ErrorObject`].
pub ghost struct ErrorObjectV {
    pub code: int,
    pub message: Seq<u8>,
    pub data: Option<JsonVal>,
}

impl View for ErrorObject {
    type V = ErrorObjectV;

    open spec fn view(&self) -> ErrorObjectV {
        ErrorObjectV {
            code: self.code as int,
            message: self.message@,
            data: match self.data {
                Option::None => Option::None,
                Option::Some(v) => Option::Some(v@),
            },
        }
    }
}

/// Failure of a decode call: either the whole body is malformed — the
/// parse error carries the parser's diagnostic — or a well-formed entry
/// reports a remote error.
#[derive(Debug, PartialEq, Eq)]
pub enum RpcError {
    ParseError(Vec<u8>),
    JsonRpcError(ErrorObject),
}

/// Mathematical model of an [`RpcError`].
pub ghost enum RpcErrorV {
    ParseError(Seq<u8>),
    JsonRpcError(ErrorObjectV),
}

impl View for RpcError {
    type V = RpcErrorV;

    open spec fn view(&self) -> RpcErrorV {
        match self {
            RpcError::ParseError(d) => RpcErrorV::ParseError(d@),
            RpcError::JsonRpcError(e) => RpcErrorV::JsonRpcError(e@),
        }
    }
}

/// The diagnostic `invalid JSON`: the body is not valid JSON text.
pub open spec fn diag_invalid_json() -> Seq<u8> {
    seq![0x69, 0x6e, 0x76, 0x61, 0x6c, 0x69, 0x64, 0x20, 0x4a, 0x53, 0x4f, 0x4e]
}

/// The diagnostic `not a JSON-RPC response`: the body is valid JSON but
/// does not match the response envelope.
pub open spec fn diag_bad_envelope() -> Seq<u8> {
    seq![
        0x6e, 0x6f, 0x74, 0x20, 0x61, 0x20, 0x4a, 0x53, 0x4f, 0x4e, 0x2d, 0x52, 0x50, 0x43, 0x20,
        0x72, 0x65, 0x73, 0x70, 0x6f, 0x6e, 0x73, 0x65,
    ]
}

/// One decoded response entry: its identifier, its success value or error,
/// the originating method name if the wire carried one, and the
/// subscription identifier if the success value denotes one.
#[derive(Debug, PartialEq, Eq)]
pub struct DecodedOutcome {
    pub id: Id,
    pub result: Result<JsonValue, RpcError>,
    pub method: Option<Vec<u8>>,
    pub subscription: Option<SubscriptionId>,
}

/// Mathematical model of a [`DecodedOutcome`].
pub ghost struct OutcomeV {
    pub id: IdV,
    pub result: Result<JsonVal, RpcErrorV>,
    pub method: Option<Seq<u8>>,
    pub subscription: Option<SubIdV>,
}

impl View for DecodedOutcome {
    type V = OutcomeV;

    open spec fn view(&self) -> OutcomeV {
        OutcomeV {
            id: self.id@,
            result: match &self.result {
                Result::Ok(v) => Result::Ok(v@),
                Result::Err(e) => Result::Err(e@),
            },
            method: match &self.method {
                Option::None => Option::None,
                Option::Some(m) => Option::Some(m@),
            },
            subscription: match &self.subscription {
                Option::None => Option::None,
                Option::Some(s) => Option::Some(s@),
            },
        }
    }
}

/// The member key `jsonrpc`.
pub open spec fn key_jsonrpc() -> Seq<u8> {
    seq![0x6a, 0x73, 0x6f, 0x6e, 0x72, 0x70, 0x63]
}

/// The member key `id`.
pub open spec fn key_id() -> Seq<u8> {
    seq![0x69, 0x64]
}

/// The member key `result`.
pub open spec fn key_result() -> Seq<u8> {
    seq![0x72, 0x65, 0x73, 0x75, 0x6c, 0x74]
}

/// The member key `error`.
pub open spec fn key_error() -> Seq<u8> {
    seq![0x65, 0x72, 0x72, 0x6f, 0x72]
}

/// The member key `method`.
pub open spec fn key_method() -> Seq<u8> {
    seq![0x6d, 0x65, 0x74, 0x68, 0x6f, 0x64]
}

/// The member key `code`.
pub open spec fn key_code() -> Seq<u8> {
    seq![0x63, 0x6f, 0x64, 0x65]
}

/// The member key `message`.
pub open spec fn key_message() -> Seq<u8> {
    seq![0x6d, 0x65, 0x73, 0x73, 0x61, 0x67, 0x65]
}

/// The member key `data`.
pub open spec fn key_data() -> Seq<u8> {
    seq![0x64, 0x61, 0x74, 0x61]
}

/// The protocol version string `2.0`.
pub open spec fn version_bytes() -> Seq<u8> {
    seq![0x32, 0x2e, 0x30]
}

/// First member with the given key at index `i` or later; `None` if there
/// is none.
pub open spec fn obj_lookup_from(ms: Seq<(Seq<u8>, JsonVal)>, key: Seq<u8>, i: int) -> Option<
    JsonVal,
>
    decreases ms.len() - i,
{
    if i < 0 || i >= ms.len() {
        Option::None
    } else if ms[i].0 == key {
        Option::Some(ms[i].1)
    } else {
        obj_lookup_from(ms, key, i + 1)
    }
}

/// First member with the given key.
pub open spec fn obj_lookup(ms: Seq<(Seq<u8>, JsonVal)>, key: Seq<u8>) -> Option<JsonVal> {
    obj_lookup_from(ms, key, 0)
}

/// How an entry's `id` member is read: null, a non-negative integer, or a
/// string. Anything else is a schema mismatch.
pub open spec fn sp_decode_id(v: JsonVal) -> Option<IdV> {
    match v {
        JsonVal::Null => Option::Some(IdV::Null),
        JsonVal::Int(i) => if i >= 0 {
            Option::Some(IdV::Num(i))
        } else {
            Option::None
        },
        JsonVal::Str(s) => Option::Some(IdV::Str(s)),
        _ => Option::None,
    }
}

/// A successful result denotes a subscription identifier exactly when it
/// is a string; any other shape yields none, never an error.
pub open spec fn sp_decode_sub_id(v: JsonVal) -> Option<SubIdV> {
    match v {
        JsonVal::Str(s) => Option::Some(SubIdV::Str(s)),
        _ => Option::None,
    }
}

/// How an `error` member is read: an object with an integer `code`, a
/// string `message`, and optional `data`. Unknown members are ignored.
pub open spec fn sp_decode_error(v: JsonVal) -> Option<ErrorObjectV> {
    match v {
        JsonVal::Obj(ms) => match obj_lookup(ms, key_code()) {
            Option::Some(JsonVal::Int(c)) => match obj_lookup(ms, key_message()) {
                Option::Some(JsonVal::Str(m)) => Option::Some(
                    ErrorObjectV { code: c, message: m, data: obj_lookup(ms, key_data()) },
                ),
                _ => Option::None,
            },
            _ => Option::None,
        },
        _ => Option::None,
    }
}

/// The `jsonrpc` member, when present, must hold the version string.
pub open spec fn sp_version_ok(ms: Seq<(Seq<u8>, JsonVal)>) -> bool {
    match obj_lookup(ms, key_jsonrpc()) {
        Option::None => true,
        Option::Some(JsonVal::Str(s)) => s == version_bytes(),
        Option::Some(_) => false,
    }
}

/// How one response object is read. The entry must carry a well-shaped
/// `id`; a `result` member makes it a success (and is inspected for a
/// subscription identifier), otherwise a well-shaped `error` member makes
/// it a remote failure. A string `method` member, if any, is reported.
/// Unknown members are ignored.
pub open spec fn sp_decode_output(ms: Seq<(Seq<u8>, JsonVal)>) -> Option<OutcomeV> {
    if !sp_version_ok(ms) {
        Option::None
    } else {
        match obj_lookup(ms, key_id()) {
            Option::None => Option::None,
            Option::Some(idv) => match sp_decode_id(idv) {
                Option::None => Option::None,
                Option::Some(id) => {
                    let method = match obj_lookup(ms, key_method()) {
                        Option::Some(JsonVal::Str(m)) => Option::Some(m),
                        _ => Option::None,
                    };
                    match obj_lookup(ms, key_result()) {
                        Option::Some(rv) => Option::Some(
                            OutcomeV {
                                id: id,
                                result: Result::Ok(rv),
                                method: method,
                                subscription: sp_decode_sub_id(rv),
                            },
                        ),
                        Option::None => match obj_lookup(ms, key_error()) {
                            Option::Some(ev) => match sp_decode_error(ev) {
                                Option::None => Option::None,
                                Option::Some(eo) => Option::Some(
                                    OutcomeV {
                                        id: id,
                                        result: Result::Err(RpcErrorV::JsonRpcError(eo)),
                                        method: method,
                                        subscription: Option::None,
                                    },
                                ),
                            },
                            Option::None => Option::None,
                        },
                    }
                },
            },
        }
    }
}

/// Decodes the batch entries from index `i` on, in order; any entry that is
/// not a well-shaped response object fails the whole batch.
pub open spec fn sp_decode_outputs_from(es: Seq<JsonVal>, i: int) -> Option<Seq<OutcomeV>>
    decreases es.len() - i,
{
    if i < 0 || i >= es.len() {
        Option::Some(Seq::empty())
    } else {
        match es[i] {
            JsonVal::Obj(ms) => match sp_decode_output(ms) {
                Option::None => Option::None,
                Option::Some(o) => match sp_decode_outputs_from(es, i + 1) {
                    Option::None => Option::None,
                    Option::Some(rest) => Option::Some(seq![o] + rest),
                },
            },
            _ => Option::None,
        }
    }
}

/// What decoding a raw response body yields: a parse failure, or the
/// decoded outcomes of the single response or of each batch entry in order.
/// An empty batch yields the empty sequence.
pub open spec fn sp_parse_response(s: Seq<u8>) -> Result<Seq<OutcomeV>, RpcErrorV> {
    match sp_json(s) {
        Option::None => Result::Err(RpcErrorV::ParseError(diag_invalid_json())),
        Option::Some(v) => match v {
            JsonVal::Obj(ms) => match sp_decode_output(ms) {
                Option::None => Result::Err(RpcErrorV::ParseError(diag_bad_envelope())),
                Option::Some(o) => Result::Ok(seq![o]),
            },
            JsonVal::Arr(es) => match sp_decode_outputs_from(es, 0) {
                Option::None => Result::Err(RpcErrorV::ParseError(diag_bad_envelope())),
                Option::Some(os) => Result::Ok(os),
            },
            _ => Result::Err(RpcErrorV::ParseError(diag_bad_envelope())),
        },
    }
}

/// The element-wise model of a sequence of outcomes.
pub open spec fn outcomes_view(os: Seq<DecodedOutcome>) -> Seq<OutcomeV> {
    os.map_values(|o: DecodedOutcome| o@)
}

/// One decoded entry carries a subscription identifier only alongside a
/// successful result, never alongside an error.
proof fn lemma_output_subscription_needs_success(ms: Seq<(Seq<u8>, JsonVal)>)
    ensures
        sp_decode_output(ms) matches Some(o) ==> (o.subscription is Some ==> o.result is Ok),
{
}

/// In every decoded batch suffix, a subscription identifier only ever
/// accompanies a successful result.
proof fn lemma_outputs_subscription_needs_success(es: Seq<JsonVal>, i: int)
    ensures
        sp_decode_outputs_from(es, i) matches Some(os) ==> forall|k: int|
            0 <= k < os.len() ==> ((#[trigger] os[k]).subscription is Some ==> os[k].result
                is Ok),
    decreases es.len() - i,
{
    if 0 <= i < es.len() {
        lemma_outputs_subscription_needs_success(es, i + 1);
        match es[i] {
            JsonVal::Obj(ms) => {
                lemma_output_subscription_needs_success(ms);
            },
            _ => {},
        }
    }
}

/// A subscription identifier is only ever produced alongside a successful
/// decoded result, never alongside an error result: in every decode, each
/// outcome whose subscription identifier is present reports `Ok`.
pub proof fn lemma_subscription_only_with_success(s: Seq<u8>)
    ensures
        sp_parse_response(s) matches Ok(os) ==> forall|k: int|
            0 <= k < os.len() ==> ((#[trigger] os[k]).subscription is Some ==> os[k].result
                is Ok),
{
    match sp_json(s) {
        Option::Some(JsonVal::Obj(ms)) => {
            lemma_output_subscription_needs_success(ms);
        },
        Option::Some(JsonVal::Arr(es)) => {
            lemma_outputs_subscription_needs_success(es, 0);
        },
        _ => {},
    }
}

/// The member keys told apart by the decoder are pairwise distinct.
proof fn lemma_keys_distinct()
    ensures
        key_jsonrpc() != key_id(),
        key_jsonrpc() != key_result(),
        key_jsonrpc() != key_error(),
        key_jsonrpc() != key_method(),
        key_id() != key_result(),
        key_id() != key_error(),
        key_id() != key_method(),
        key_result() != key_error(),
        key_result() != key_method(),
        key_error() != key_method(),
        key_code() != key_message(),
        key_code() != key_data(),
        key_message() != key_data(),
{
    assert(key_result()[0] != key_method()[0]);
    assert(key_code()[0] != key_data()[0]);
}

fn make_key_jsonrpc() -> (r: Vec<u8>)
    ensures
        r@ == key_jsonrpc(),
{
    let mut v: Vec<u8> = Vec::new();
    v.push(0x6a);
    v.push(0x73);
    v.push(0x6f);
    v.push(0x6e);
    v.push(0x72);
    v.push(0x70);
    v.push(0x63);
    proof {
        assert(v@ =~= key_jsonrpc());
    }
    v
}

fn make_key_id() -> (r: Vec<u8>)
    ensures
        r@ == key_id(),
{
    let mut v: Vec<u8> = Vec::new();
    v.push(0x69);
    v.push(0x64);
    proof {
        assert(v@ =~= key_id());
    }
    v
}

fn make_key_result() -> (r: Vec<u8>)
    ensures
        r@ == key_result(),
{
    let mut v: Vec<u8> = Vec::new();
    v.push(0x72);
    v.push(0x65);
    v.push(0x73);
    v.push(0x75);
    v.push(0x6c);
    v.push(0x74);
    proof {
        assert(v@ =~= key_result());
    }
    v
}

fn make_key_error() -> (r: Vec<u8>)
    ensures
        r@ == key_error(),
{
    let mut v: Vec<u8> = Vec::new();
    v.push(0x65);
    v.push(0x72);
    v.push(0x72);
    v.push(0x6f);
    v.push(0x72);
    proof {
        assert(v@ =~= key_error());
    }
    v
}

fn make_key_method() -> (r: Vec<u8>)
    ensures
        r@ == key_method(),
{
    let mut v: Vec<u8> = Vec::new();
    v.push(0x6d);
    v.push(0x65);
    v.push(0x74);
    v.push(0x68);
    v.push(0x6f);
    v.push(0x64);
    proof {
        assert(v@ =~= key_method());
    }
    v
}

fn make_key_code() -> (r: Vec<u8>)
    ensures
        r@ == key_code(),
{
    let mut v: Vec<u8> = Vec::new();
    v.push(0x63);
    v.push(0x6f);
    v.push(0x64);
    v.push(0x65);
    proof {
        assert(v@ =~= key_code());
    }
    v
}

fn make_key_message() -> (r: Vec<u8>)
    ensures
        r@ == key_message(),
{
    let mut v: Vec<u8> = Vec::new();
    v.push(0x6d);
    v.push(0x65);
    v.push(0x73);
    v.push(0x73);
    v.push(0x61);
    v.push(0x67);
    v.push(0x65);
    proof {
        assert(v@ =~= key_message());
    }
    v
}

fn make_key_data() -> (r: Vec<u8>)
    ensures
        r@ == key_data(),
{
    let mut v: Vec<u8> = Vec::new();
    v.push(0x64);
    v.push(0x61);
    v.push(0x74);
    v.push(0x61);
    proof {
        assert(v@ =~= key_data());
    }
    v
}

fn make_version_bytes() -> (r: Vec<u8>)
    ensures
        r@ == version_bytes(),
{
    let mut v: Vec<u8> = Vec::new();
    v.push(0x32);
    v.push(0x2e);
    v.push(0x30);
    proof {
        assert(v@ =~= version_bytes());
    }
    v
}

fn make_diag_invalid_json() -> (r: Vec<u8>)
    ensures
        r@ == diag_invalid_json(),
{
    let mut v: Vec<u8> = Vec::new();
    v.push(0x69);
    v.push(0x6e);
    v.push(0x76);
    v.push(0x61);
    v.push(0x6c);
    v.push(0x69);
    v.push(0x64);
    v.push(0x20);
    v.push(0x4a);
    v.push(0x53);
    v.push(0x4f);
    v.push(0x4e);
    proof {
        assert(v@ =~= diag_invalid_json());
    }
    v
}

fn make_diag_bad_envelope() -> (r: Vec<u8>)
    ensures
        r@ == diag_bad_envelope(),
{
    let mut v: Vec<u8> = Vec::new();
    v.push(0x6e);
    v.push(0x6f);
    v.push(0x74);
    v.push(0x20);
    v.push(0x61);
    v.push(0x20);
    v.push(0x4a);
    v.push(0x53);
    v.push(0x4f);
    v.push(0x4e);
    v.push(0x2d);
    v.push(0x52);
    v.push(0x50);
    v.push(0x43);
    v.push(0x20);
    v.push(0x72);
    v.push(0x65);
    v.push(0x73);
    v.push(0x70);
    v.push(0x6f);
    v.push(0x6e);
    v.push(0x73);
    v.push(0x65);
    proof {
        assert(v@ =~= diag_bad_envelope());
    }
    v
}

fn decode_sub_id(v: &JsonValue) -> (r: Option<SubscriptionId>)
    ensures
        r is None ==> sp_decode_sub_id(v@) is None,
        r matches Some(s) ==> sp_decode_sub_id(v@) == Option::Some(s@),
{
    match v {
        JsonValue::Str(s) => Option::Some(SubscriptionId::Str(bytes_clone(s))),
        _ => Option::None,
    }
}

fn decode_error(v: JsonValue) -> (r: Option<ErrorObject>)
    ensures
        r is None ==> sp_decode_error(v@) is None,
        r matches Some(e) ==> sp_decode_error(v@) == Option::Some(e@),
{
    let ms = match v {
        JsonValue::Obj(ms) => ms,
        _ => {
            return Option::None;
        },
    };
    let ghost ms0 = ms;
    let ghost msv = obj_suffix_view(ms0, 0);
    proof {
        lemma_obj_suffix_view(ms0, 0);
        lemma_keys_distinct();
    }
    let k_code = make_key_code();
    let k_message = make_key_message();
    let k_data = make_key_data();
    let mut ms = ms;
    proof {
        assert(ms@ =~= ms0@.subrange(0, ms@.len() as int));
    }
    let mut code_slot: Option<JsonValue> = Option::None;
    let mut message_slot: Option<JsonValue> = Option::None;
    let mut data_slot: Option<JsonValue> = Option::None;
    while ms.len() > 0
        invariant
            msv == obj_suffix_view(ms0, 0),
            msv.len() == ms0@.len(),
            forall|t: int| 0 <= t < ms0@.len() ==> msv[t] == (ms0@[t].0@, ms0@[t].1@),
            ms@.len() <= ms0@.len(),
            ms@ == ms0@.subrange(0, ms@.len() as int),
            k_code@ == key_code(),
            k_message@ == key_message(),
            k_data@ == key_data(),
            match code_slot {
                Option::None => obj_lookup_from(msv, key_code(), ms@.len() as int) is None,
                Option::Some(v) => obj_lookup_from(msv, key_code(), ms@.len() as int)
                    == Option::Some(v@),
            },
            match message_slot {
                Option::None => obj_lookup_from(msv, key_message(), ms@.len() as int) is None,
                Option::Some(v) => obj_lookup_from(msv, key_message(), ms@.len() as int)
                    == Option::Some(v@),
            },
            match data_slot {
                Option::None => obj_lookup_from(msv, key_data(), ms@.len() as int) is None,
                Option::Some(v) => obj_lookup_from(msv, key_data(), ms@.len() as int)
                    == Option::Some(v@),
            },
        decreases ms@.len(),
    {
        let last: usize = ms.len() - 1;
        let (mk, mv) = ms.remove(last);
        proof {
            assert(ms@ =~= ms0@.subrange(0, ms@.len() as int));
        }
        if bytes_eq(&mk, &k_code) {
            code_slot = Option::Some(mv);
        } else if bytes_eq(&mk, &k_message) {
            message_slot = Option::Some(mv);
        } else if bytes_eq(&mk, &k_data) {
            data_slot = Option::Some(mv);
        }
    }
    let code: i64 = match code_slot {
        Option::Some(JsonValue::Int(c)) => c,
        _ => {
            return Option::None;
        },
    };
    let message: Vec<u8> = match message_slot {
        Option::Some(JsonValue::Str(m)) => m,
        _ => {
            return Option::None;
        },
    };
    Option::Some(ErrorObject { code, message, data: data_slot })
}

fn decode_output(ms: Vec<(Vec<u8>, JsonValue)>) -> (r: Option<DecodedOutcome>)
    ensures
        r is None ==> sp_decode_output(obj_suffix_view(ms, 0)) is None,
        r matches Some(o) ==> sp_decode_output(obj_suffix_view(ms, 0)) == Option::Some(o@),
{
    let ghost ms0 = ms;
    let ghost msv = obj_suffix_view(ms0, 0);
    proof {
        lemma_obj_suffix_view(ms0, 0);
        lemma_keys_distinct();
    }
    let k_jsonrpc = make_key_jsonrpc();
    let k_id = make_key_id();
    let k_result = make_key_result();
    let k_error = make_key_error();
    let k_method = make_key_method();
    let mut ms = ms;
    proof {
        assert(ms@ =~= ms0@.subrange(0, ms@.len() as int));
    }
    let mut ver_slot: Option<JsonValue> = Option::None;
    let mut id_slot: Option<JsonValue> = Option::None;
    let mut result_slot: Option<JsonValue> = Option::None;
    let mut error_slot: Option<JsonValue> = Option::None;
    let mut method_slot: Option<JsonValue> = Option::None;
    while ms.len() > 0
        invariant
            msv == obj_suffix_view(ms0, 0),
            msv.len() == ms0@.len(),
            forall|t: int| 0 <= t < ms0@.len() ==> msv[t] == (ms0@[t].0@, ms0@[t].1@),
            ms@.len() <= ms0@.len(),
            ms@ == ms0@.subrange(0, ms@.len() as int),
            k_jsonrpc@ == key_jsonrpc(),
            k_id@ == key_id(),
            k_result@ == key_result(),
            k_error@ == key_error(),
            k_method@ == key_method(),
            match ver_slot {
                Option::None => obj_lookup_from(msv, key_jsonrpc(), ms@.len() as int) is None,
                Option::Some(v) => obj_lookup_from(msv, key_jsonrpc(), ms@.len() as int)
                    == Option::Some(v@),
            },
            match id_slot {
                Option::None => obj_lookup_from(msv, key_id(), ms@.len() as int) is None,
                Option::Some(v) => obj_lookup_from(msv, key_id(), ms@.len() as int)
                    == Option::Some(v@),
            },
            match result_slot {
                Option::None => obj_lookup_from(msv, key_result(), ms@.len() as int) is None,
                Option::Some(v) => obj_lookup_from(msv, key_result(), ms@.len() as int)
                    == Option::Some(v@),
            },
            match error_slot {
                Option::None => obj_lookup_from(msv, key_error(), ms@.len() as int) is None,
                Option::Some(v) => obj_lookup_from(msv, key_error(), ms@.len() as int)
                    == Option::Some(v@),
            },
            match method_slot {
                Option::None => obj_lookup_from(msv, key_method(), ms@.len() as int) is None,
                Option::Some(v) => obj_lookup_from(msv, key_method(), ms@.len() as int)
                    == Option::Some(v@),
            },
        decreases ms@.len(),
    {
        let last: usize = ms.len() - 1;
        let (mk, mv) = ms.remove(last);
        proof {
            assert(ms@ =~= ms0@.subrange(0, ms@.len() as int));
        }
        if bytes_eq(&mk, &k_jsonrpc) {
            ver_slot = Option::Some(mv);
        } else if bytes_eq(&mk, &k_id) {
            id_slot = Option::Some(mv);
        } else if bytes_eq(&mk, &k_result) {
            result_slot = Option::Some(mv);
        } else if bytes_eq(&mk, &k_error) {
            error_slot = Option::Some(mv);
        } else if bytes_eq(&mk, &k_method) {
            method_slot = Option::Some(mv);
        }
    }
    match ver_slot {
        Option::None => {},
        Option::Some(JsonValue::Str(s)) => {
            let v20 = make_version_bytes();
            if !bytes_eq(&s, &v20) {
                return Option::None;
            }
        },
        Option::Some(_) => {
            return Option::None;
        },
    }
    let id: Id = match id_slot {
        Option::None => {
            return Option::None;
        },
        Option::Some(JsonValue::Null) => Id::Null,
        Option::Some(JsonValue::Int(i)) => {
            if i >= 0 {
                Id::Num(i as u64)
            } else {
                return Option::None;
            }
        },
        Option::Some(JsonValue::Str(s)) => Id::Str(s),
        Option::Some(_) => {
            return Option::None;
        },
    };
    let method: Option<Vec<u8>> = match method_slot {
        Option::Some(JsonValue::Str(m)) => Option::Some(m),
        _ => Option::None,
    };
    match result_slot {
        Option::Some(rv) => {
            let subscription = decode_sub_id(&rv);
            Option::Some(
                DecodedOutcome { id, result: Result::Ok(rv), method, subscription },
            )
        },
        Option::None => {
            match error_slot {
                Option::Some(ev) => {
                    match decode_error(ev) {
                        Option::Some(eo) => Option::Some(
                            DecodedOutcome {
                                id,
                                result: Result::Err(RpcError::JsonRpcError(eo)),
                                method,
                                subscription: Option::None,
                            },
                        ),
                        Option::None => Option::None,
                    }
                },
                Option::None => Option::None,
            }
        },
    }
}

/// Decodes a raw response body into one outcome per response entry, in
/// entry order. A malformed body, or any malformed entry, aborts the whole
/// decode with a parse error; an empty batch yields no outcomes and no
/// error. The outcomes are exactly what `sp_parse_response` assigns to the
/// input bytes.
pub fn parse_response(response: &Vec<u8>) -> (r: Result<Vec<DecodedOutcome>, RpcError>)
    ensures
        r matches Ok(os) ==> sp_parse_response(response@) == Result::<Seq<OutcomeV>, RpcErrorV>::Ok(outcomes_view(os@)),
        r matches Err(e) ==> sp_parse_response(response@) == Result::<Seq<OutcomeV>, RpcErrorV>::Err(e@),
{
    let v = match parse_json(response) {
        Option::None => {
            return Result::Err(RpcError::ParseError(make_diag_invalid_json()));
        },
        Option::Some(v) => v,
    };
    match v {
        JsonValue::Obj(ms) => {
            match decode_output(ms) {
                Option::None => Result::Err(RpcError::ParseError(make_diag_bad_envelope())),
                Option::Some(o) => {
                    let mut os: Vec<DecodedOutcome> = Vec::new();
                    let ghost ov = o@;
                    os.push(o);
                    proof {
                        assert(outcomes_view(os@) =~= seq![ov]);
                    }
                    Result::Ok(os)
                },
            }
        },
        JsonValue::Arr(es) => {
            let ghost es0 = es;
            let ghost esv = arr_suffix_view(es0, 0);
            proof {
                lemma_arr_suffix_view(es0, 0);
                assert(sp_json(response@) == Option::Some(JsonVal::Arr(esv)));
            }
            let mut es = es;
            let mut os: Vec<DecodedOutcome> = Vec::new();
            let ghost mut done: int = 0;
            proof {
                assert(es@ =~= es0@.subrange(done, es0@.len() as int));
            }
            while es.len() > 0
                invariant
                    sp_json(response@) == Option::Some(JsonVal::Arr(esv)),
                    esv == arr_suffix_view(es0, 0),
                    esv.len() == es0@.len(),
                    forall|t: int| 0 <= t < es0@.len() ==> esv[t] == es0@[t]@,
                    0 <= done,
                    done + es@.len() == es0@.len(),
                    es@ == es0@.subrange(done, es0@.len() as int),
                    os@.len() == done,
                    match sp_decode_outputs_from(esv, done) {
                        Option::None => sp_decode_outputs_from(esv, 0) is None,
                        Option::Some(rest) => sp_decode_outputs_from(esv, 0) == Option::Some(
                            outcomes_view(os@) + rest,
                        ),
                    },
                decreases es@.len(),
            {
                let e = es.remove(0);
                proof {
                    assert(es@ =~= es0@.subrange(done + 1, es0@.len() as int));
                    assert(e == es0@[done]);
                    assert(esv[done] == e@);
                }
                let ms = match e {
                    JsonValue::Obj(ms) => ms,
                    _ => {
                        proof {
                            assert(sp_decode_outputs_from(esv, done) is None);
                            assert(sp_decode_outputs_from(esv, 0) is None);
                        }
                        return Result::Err(RpcError::ParseError(make_diag_bad_envelope()));
                    },
                };
                let ghost msv = obj_suffix_view(ms, 0);
                proof {
                    assert(esv[done] == JsonVal::Obj(msv));
                }
                match decode_output(ms) {
                    Option::None => {
                        proof {
                            assert(sp_decode_outputs_from(esv, done) is None);
                            assert(sp_decode_outputs_from(esv, 0) is None);
                        }
                        return Result::Err(RpcError::ParseError(make_diag_bad_envelope()));
                    },
                    Option::Some(o) => {
                        let ghost osv0 = outcomes_view(os@);
                        let ghost ov = o@;
                        os.push(o);
                        proof {
                            done = done + 1;
                            assert(outcomes_view(os@) =~= osv0 + seq![ov]);
                            match sp_decode_outputs_from(esv, done) {
                                Option::None => {},
                                Option::Some(rest) => {
                                    assert(outcomes_view(os@) + rest =~= osv0 + (seq![ov]
                                        + rest));
                                },
                            }
                        }
                    },
                }
            }
            proof {
                assert(es0@.subrange(done, es0@.len() as int).len() == 0);
                assert(sp_decode_outputs_from(esv, done) == Option::Some(
                    Seq::<OutcomeV>::empty(),
                ));
                assert(outcomes_view(os@) + Seq::<OutcomeV>::empty() =~= outcomes_view(os@));
            }
            Result::Ok(os)
        },
        _ => Result::Err(RpcError::ParseError(make_diag_bad_envelope())),
    }
}

} // verus!
