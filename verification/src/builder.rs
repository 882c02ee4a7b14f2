//! Building of outgoing requests.
//!
//! A request builder owns one counter and turns method calls, subscribe
//! calls and unsubscribe calls into serialized JSON-RPC 2.0 envelopes,
//! handing each one the next unused identifier.

use vstd::prelude::*;

use crate::decoder::{key_id, key_jsonrpc, key_method, version_bytes, Id, SubIdV, SubscriptionId};
use crate::json::{
    arr_suffix_view, bytes_clone, dec_of, lemma_arr_suffix_view, lemma_esc_plain,
    lemma_value_round_trip, plain_byte, ser_items, ser_members, ser_str, ser_val, sp_json,
    wf_items, wf_members, wf_val, write_items, write_str, write_u64, JsonVal, JsonValue,
};

verus! {

/// Positional parameters of a call: either omitted or an array of values.
#[derive(Debug, PartialEq, Eq)]
pub enum Params {
    Omitted,
    Array(Vec<JsonValue>),
}

/// Mathematical model of [`Params`].
pub ghost enum ParamsV {
    Omitted,
    Array(Seq<JsonVal>),
}

impl View for Params {
    type V = ParamsV;

    open spec fn view(&self) -> ParamsV {
        match self {
            Params::Omitted => ParamsV::Omitted,
            Params::Array(es) => ParamsV::Array(arr_suffix_view(*es, 0)),
        }
    }
}

/// What a caller wants invoked: a method name and its parameters.
#[derive(Debug, PartialEq, Eq)]
pub struct CallMessage {
    pub method: Vec<u8>,
    pub params: Params,
}

/// The bytes `{"jsonrpc":"2.0","method":` that open every request envelope.
pub open spec fn lit_req_open() -> Seq<u8> {
    seq![
        0x7b, 0x22, 0x6a, 0x73, 0x6f, 0x6e, 0x72, 0x70, 0x63, 0x22, 0x3a, 0x22, 0x32, 0x2e, 0x30,
        0x22, 0x2c, 0x22, 0x6d, 0x65, 0x74, 0x68, 0x6f, 0x64, 0x22, 0x3a,
    ]
}

/// The bytes `,"params":` that precede the parameter array.
pub open spec fn lit_params() -> Seq<u8> {
    seq![0x2c, 0x22, 0x70, 0x61, 0x72, 0x61, 0x6d, 0x73, 0x22, 0x3a]
}

/// The bytes `,"id":` that precede the identifier.
pub open spec fn lit_id() -> Seq<u8> {
    seq![0x2c, 0x22, 0x69, 0x64, 0x22, 0x3a]
}

/// Serialization of one request envelope: version, method, parameters
/// (omitted entirely when the call has none) and identifier, in that order.
pub open spec fn ser_request(id: int, method: Seq<u8>, params: ParamsV) -> Seq<u8> {
    lit_req_open() + ser_str(method) + (match params {
        ParamsV::Omitted => Seq::<u8>::empty(),
        ParamsV::Array(ps) => lit_params() + seq![0x5b] + ser_items(ps, 0) + seq![0x5d],
    }) + lit_id() + dec_of(id) + seq![0x7d]
}

/// The value a subscription identifier takes inside a parameter list.
pub open spec fn sub_id_val(s: SubIdV) -> JsonVal {
    match s {
        SubIdV::Num(n) => JsonVal::Int(n),
        SubIdV::Str(cs) => JsonVal::Str(cs),
    }
}

/// The identifiers issued by `n` consecutive requests of a builder whose
/// counter stands at `c`: the counter values `c, c+1, …, c+n-1`.
pub open spec fn issued_ids(c: int, n: nat) -> Seq<int> {
    Seq::new(n, |k: int| c + k)
}

/// The identifiers issued by one builder are pairwise distinct and strictly
/// increasing by one; a fresh builder (counter 0) starts at identifier 0.
/// This follows from the request functions' contracts: each returns the
/// counter's current value and advances it by exactly one.
pub proof fn lemma_issued_ids_distinct_increasing(c: int, n: nat)
    ensures
        issued_ids(c, n).len() == n,
        n > 0 ==> issued_ids(c, n)[0] == c,
        forall|k: int| 0 <= k < n - 1 ==> #[trigger] issued_ids(c, n)[k + 1] == issued_ids(
            c,
            n,
        )[k] + 1,
        forall|j: int, k: int|
            0 <= j < k < n ==> #[trigger] issued_ids(c, n)[j] != #[trigger] issued_ids(c, n)[k],
{
}

/// Creates JSON-RPC requests, handing each the next unused identifier.
pub struct RequestBuilder {
    pub id: u64,
}

impl RequestBuilder {
    /// A fresh builder; its first request gets identifier 0.
    pub fn new() -> (r: Self)
        ensures
            r.id == 0,
    {
        RequestBuilder { id: 0 }
    }

    /// Returns the next unused identifier and advances the counter.
    pub fn next_id(&mut self) -> (r: Id)
        requires
            old(self).id < u64::MAX,
        ensures
            final(self).id == old(self).id + 1,
            r == Id::Num(old(self).id),
    {
        let id = self.id;
        self.id = id + 1;
        Id::Num(id)
    }

    /// Builds one request with the next available identifier and serializes
    /// it; serialization of a well-formed envelope cannot fail.
    pub fn single_request(&mut self, method: &Vec<u8>, params: &Params) -> (r: (Id, Vec<u8>))
        requires
            old(self).id < u64::MAX,
        ensures
            final(self).id == old(self).id + 1,
            r.0 == Id::Num(old(self).id),
            r.1@ == ser_request(old(self).id as int, method@, params@),
    {
        let ghost c = self.id;
        let id = self.next_id();
        let mut out: Vec<u8> = Vec::new();
        out.push(0x7b);
        out.push(0x22);
        out.push(0x6a);
        out.push(0x73);
        out.push(0x6f);
        out.push(0x6e);
        out.push(0x72);
        out.push(0x70);
        out.push(0x63);
        out.push(0x22);
        out.push(0x3a);
        out.push(0x22);
        out.push(0x32);
        out.push(0x2e);
        out.push(0x30);
        out.push(0x22);
        out.push(0x2c);
        out.push(0x22);
        out.push(0x6d);
        out.push(0x65);
        out.push(0x74);
        out.push(0x68);
        out.push(0x6f);
        out.push(0x64);
        out.push(0x22);
        out.push(0x3a);
        proof {
            assert(out@ =~= lit_req_open());
        }
        write_str(&mut out, method);
        match params {
            Params::Omitted => {},
            Params::Array(es) => {
                out.push(0x2c);
                out.push(0x22);
                out.push(0x70);
                out.push(0x61);
                out.push(0x72);
                out.push(0x61);
                out.push(0x6d);
                out.push(0x73);
                out.push(0x22);
                out.push(0x3a);
                out.push(0x5b);
                write_items(&mut out, es, 0);
                out.push(0x5d);
                proof {
                    assert(out@ =~= lit_req_open() + ser_str(method@) + (lit_params() + seq![0x5b]
                        + ser_items(arr_suffix_view(*es, 0), 0) + seq![0x5d]));
                }
            },
        }
        out.push(0x2c);
        out.push(0x22);
        out.push(0x69);
        out.push(0x64);
        out.push(0x22);
        out.push(0x3a);
        write_u64(&mut out, self.id - 1);
        out.push(0x7d);
        proof {
            assert(out@ =~= ser_request(c as int, method@, params@));
        }
        (id, out)
    }

    /// Builds the request a call message asks for.
    pub fn call_request(&mut self, msg: &CallMessage) -> (r: (Id, Vec<u8>))
        requires
            old(self).id < u64::MAX,
        ensures
            final(self).id == old(self).id + 1,
            r.0 == Id::Num(old(self).id),
            r.1@ == ser_request(old(self).id as int, msg.method@, msg.params@),
    {
        self.single_request(&msg.method, &msg.params)
    }

    /// Builds a subscribe request: the same envelope, distinguished only by
    /// the caller's intent.
    pub fn subscribe_request(&mut self, subscribe: &Vec<u8>, subscribe_params: &Params) -> (r: (
        Id,
        Vec<u8>,
    ))
        requires
            old(self).id < u64::MAX,
        ensures
            final(self).id == old(self).id + 1,
            r.0 == Id::Num(old(self).id),
            r.1@ == ser_request(old(self).id as int, subscribe@, subscribe_params@),
    {
        self.single_request(subscribe, subscribe_params)
    }

    /// Builds an unsubscribe request whose parameter list is exactly the
    /// one-element array holding the subscription identifier.
    pub fn unsubscribe_request(&mut self, unsubscribe: &Vec<u8>, sid: &SubscriptionId) -> (r: (
        Id,
        Vec<u8>,
    ))
        requires
            old(self).id < u64::MAX,
            sid matches SubscriptionId::Num(n) ==> n <= (i64::MAX as u64),
        ensures
            final(self).id == old(self).id + 1,
            r.0 == Id::Num(old(self).id),
            r.1@ == ser_request(
                old(self).id as int,
                unsubscribe@,
                ParamsV::Array(seq![sub_id_val(sid@)]),
            ),
    {
        let v: JsonValue = match sid {
            SubscriptionId::Num(n) => JsonValue::Int(*n as i64),
            SubscriptionId::Str(s) => JsonValue::Str(bytes_clone(s)),
        };
        let ghost vv = v@;
        let mut ps: Vec<JsonValue> = Vec::new();
        ps.push(v);
        proof {
            lemma_arr_suffix_view(ps, 0);
            assert(arr_suffix_view(ps, 0) =~= seq![vv]);
            assert(vv == sub_id_val(sid@));
        }
        let params = Params::Array(ps);
        self.single_request(unsubscribe, &params)
    }
}

/// The member key `params`.
pub open spec fn key_params() -> Seq<u8> {
    seq![0x70, 0x61, 0x72, 0x61, 0x6d, 0x73]
}

/// The request envelope as an object value: version, method, the
/// parameters when the call has any, and the identifier, in that order.
pub open spec fn request_members(id: int, method: Seq<u8>, params: ParamsV) -> Seq<
    (Seq<u8>, JsonVal),
> {
    seq![
        (key_jsonrpc(), JsonVal::Str(version_bytes())),
        (key_method(), JsonVal::Str(method)),
    ] + (match params {
        ParamsV::Omitted => Seq::<(Seq<u8>, JsonVal)>::empty(),
        ParamsV::Array(ps) => seq![(key_params(), JsonVal::Arr(ps))],
    }) + seq![(key_id(), JsonVal::Int(id))]
}

/// Well-formedness of a parameter list: every value fits the grammar.
pub open spec fn wf_params(params: ParamsV) -> bool {
    match params {
        ParamsV::Omitted => true,
        ParamsV::Array(ps) => wf_items(ps, 0),
    }
}

/// A serialized request is exactly the canonical serialization of its
/// envelope read as an object value.
#[verifier::rlimit(100)]
proof fn lemma_ser_request_is_obj(id: int, method: Seq<u8>, params: ParamsV)
    requires
        0 <= id,
    ensures
        ser_request(id, method, params) == ser_val(JsonVal::Obj(request_members(
            id,
            method,
            params,
        ))),
{
    let rm = request_members(id, method, params);
    assert forall|t: int| 0 <= t < key_jsonrpc().len() implies plain_byte(
        #[trigger] key_jsonrpc()[t],
    ) by {}
    assert forall|t: int| 0 <= t < key_method().len() implies plain_byte(
        #[trigger] key_method()[t],
    ) by {}
    assert forall|t: int| 0 <= t < key_params().len() implies plain_byte(
        #[trigger] key_params()[t],
    ) by {}
    assert forall|t: int| 0 <= t < key_id().len() implies plain_byte(#[trigger] key_id()[t]) by {}
    assert forall|t: int| 0 <= t < version_bytes().len() implies plain_byte(
        #[trigger] version_bytes()[t],
    ) by {}
    lemma_esc_plain(key_jsonrpc(), 0);
    lemma_esc_plain(key_method(), 0);
    lemma_esc_plain(key_params(), 0);
    lemma_esc_plain(key_id(), 0);
    lemma_esc_plain(version_bytes(), 0);
    assert(key_jsonrpc().subrange(0, key_jsonrpc().len() as int) =~= key_jsonrpc());
    assert(key_method().subrange(0, key_method().len() as int) =~= key_method());
    assert(key_params().subrange(0, key_params().len() as int) =~= key_params());
    assert(key_id().subrange(0, key_id().len() as int) =~= key_id());
    assert(version_bytes().subrange(0, version_bytes().len() as int) =~= version_bytes());
    match params {
        ParamsV::Omitted => {
            assert(rm[0] == (key_jsonrpc(), JsonVal::Str(version_bytes())));
            assert(rm[1] == (key_method(), JsonVal::Str(method)));
            assert(rm[2] == (key_id(), JsonVal::Int(id)));
            assert(rm.len() == 3);
            assert(ser_members(rm, 2) == ser_str(key_id()) + seq![0x3a] + ser_val(JsonVal::Int(
                id,
            )));
            assert(ser_members(rm, 1) == ser_str(key_method()) + seq![0x3a] + ser_val(
                JsonVal::Str(method),
            ) + seq![0x2c] + ser_members(rm, 2));
            assert(ser_members(rm, 0) == ser_str(key_jsonrpc()) + seq![0x3a] + ser_val(
                JsonVal::Str(version_bytes()),
            ) + seq![0x2c] + ser_members(rm, 1));
            assert(ser_request(id, method, params) =~= ser_val(JsonVal::Obj(rm)));
        },
        ParamsV::Array(ps) => {
            assert(rm[0] == (key_jsonrpc(), JsonVal::Str(version_bytes())));
            assert(rm[1] == (key_method(), JsonVal::Str(method)));
            assert(rm[2] == (key_params(), JsonVal::Arr(ps)));
            assert(rm[3] == (key_id(), JsonVal::Int(id)));
            assert(rm.len() == 4);
            assert(ser_members(rm, 3) == ser_str(key_id()) + seq![0x3a] + ser_val(JsonVal::Int(
                id,
            )));
            assert(ser_members(rm, 2) == ser_str(key_params()) + seq![0x3a] + ser_val(
                JsonVal::Arr(ps),
            ) + seq![0x2c] + ser_members(rm, 3));
            assert(ser_members(rm, 1) == ser_str(key_method()) + seq![0x3a] + ser_val(
                JsonVal::Str(method),
            ) + seq![0x2c] + ser_members(rm, 2));
            assert(ser_members(rm, 0) == ser_str(key_jsonrpc()) + seq![0x3a] + ser_val(
                JsonVal::Str(version_bytes()),
            ) + seq![0x2c] + ser_members(rm, 1));
            assert(ser_request(id, method, params) =~= ser_val(JsonVal::Obj(rm)));
        },
    }
}

/// Round trip for requests: the serialized text of any built request, for
/// any method name and any well-formed parameters, parses back to exactly
/// its envelope — the same method, the same parameters, the identifier,
/// and the version string.
pub proof fn lemma_request_round_trip(id: int, method: Seq<u8>, params: ParamsV)
    requires
        0 <= id <= i64::MAX as int,
        wf_params(params),
    ensures
        sp_json(ser_request(id, method, params)) == Option::Some(JsonVal::Obj(request_members(
            id,
            method,
            params,
        ))),
{
    let rm = request_members(id, method, params);
    lemma_ser_request_is_obj(id, method, params);
    match params {
        ParamsV::Omitted => {
            assert(rm.len() == 3);
            assert(rm[0].1 == JsonVal::Str(version_bytes()));
            assert(rm[1].1 == JsonVal::Str(method));
            assert(rm[2].1 == JsonVal::Int(id));
            assert(i64::MIN as int <= id <= i64::MAX as int);
            assert(wf_val(JsonVal::Int(id)));
            assert(wf_val(rm[2].1));
            assert(wf_members(rm, 3));
            assert(wf_members(rm, 2));
            assert(wf_val(rm[1].1));
            assert(wf_members(rm, 1));
            assert(wf_val(rm[0].1));
            assert(wf_members(rm, 0));
        },
        ParamsV::Array(ps) => {
            assert(rm.len() == 4);
            assert(rm[0].1 == JsonVal::Str(version_bytes()));
            assert(rm[1].1 == JsonVal::Str(method));
            assert(rm[2].1 == JsonVal::Arr(ps));
            assert(rm[3].1 == JsonVal::Int(id));
            assert(i64::MIN as int <= id <= i64::MAX as int);
            assert(wf_val(JsonVal::Int(id)));
            assert(wf_val(rm[3].1));
            assert(wf_val(JsonVal::Arr(ps)));
            assert(wf_members(rm, 4));
            assert(wf_members(rm, 3));
            assert(wf_members(rm, 2));
            assert(wf_val(rm[1].1));
            assert(wf_members(rm, 1));
            assert(wf_val(rm[0].1));
            assert(wf_members(rm, 0));
        },
    }
    assert(wf_val(JsonVal::Obj(rm)));
    lemma_value_round_trip(JsonVal::Obj(rm));
}

} // verus!
