//! Verified core of a JSON-RPC 2.0 client: request building with unique
//! identifiers, and decoding of single or batched responses into per-request
//! outcomes, including recognition of subscription acknowledgements.

pub mod json;
pub mod decoder;
pub mod builder;

pub use builder::{CallMessage, Params, RequestBuilder};
pub use decoder::{parse_response, DecodedOutcome, ErrorObject, Id, RpcError, SubscriptionId};
pub use json::{parse_json, to_json, JsonValue};

