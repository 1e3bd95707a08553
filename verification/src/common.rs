//! The wire protocol's request and response types.  Each request draws
//! exactly one response, whose type is positionally matched to the request;
//! an error crosses the wire as the engine error's display string.
use vstd::prelude::*;

verus! {

/// One client request.
pub enum Request {
    GetKey { key: String },
    SetKey { key: String, value: String },
    RemoveKey { key: String },
}

/// The response to a `Get`: the value if the key is live, nothing on a
/// miss, or the engine's error text.
pub enum GetResponse {
    Done(Option<String>),
    Failed(String),
}

/// The response to a `Set`.
pub enum SetResponse {
    Done(()),
    Failed(String),
}

/// The response to a `Remove`.
pub enum RemoveResponse {
    Done(()),
    Failed(String),
}

} // verus!
