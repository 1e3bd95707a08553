//! The unified failure kinds of the store: domain errors, invariant
//! violations detected at read time, I/O and decoding failures, and errors
//! carried back from a remote peer as text.
use vstd::prelude::*;

verus! {

/// Every way an operation of the store, the server or the client can fail.
///
/// `Io`, `Serde` and `Utf8` carry the failing condition as text; `External`
/// carries a third-party engine failure through unchanged; `StringErr` is an
/// error reported by a remote peer as its display string.
#[derive(Debug)]
pub enum KvsErr {
    KeyNotFound,
    UnexpectedCommandType,
    Io(String),
    Serde(String),
    Utf8(String),
    External(String),
    StringErr(String),
}

impl KvsErr {
    /// The display string of the error, as a remote peer or a user sees it.
    pub fn message(&self) -> (r: String)
        ensures
            r@ == self.spec_message(),
    {
        match self {
            KvsErr::KeyNotFound => "Key not found".to_owned(),
            KvsErr::UnexpectedCommandType => "Unexpected command type".to_owned(),
            KvsErr::Io(s) => s.clone(),
            KvsErr::Serde(s) => s.clone(),
            KvsErr::Utf8(s) => s.clone(),
            KvsErr::External(s) => s.clone(),
            KvsErr::StringErr(s) => s.clone(),
        }
    }

    pub open spec fn spec_message(&self) -> Seq<char> {
        match self {
            KvsErr::KeyNotFound => "Key not found"@,
            KvsErr::UnexpectedCommandType => "Unexpected command type"@,
            KvsErr::Io(s) => s@,
            KvsErr::Serde(s) => s@,
            KvsErr::Utf8(s) => s@,
            KvsErr::External(s) => s@,
            KvsErr::StringErr(s) => s@,
        }
    }
}

} // verus!
