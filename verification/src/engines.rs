//! The engine capability: `set`, `get` and `remove` over string keys and
//! values, with last-writer-wins semantics expressed through a ghost map
//! from key to value.
use crate::errors::KvsErr;
use vstd::prelude::*;

pub mod kvs;

pub use kvs::KvStore;
pub use kvs::COMPACTION_THRESHOLD;

verus! {

/// A key-value engine.  `kv` is the ghost map of live keys to values and
/// `inv` the engine's internal invariant; every implementation must keep
/// the map in step with the three operations.  `remove` of an absent key
/// fails, and a mutation that returns must be durable by the
/// implementation's own means.
pub trait KvEngine: Sized {
    spec fn inv(&self) -> bool;

    spec fn kv(&self) -> Map<Seq<char>, Seq<char>>;

    /// Sets the value of `key` to `value`.
    fn set(&mut self, key: String, value: String) -> (r: Result<(), KvsErr>)
        requires
            old(self).inv(),
        ensures
            final (self).inv(),
            r is Ok ==> final (self).kv() == old(self).kv().insert(key@, value@),
            r is Err ==> final (self).kv() == old(self).kv(),
    ;

    /// Returns the value of `key`, or nothing if the key is absent.
    fn get(&mut self, key: String) -> (r: Result<Option<String>, KvsErr>)
        requires
            old(self).inv(),
        ensures
            final (self).inv(),
            final (self).kv() == old(self).kv(),
            r matches Ok(Some(v)) ==> old(self).kv().contains_key(key@) && v@ == old(self).kv()[key@],
            r matches Ok(None) ==> !old(self).kv().contains_key(key@),
    ;

    /// Removes `key`; with the key absent it fails, and the failure is the
    /// domain condition `KeyNotFound`.
    fn remove(&mut self, key: String) -> (r: Result<(), KvsErr>)
        requires
            old(self).inv(),
        ensures
            final (self).inv(),
            r is Ok ==> old(self).kv().contains_key(key@) && final (self).kv() == old(
                self,
            ).kv().remove(key@),
            r matches Err(e) ==> final (self).kv() == old(self).kv() && (!old(
                self,
            ).kv().contains_key(key@) ==> e is KeyNotFound),
    ;
}

} // verus!
