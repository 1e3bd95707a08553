//! The server side of the protocol: one engine, requests dispatched to it
//! one at a time, and exactly one response per request, in request order.
use crate::common::{GetResponse, RemoveResponse, Request, SetResponse};
use crate::engines::KvEngine;
use vstd::prelude::*;

verus! {

/// One response, of the type its request draws.
pub enum Reply {
    OfGet(GetResponse),
    OfSet(SetResponse),
    OfRemove(RemoveResponse),
}

pub open spec fn reply_matches(req: &Request, reply: &Reply) -> bool {
    match req {
        Request::GetKey { key } => reply is OfGet,
        Request::SetKey { key, value } => reply is OfSet,
        Request::RemoveKey { key } => reply is OfRemove,
    }
}

/// How one served request relates the map before it, its reply, and the
/// map after it: a successful reply carries out exactly the requested
/// operation, a failed one leaves the map alone, and a remove of an
/// absent key fails with the domain message.
pub open spec fn serve_step(
    kv0: Map<Seq<char>, Seq<char>>,
    req: &Request,
    reply: &Reply,
    kv1: Map<Seq<char>, Seq<char>>,
) -> bool {
    match req {
        Request::GetKey { key } => kv1 == kv0 && (match reply {
            Reply::OfGet(GetResponse::Done(Some(v))) => kv0.contains_key(key@) && v@ == kv0[key@],
            Reply::OfGet(GetResponse::Done(None)) => !kv0.contains_key(key@),
            Reply::OfGet(GetResponse::Failed(m)) => true,
            _ => false,
        }),
        Request::SetKey { key, value } => (match reply {
            Reply::OfSet(SetResponse::Done(())) => kv1 == kv0.insert(key@, value@),
            Reply::OfSet(SetResponse::Failed(m)) => kv1 == kv0,
            _ => false,
        }),
        Request::RemoveKey { key } => (match reply {
            Reply::OfRemove(RemoveResponse::Done(())) => kv0.contains_key(key@) && kv1
                == kv0.remove(key@),
            Reply::OfRemove(RemoveResponse::Failed(m)) => kv1 == kv0 && (!kv0.contains_key(key@)
                ==> m@ == "Key not found"@),
            _ => false,
        }),
    }
}

/// A server around one engine.
pub struct KvServer<E: KvEngine> {
    engine: E,
}

impl<E: KvEngine> KvServer<E> {
    pub closed spec fn inv(&self) -> bool {
        self.engine.inv()
    }

    pub closed spec fn kv(&self) -> Map<Seq<char>, Seq<char>> {
        self.engine.kv()
    }

    pub fn new(engine: E) -> (r: KvServer<E>)
        ensures
            r.inv() == engine.inv(),
            r.kv() == engine.kv(),
    {
        KvServer { engine }
    }

    /// A view of the engine, for the surrounding program to persist or
    /// inspect it between requests.
    pub fn engine_ref(&self) -> (r: &E)
        ensures
            r.inv() == self.inv(),
            r.kv() == self.kv(),
    {
        &self.engine
    }

    /// Dispatches one request to the engine and turns its outcome into the
    /// matching response; an engine error becomes the error's display
    /// string and does not tear the server down.
    pub fn handle(&mut self, req: Request) -> (reply: Reply)
        requires
            old(self).inv(),
        ensures
            final (self).inv(),
            reply_matches(&req, &reply),
            serve_step(old(self).kv(), &req, &reply, final (self).kv()),
    {
        match req {
            Request::GetKey { key } => match self.engine.get(key) {
                Ok(v) => Reply::OfGet(GetResponse::Done(v)),
                Err(e) => Reply::OfGet(GetResponse::Failed(e.message())),
            },
            Request::SetKey { key, value } => match self.engine.set(key, value) {
                Ok(()) => Reply::OfSet(SetResponse::Done(())),
                Err(e) => Reply::OfSet(SetResponse::Failed(e.message())),
            },
            Request::RemoveKey { key } => match self.engine.remove(key) {
                Ok(()) => Reply::OfRemove(RemoveResponse::Done(())),
                Err(e) => Reply::OfRemove(RemoveResponse::Failed(e.message())),
            },
        }
    }

    /// Serves one connection's requests in order: every request draws
    /// exactly one reply, the replies come back in request order, each
    /// reply's type matches its request's, and some chain of intermediate
    /// maps — from the map at entry to the map at exit — relates every
    /// request to its own reply through [`serve_step`].
    pub fn serve(&mut self, requests: Vec<Request>) -> (replies: Vec<Reply>)
        requires
            old(self).inv(),
        ensures
            final (self).inv(),
            replies@.len() == requests@.len(),
            forall|i: int|
                0 <= i < requests@.len() ==> reply_matches(
                    &requests@[i],
                    &(#[trigger] replies@[i]),
                ),
            exists|states: Seq<Map<Seq<char>, Seq<char>>>|
                {
                    &&& states.len() == requests@.len() + 1
                    &&& states[0] == old(self).kv()
                    &&& states[requests@.len() as int] == final (self).kv()
                    &&& forall|i: int|
                        0 <= i < requests@.len() ==> serve_step(
                            #[trigger] states[i],
                            &requests@[i],
                            &replies@[i],
                            states[i + 1],
                        )
                },
    {
        let ghost reqs = requests@;
        let mut requests = requests;
        let mut replies: Vec<Reply> = Vec::new();
        let ghost mut states: Seq<Map<Seq<char>, Seq<char>>> = seq![old(self).kv()];
        let n = requests.len();
        let mut i: usize = 0;
        while i < n
            invariant
                self.inv(),
                i <= n == reqs.len(),
                requests@ == reqs.skip(i as int),
                replies@.len() == i,
                states.len() == i + 1,
                states[0] == old(self).kv(),
                states[i as int] == self.kv(),
                forall|q: int|
                    0 <= q < i ==> reply_matches(&reqs[q], &(#[trigger] replies@[q])),
                forall|q: int|
                    0 <= q < i ==> serve_step(
                        #[trigger] states[q],
                        &reqs[q],
                        &replies@[q],
                        states[q + 1],
                    ),
            decreases n - i,
        {
            let ghost pre = requests@;
            let req = requests.remove(0);
            proof {
                assert(req == reqs[i as int]);
                assert(requests@ =~= reqs.skip(i + 1));
            }
            let reply = self.handle(req);
            replies.push(reply);
            proof {
                states = states.push(self.kv());
            }
            i = i + 1;
        }
        replies
    }
}

} // verus!
