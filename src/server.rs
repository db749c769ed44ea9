use vstd::prelude::*;

use crate::common::KvsEngine;
use crate::net::{answers, Request, Response};
use crate::thread_pool::ThreadPool;

verus! {

/// A server: the engine it serves and the pool its connections run on.
pub struct Server<T: KvsEngine, U: ThreadPool> {
    engine: T,
    pool: U,
}

impl<T: KvsEngine, U: ThreadPool> Server<T, U> {
    pub closed spec fn spec_engine(self) -> T {
        self.engine
    }

    pub closed spec fn spec_pool(self) -> U {
        self.pool
    }

    pub fn new(engine: T, pool: U) -> (r: Self)
        ensures
            r.spec_engine() == engine,
            r.spec_pool() == pool,
    {
        Server { engine, pool }
    }

    pub fn engine(&self) -> (r: &T)
        ensures
            *r == self.spec_engine(),
    {
        &self.engine
    }

    pub fn pool(&self) -> (r: &U)
        ensures
            *r == self.spec_pool(),
    {
        &self.pool
    }
}

/// Serves one request: the engine call it names, and the response of the
/// matching variant that carries the call's result (see `Response::for_get`
/// and its siblings for what each result becomes).
pub fn handle_request<T: KvsEngine>(engine: &T, request: Request) -> (r: Response)
    ensures
        answers(request, r),
{
    match request {
        Request::Get { key } => Response::for_get(engine.get(key)),
        Request::Put { key, value } => Response::for_set(engine.set(key, value)),
        Request::Remove { key } => Response::for_remove(engine.remove(key)),
    }
}

} // verus!
