use vstd::prelude::*;

use crate::error::{kind_message, Error, ErrorKind, Result};

verus! {

/// A request, client to server.
#[derive(Debug, Clone, PartialEq, Eq)]
pub enum Request {
    Get { key: String },
    Put { key: String, value: String },
    Remove { key: String },
}

/// A response, server to client: one per request, of the request's variant,
/// carrying the engine's result with any error flattened to its message.
#[derive(Debug, PartialEq, Eq)]
pub enum Response {
    Get(core::result::Result<Option<String>, String>),
    Put(core::result::Result<(), String>),
    Remove(core::result::Result<(), String>),
}

/// Whether `resp` is of the variant that answers `req`.
pub open spec fn answers(req: Request, resp: Response) -> bool {
    match req {
        Request::Get { .. } => resp is Get,
        Request::Put { .. } => resp is Put,
        Request::Remove { .. } => resp is Remove,
    }
}

/// Whether the wire result `w` carries the engine result `r`: its value, or
/// its error's message.
pub open spec fn carries<T>(w: core::result::Result<T, String>, r: Result<T>) -> bool {
    match r {
        Ok(v) => w == Ok::<T, String>(v),
        Err(e) => w matches Err(m) && m@ == kind_message(e.kind),
    }
}

/// The wire form of an engine result.
fn flatten<T>(r: Result<T>) -> (w: core::result::Result<T, String>)
    ensures
        carries(w, r),
{
    match r {
        Ok(v) => Ok(v),
        Err(e) => Err(e.as_string()),
    }
}

/// Whether `r` is what a client makes of the wire result `w`: its value, or
/// a `Remote` error with its message.
pub open spec fn surfaces<T>(r: Result<T>, w: core::result::Result<T, String>) -> bool {
    match w {
        Ok(v) => r == Ok::<T, Error>(v),
        Err(m) => r matches Err(e) && e.kind == ErrorKind::Remote(m),
    }
}

fn surface<T>(w: core::result::Result<T, String>) -> (r: Result<T>)
    ensures
        surfaces(r, w),
{
    match w {
        Ok(v) => Ok(v),
        Err(m) => Err(Error::new(ErrorKind::Remote(m))),
    }
}

fn unexpected<T>() -> (r: Result<T>)
    ensures
        r matches Err(e) && e.kind is InvalidFormat,
{
    Err(Error::new(ErrorKind::InvalidFormat(String::from_str("no response of the expected kind"))))
}

impl Response {
    pub fn set(result: core::result::Result<(), String>) -> (r: Response)
        ensures
            r == Response::Put(result),
    {
        Response::Put(result)
    }

    pub fn get(result: core::result::Result<Option<String>, String>) -> (r: Response)
        ensures
            r == Response::Get(result),
    {
        Response::Get(result)
    }

    pub fn remove(result: core::result::Result<(), String>) -> (r: Response)
        ensures
            r == Response::Remove(result),
    {
        Response::Remove(result)
    }

    /// The response to a `Get` whose engine call returned `r`.
    pub fn for_get(r: Result<Option<String>>) -> (resp: Response)
        ensures
            resp matches Response::Get(w) && carries(w, r),
    {
        Response::Get(flatten(r))
    }

    /// The response to a `Put` whose engine call returned `r`.
    pub fn for_set(r: Result<()>) -> (resp: Response)
        ensures
            resp matches Response::Put(w) && carries(w, r),
    {
        Response::Put(flatten(r))
    }

    /// The response to a `Remove` whose engine call returned `r`.
    pub fn for_remove(r: Result<()>) -> (resp: Response)
        ensures
            resp matches Response::Remove(w) && carries(w, r),
    {
        Response::Remove(flatten(r))
    }

    /// What a client's `get` returns for the response it read (`None`: the
    /// stream ended): the payload of a `Get` response, its error as a
    /// `Remote` error, and `InvalidFormat` for any other response or none.
    pub fn into_get(resp: Option<Response>) -> (r: Result<Option<String>>)
        ensures
            match resp {
                Some(Response::Get(w)) => surfaces(r, w),
                _ => r matches Err(e) && e.kind is InvalidFormat,
            },
    {
        match resp {
            Some(Response::Get(w)) => surface(w),
            _ => unexpected(),
        }
    }

    /// What a client's `set` returns for the response it read.
    pub fn into_set(resp: Option<Response>) -> (r: Result<()>)
        ensures
            match resp {
                Some(Response::Put(w)) => surfaces(r, w),
                _ => r matches Err(e) && e.kind is InvalidFormat,
            },
    {
        match resp {
            Some(Response::Put(w)) => surface(w),
            _ => unexpected(),
        }
    }

    /// What a client's `remove` returns for the response it read.
    pub fn into_remove(resp: Option<Response>) -> (r: Result<()>)
        ensures
            match resp {
                Some(Response::Remove(w)) => surfaces(r, w),
                _ => r matches Err(e) && e.kind is InvalidFormat,
            },
    {
        match resp {
            Some(Response::Remove(w)) => surface(w),
            _ => unexpected(),
        }
    }
}

} // verus!
