//! Response caching as a middleware. The per-call metadata slot is handed to
//! the resolver, which may set a time-to-live, and then out through every
//! layer's after-step (see `execute`); the caching layer answers from its store
//! on the way in and decides on the way out whether to store the result.
use vstd::prelude::*;
use crate::execute::Next;

verus! {

/// Metadata that inner layers hand back to outer ones during one call.
#[derive(Clone, Copy, Debug, PartialEq, Eq, Structural)]
pub struct ResponseMeta {
    pub cache_ttl: Option<usize>,
}

impl ResponseMeta {
    /// Metadata of a call that has set nothing.
    pub fn new() -> (r: ResponseMeta)
        ensures
            r.cache_ttl is None,
    {
        ResponseMeta { cache_ttl: None }
    }
}

/// Sets the time-to-live, in seconds, of the current response.
pub fn cache_ttl(meta: &mut ResponseMeta, ttl: usize)
    ensures
        final(meta).cache_ttl == Some(ttl),
{
    meta.cache_ttl = Some(ttl);
}

/// The caching layer's decision before the inner call: answer with the cached
/// value when there is one, else forward the call unchanged.
pub fn cache_lookup<C, V, E>(ctx: C, input: V, cached: Option<V>) -> (r: Next<C, V, E>)
    ensures
        r == match cached {
            Some(v) => Next::<C, V, E>::Respond(Ok(v)),
            None => Next::Forward(ctx, input),
        },
{
    match cached {
        Some(v) => Next::Respond(Ok(v)),
        None => Next::Forward(ctx, input),
    }
}

/// The caching layer's decision after the inner call: how long to keep its
/// result, if at all. Only successful results with a time-to-live are kept.
pub fn cache_store_ttl<V, E>(meta: &ResponseMeta, result: &Result<V, (u16, E)>) -> (r: Option<
    usize,
>)
    ensures
        r == if result is Ok {
            meta.cache_ttl
        } else {
            None
        },
{
    match result {
        Ok(_) => meta.cache_ttl,
        Err(_) => None,
    }
}

} // verus!
