//! The execution engine: a decoded input runs through the middleware chain,
//! outermost layer first, to the resolver, and comes back as a sequence of
//! frames closed by one terminal marker.
use vstd::prelude::*;
use crate::cache::ResponseMeta;

verus! {

/// The errors a call can surface as a frame.
pub enum ProcedureError<E> {
    /// No procedure is registered at the requested path.
    NotFound,
    /// The input payload does not match the declared input.
    InputDecode,
    /// A middleware layer answered with its own error.
    Middleware { status: u16, error: E },
    /// The resolver returned its declared error.
    Resolver { status: u16, error: E },
    /// A produced value could not be serialised.
    OutputEncode,
}

impl<E> ProcedureError<E> {
    pub open spec fn spec_status(&self) -> u16 {
        match self {
            ProcedureError::NotFound => 404,
            ProcedureError::InputDecode => 400,
            ProcedureError::Middleware { status, .. } => *status,
            ProcedureError::Resolver { status, .. } => *status,
            ProcedureError::OutputEncode => 500,
        }
    }

    /// The status code this error is reported with.
    pub fn status(&self) -> (r: u16)
        ensures
            r == self.spec_status(),
    {
        match self {
            ProcedureError::NotFound => 404,
            ProcedureError::InputDecode => 400,
            ProcedureError::Middleware { status, .. } => *status,
            ProcedureError::Resolver { status, .. } => *status,
            ProcedureError::OutputEncode => 500,
        }
    }
}

/// One frame sent back to a caller: a status code with a value or an error, or
/// the terminal marker.
pub enum Frame<V, E> {
    Item { code: u16, body: Result<V, ProcedureError<E>> },
    Done,
}

/// What a middleware layer does with a call: forward a (possibly changed)
/// context and input to the next step, or answer without it.
pub enum Next<C, V, E> {
    Forward(C, V),
    Respond(Result<V, (u16, E)>),
}

/// What a resolver produces: one result for a query or a mutation, or, for a
/// subscription, its own stream of results, which is handed on unchanged.
pub enum ResolverOutput<V, E, S> {
    Single(Result<V, (u16, E)>),
    Stream(S),
}

/// One call of a middleware layer: what it received and what it decided.
pub struct Step<C, V, E> {
    pub ctx: C,
    pub input: V,
    pub decision: Next<C, V, E>,
}

/// One call of a middleware layer's after-step: the layer, the inner result
/// and metadata it received, and what it passed outwards.
pub struct Unwind<V, E> {
    pub layer: usize,
    pub result: Result<V, (u16, E)>,
    pub meta: ResponseMeta,
    pub out: (Result<V, (u16, E)>, ResponseMeta),
}

/// The outcome of a call: its frames, or the subscription stream whose items
/// the transport turns into frames one by one; the response metadata as the
/// outermost layer left it; with the record of the layers that ran on the way
/// in and on the way out, and whether the resolver ran.
pub struct Execution<C, V, E, S> {
    pub frames: Vec<Frame<V, E>>,
    pub stream: Option<S>,
    pub meta: ResponseMeta,
    pub trace: Ghost<Seq<Step<C, V, E>>>,
    pub unwind: Ghost<Seq<Unwind<V, E>>>,
    pub resolver_ran: bool,
}

/// Metadata that nothing has filled yet.
pub open spec fn fresh_meta() -> ResponseMeta {
    ResponseMeta { cache_ttl: None }
}

/// The result and metadata after the first `n` after-steps of `u`, starting
/// from `r0` and `m0`.
pub open spec fn unwound_to<V, E>(
    u: Seq<Unwind<V, E>>,
    n: int,
    r0: Result<V, (u16, E)>,
    m0: ResponseMeta,
) -> (Result<V, (u16, E)>, ResponseMeta) {
    if n == 0 {
        (r0, m0)
    } else {
        u[n - 1].out
    }
}

/// Each step of `u` ran the after-step of layer `k - 1`, then `k - 2`, and so
/// on outwards, each on what the step before it passed out, starting from `r0`
/// and `m0`.
pub open spec fn after_steps<V, E, A: Fn(usize, Result<V, (u16, E)>, ResponseMeta) -> (
    Result<V, (u16, E)>,
    ResponseMeta,
)>(after: A, u: Seq<Unwind<V, E>>, k: int, r0: Result<V, (u16, E)>, m0: ResponseMeta) -> bool {
    forall|m: int|
        0 <= m < u.len() ==> (#[trigger] u[m]).layer == k - 1 - m && (u[m].result, u[m].meta)
            == unwound_to(u, m, r0, m0) && after.ensures((u[m].layer, u[m].result, u[m].meta), u[m].out)
}

/// The frame of a single result; `layer` tells whether a middleware layer or
/// the resolver produced it.
pub open spec fn result_frame<V, E>(r: Result<V, (u16, E)>, layer: bool) -> Frame<V, E> {
    match r {
        Ok(v) => Frame::Item { code: 200, body: Ok(v) },
        Err((status, error)) => Frame::Item {
            code: status,
            body: Err(
                if layer {
                    ProcedureError::Middleware { status, error }
                } else {
                    ProcedureError::Resolver { status, error }
                },
            ),
        },
    }
}

/// How a resolver's output is handed back: a single result as its frame and
/// the terminal marker, a stream as it is, with no frame yet.
pub open spec fn handed_back<V, E, S>(
    out: ResolverOutput<V, E, S>,
    frames: Seq<Frame<V, E>>,
    stream: Option<S>,
) -> bool {
    match out {
        ResolverOutput::Single(r) => frames == seq![result_frame(r, false), Frame::Done]
            && stream is None,
        ResolverOutput::Stream(st) => frames.len() == 0 && stream == Some(st),
    }
}

/// A frame sequence closed by exactly one terminal marker.
pub open spec fn terminated<V, E>(f: Seq<Frame<V, E>>) -> bool {
    &&& f.len() > 0
    &&& f.last() is Done
    &&& forall|i: int| 0 <= i < f.len() - 1 ==> (#[trigger] f[i]) is Item
}

/// The context and input handed to the step after the first `n` steps of `t`.
pub open spec fn handed_on<C, V, E>(t: Seq<Step<C, V, E>>, n: int, c0: C, v0: V) -> (C, V) {
    if n == 0 {
        (c0, v0)
    } else {
        match t[n - 1].decision {
            Next::Forward(c, v) => (c, v),
            Next::Respond(_) => (c0, v0),
        }
    }
}

/// Each step of `t` ran layer `i` on what the step before it handed on, and
/// every step but possibly the last forwarded.
pub open spec fn chain_ran<C, V, E, L: Fn(usize, C, V) -> Next<C, V, E>>(
    layer: L,
    t: Seq<Step<C, V, E>>,
    c0: C,
    v0: V,
) -> bool {
    &&& forall|i: int|
        0 <= i < t.len() ==> (#[trigger] t[i]).ctx == handed_on(t, i, c0, v0).0 && t[i].input
            == handed_on(t, i, c0, v0).1
    &&& forall|i: int|
        0 <= i < t.len() ==> layer.ensures(((i as usize), t[i].ctx, t[i].input), #[trigger] t[i].decision)
    &&& forall|i: int| 0 <= i < t.len() - 1 ==> (#[trigger] t[i]).decision is Forward
}

/// The frames of a call whose input could not be decoded.
pub open spec fn decode_failure_frames<V, E>() -> Seq<Frame<V, E>> {
    seq![Frame::Item { code: 400, body: Err(ProcedureError::InputDecode) }, Frame::Done]
}

/// The frames of a call to a path with no procedure.
pub open spec fn not_found_frames<V, E>() -> Seq<Frame<V, E>> {
    seq![Frame::Item { code: 404, body: Err(ProcedureError::NotFound) }, Frame::Done]
}

/// The frames answering a call to a path with no procedure.
pub fn not_found<V, E>() -> (r: Vec<Frame<V, E>>)
    ensures
        r@ == not_found_frames::<V, E>(),
        terminated(r@),
{
    let mut r: Vec<Frame<V, E>> = Vec::new();
    r.push(Frame::Item { code: 404, body: Err(ProcedureError::NotFound) });
    r.push(Frame::Done);
    assert(r@ =~= not_found_frames::<V, E>());
    r
}

/// The frame of one item of a subscription stream.
pub fn item_frame<V, E>(item: Result<V, (u16, E)>) -> (r: Frame<V, E>)
    ensures
        r == result_frame(item, false),
{
    match item {
        Ok(v) => Frame::Item { code: 200, body: Ok(v) },
        Err((status, error)) => Frame::Item {
            code: status,
            body: Err(ProcedureError::Resolver { status, error }),
        },
    }
}

/// The terminal marker that closes a subscription stream.
pub fn done_frame<V, E>() -> (r: Frame<V, E>)
    ensures
        r is Done,
{
    Frame::Done
}

/// Runs the after-steps of layers `k - 1` down to `0` on `r0` and `m0`.
fn run_after<V, E, A>(after: &A, k: usize, r0: Result<V, (u16, E)>, m0: ResponseMeta) -> (r: (
    Result<V, (u16, E)>,
    ResponseMeta,
    Ghost<Seq<Unwind<V, E>>>,
))
    where
        A: Fn(usize, Result<V, (u16, E)>, ResponseMeta) -> (Result<V, (u16, E)>, ResponseMeta),
    requires
        forall|j: usize, x: Result<V, (u16, E)>, m: ResponseMeta| j < k ==> after.requires((j, x, m)),
    ensures
        r.2@.len() == k,
        after_steps(*after, r.2@, k as int, r0, m0),
        (r.0, r.1) == unwound_to(r.2@, k as int, r0, m0),
{
    let mut res = r0;
    let mut meta = m0;
    let mut j: usize = k;
    let ghost mut u: Seq<Unwind<V, E>> = Seq::empty();
    while j > 0
        invariant
            j <= k,
            u.len() == k - j,
            after_steps(*after, u, k as int, r0, m0),
            (res, meta) == unwound_to(u, u.len() as int, r0, m0),
            forall|j2: usize, x: Result<V, (u16, E)>, m: ResponseMeta|
                j2 < k ==> after.requires((j2, x, m)),
        decreases j,
    {
        let ghost gres = res;
        let ghost gmeta = meta;
        let out = after(j - 1, res, meta);
        proof {
            let step = Unwind { layer: (j - 1) as usize, result: gres, meta: gmeta, out };
            let u0 = u;
            u = u.push(step);
            assert forall|m: int| 0 <= m < u.len() implies (#[trigger] u[m]).layer == k - 1 - m && (
            u[m].result, u[m].meta) == unwound_to(u, m, r0, m0) && after.ensures(
                (u[m].layer, u[m].result, u[m].meta),
                u[m].out,
            ) by {
                if m < u0.len() {
                    assert(u[m] == u0[m]);
                    if m > 0 {
                        assert(u[m - 1] == u0[m - 1]);
                    }
                } else if m > 0 {
                    assert(u[m - 1] == u0[m - 1]);
                }
            }
        }
        res = out.0;
        meta = out.1;
        j = j - 1;
    }
    (res, meta, Ghost(u))
}

/// The frame of a single result, closed by the terminal marker.
fn single_frames<V, E>(res: Result<V, (u16, E)>, layer: bool) -> (r: Vec<Frame<V, E>>)
    ensures
        r@ == seq![result_frame(res, layer), Frame::Done],
{
    let ghost gres = res;
    let frame = match res {
        Ok(val) => Frame::Item { code: 200, body: Ok(val) },
        Err((status, error)) => Frame::Item {
            code: status,
            body: Err(
                if layer {
                    ProcedureError::Middleware { status, error }
                } else {
                    ProcedureError::Resolver { status, error }
                },
            ),
        },
    };
    let mut frames: Vec<Frame<V, E>> = Vec::new();
    frames.push(frame);
    frames.push(Frame::Done);
    assert(frames@ =~= seq![result_frame(gres, layer), Frame::Done]);
    frames
}

/// Runs a call. `input` is the decoded input, `None` when decoding failed.
/// Each of the `layers` middleware layers has a step on the way in,
/// `layer(i, ctx, input)`, outermost first, and a step on the way out,
/// `after(i, result, meta)`, innermost first. `resolver` runs last on the way
/// in, with fresh response metadata that it may fill.
///
/// A decoding failure yields one `InputDecode` frame and runs nothing. Otherwise
/// the layers' in-steps run in order, each on what the one before it forwarded,
/// until one answers itself: then no inner step and not the resolver runs, and
/// the after-steps of the layers outside it run on its answer. When all
/// forward, the resolver runs on what the last one forwarded; a single result
/// goes out through every layer's after-step, and its final form is the one
/// frame. A subscription's stream is handed back as it is, with no frame, for
/// the transport to close. Every frame sequence ends with one terminal marker.
pub fn execute<C, V, E, S, L, A, R>(
    layers: usize,
    layer: &L,
    after: &A,
    resolver: R,
    ctx: C,
    input: Option<V>,
) -> (r: Execution<C, V, E, S>)
    where
        L: Fn(usize, C, V) -> Next<C, V, E>,
        A: Fn(usize, Result<V, (u16, E)>, ResponseMeta) -> (Result<V, (u16, E)>, ResponseMeta),
        R: FnOnce(C, V, ResponseMeta) -> (ResolverOutput<V, E, S>, ResponseMeta),
    requires
        forall|i: usize, c: C, v: V| i < layers ==> layer.requires((i, c, v)),
        forall|i: usize, x: Result<V, (u16, E)>, m: ResponseMeta|
            i < layers ==> after.requires((i, x, m)),
        forall|c: C, v: V, m: ResponseMeta| resolver.requires((c, v, m)),
    ensures
        r.stream is None ==> terminated(r.frames@),
        input is None ==> r.frames@ == decode_failure_frames::<V, E>() && r.trace@.len() == 0
            && r.unwind@.len() == 0 && !r.resolver_ran && r.meta == fresh_meta(),
        input is Some ==> {
            &&& r.trace@.len() <= layers
            &&& chain_ran(*layer, r.trace@, ctx, input->Some_0)
            &&& r.resolver_ran == (r.trace@.len() == layers && (layers == 0
                || r.trace@.last().decision is Forward))
            &&& !r.resolver_ran ==> r.trace@.len() > 0 && r.stream is None
                && r.unwind@.len() == r.trace@.len() - 1 && match r.trace@.last().decision {
                Next::Respond(res) => {
                    let fin = unwound_to(r.unwind@, r.unwind@.len() as int, res, fresh_meta());
                    &&& after_steps(*after, r.unwind@, r.unwind@.len() as int, res, fresh_meta())
                    &&& r.frames@ == seq![result_frame(fin.0, true), Frame::Done]
                    &&& r.meta == fin.1
                },
                Next::Forward(_, _) => false,
            }
            &&& r.resolver_ran ==> exists|out: ResolverOutput<V, E, S>, m: ResponseMeta|
                #[trigger] resolver.ensures(
                    (
                        handed_on(r.trace@, layers as int, ctx, input->Some_0).0,
                        handed_on(r.trace@, layers as int, ctx, input->Some_0).1,
                        fresh_meta(),
                    ),
                    (out, m),
                ) && match out {
                    ResolverOutput::Single(res) => {
                        let fin = unwound_to(r.unwind@, layers as int, res, m);
                        &&& r.unwind@.len() == layers
                        &&& after_steps(*after, r.unwind@, layers as int, res, m)
                        &&& r.frames@ == seq![result_frame(fin.0, false), Frame::Done]
                        &&& r.stream is None
                        &&& r.meta == fin.1
                    },
                    ResolverOutput::Stream(st) => r.unwind@.len() == 0 && r.frames@.len() == 0
                        && r.stream == Some(st) && r.meta == m,
                }
        },
{
    let ghost gin = input;
    let ghost gctx = ctx;
    let v0 = match input {
        Some(v) => v,
        None => {
            let mut frames: Vec<Frame<V, E>> = Vec::new();
            frames.push(Frame::Item { code: 400, body: Err(ProcedureError::InputDecode) });
            frames.push(Frame::Done);
            assert(frames@ =~= decode_failure_frames::<V, E>());
            return Execution {
                frames,
                stream: None,
                meta: ResponseMeta { cache_ttl: None },
                trace: Ghost(Seq::empty()),
                unwind: Ghost(Seq::empty()),
                resolver_ran: false,
            };
        },
    };
    let ghost c0 = ctx;
    let ghost gv0 = v0;
    let mut c = ctx;
    let mut v = v0;
    let mut i: usize = 0;
    let ghost mut trace: Seq<Step<C, V, E>> = Seq::empty();
    while i < layers
        invariant
            i <= layers,
            trace.len() == i,
            chain_ran(*layer, trace, c0, gv0),
            i > 0 ==> trace.last().decision is Forward,
            (c, v) == handed_on(trace, i as int, c0, gv0),
            gin == Some(gv0),
            gctx == c0,
            gin == input,
            gctx == ctx,
            forall|j: usize, c: C, v: V| j < layers ==> layer.requires((j, c, v)),
            forall|j: usize, x: Result<V, (u16, E)>, m: ResponseMeta|
                j < layers ==> after.requires((j, x, m)),
        decreases layers - i,
    {
        let ghost gc = c;
        let ghost gv = v;
        let d = layer(i, c, v);
        proof {
            trace = trace.push(Step { ctx: gc, input: gv, decision: d });
            assert forall|j: int| 0 <= j < trace.len() implies (#[trigger] trace[j]).ctx
                == handed_on(trace, j, c0, gv0).0 && trace[j].input == handed_on(
                trace,
                j,
                c0,
                gv0,
            ).1 by {
                if j > 0 {
                    assert(trace[j - 1] == trace.drop_last()[j - 1]);
                }
            }
            assert forall|j: int| 0 <= j < trace.len() implies layer.ensures(
                ((j as usize), trace[j].ctx, trace[j].input),
                #[trigger] trace[j].decision,
            ) by {
                if j < trace.len() - 1 {
                    assert(trace[j] == trace.drop_last()[j]);
                }
            }
            assert forall|j: int| 0 <= j < trace.len() - 1 implies (#[trigger] trace[j]).decision is Forward by {
                assert(trace[j] == trace.drop_last()[j]);
            }
        }
        match d {
            Next::Forward(c2, v2) => {
                c = c2;
                v = v2;
            },
            Next::Respond(res) => {
                let (fin, meta, unwind) = run_after(after, i, res, ResponseMeta { cache_ttl: None });
                let frames = single_frames(fin, true);
                return Execution {
                    frames,
                    stream: None,
                    meta,
                    trace: Ghost(trace),
                    unwind,
                    resolver_ran: false,
                };
            },
        }
        i = i + 1;
    }
    let ghost args = (c, v, fresh_meta());
    let (out, m) = resolver(c, v, ResponseMeta { cache_ttl: None });
    let ghost gout = out;
    proof {
        assert(args == (
            handed_on(trace, layers as int, c0, gv0).0,
            handed_on(trace, layers as int, c0, gv0).1,
            fresh_meta(),
        ));
        assert(resolver.ensures(args, (gout, m)));
    }
    match out {
        ResolverOutput::Single(res) => {
            let ghost gres = res;
            let (fin, meta, unwind) = run_after(after, layers, res, m);
            let frames = single_frames(fin, false);
            let r = Execution {
                frames,
                stream: None,
                meta,
                trace: Ghost(trace),
                unwind,
                resolver_ran: true,
            };
            assert(gout == ResolverOutput::<V, E, S>::Single(gres));
            r
        },
        ResolverOutput::Stream(st) => {
            let r = Execution {
                frames: Vec::new(),
                stream: Some(st),
                meta: m,
                trace: Ghost(trace),
                unwind: Ghost(Seq::empty()),
                resolver_ran: true,
            };
            assert(r.frames@ =~= Seq::<Frame<V, E>>::empty());
            r
        },
    }
}

/// The frame as sent once its value is serialised: `encoded` is the serialised
/// value of a successful item, `None` when serialising it failed, which turns
/// the item into an `OutputEncode` error. Error items and the terminal marker
/// pass unchanged.
pub fn encoded_frame<V, E, B>(frame: Frame<V, E>, encoded: Option<B>) -> (r: Frame<B, E>)
    ensures
        r == match frame {
            Frame::Item { code, body: Ok(_) } => match encoded {
                Some(b) => Frame::Item { code, body: Ok(b) },
                None => Frame::Item { code: 500, body: Err(ProcedureError::OutputEncode) },
            },
            Frame::Item { code, body: Err(e) } => Frame::<B, E>::Item { code, body: Err(e) },
            Frame::Done => Frame::Done,
        },
{
    match frame {
        Frame::Item { code, body: Ok(_) } => match encoded {
            Some(b) => Frame::Item { code, body: Ok(b) },
            None => Frame::Item { code: 500, body: Err(ProcedureError::OutputEncode) },
        },
        Frame::Item { code, body: Err(e) } => Frame::Item { code, body: Err(e) },
        Frame::Done => Frame::Done,
    }
}

/// A layer that answers a call itself is the last step of it: when the
/// outermost layer answers, no inner layer and not the resolver runs.
pub proof fn outermost_answer_stops_the_chain<C, V, E, L: Fn(usize, C, V) -> Next<C, V, E>>(
    layer: L,
    trace: Seq<Step<C, V, E>>,
    ctx: C,
    input: V,
    layers: nat,
    resolver_ran: bool,
)
    requires
        chain_ran(layer, trace, ctx, input),
        trace.len() <= layers,
        resolver_ran == (trace.len() == layers && (layers == 0 || trace.last().decision is Forward)),
        trace.len() > 0,
        trace[0].decision is Respond,
    ensures
        trace.len() == 1,
        !resolver_ran,
{
    if trace.len() > 1 {
        assert(trace[0].decision is Forward);
    }
}

} // verus!
