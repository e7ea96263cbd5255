use std::cell::RefCell;

use rspc::cache::{cache_lookup, cache_store_ttl, cache_ttl, ResponseMeta};
use rspc::execute::{encoded_frame, done_frame, execute, item_frame, Frame, Next, ProcedureError, ResolverOutput};

type Out<V> = ResolverOutput<V, String, Vec<Result<V, (u16, String)>>>;

fn pass<V>(_i: usize, r: Result<V, (u16, String)>, m: ResponseMeta) -> (Result<V, (u16, String)>, ResponseMeta) {
    (r, m)
}

type Log = Vec<&'static str>;

fn names(i: usize) -> &'static str {
    ["A", "B", "C"][i]
}

#[test]
fn layers_run_outermost_first_then_resolver() {
    let layer = |i: usize, mut log: Log, v: u32| -> Next<Log, u32, String> {
        log.push(names(i));
        Next::Forward(log, v + 1)
    };
    let r = execute(2, &layer, &pass, |log: Log, v: u32, m: ResponseMeta| {
        (Out::<u32>::Single(Ok(v * 100 + log.len() as u32)), m)
    }, Vec::new(), Some(5));
    assert!(r.resolver_ran);
    assert_eq!(r.frames.len(), 2);
    assert!(matches!(r.frames[0], Frame::Item { code: 200, body: Ok(702) }));
    assert!(matches!(r.frames[1], Frame::Done));
}

#[test]
fn layers_see_what_the_previous_forwarded() {
    let layer = |i: usize, mut log: Log, v: String| -> Next<Log, String, String> {
        log.push(names(i));
        Next::Forward(log, format!("{}{}", v, names(i)))
    };
    let r = execute(2, &layer, &pass, |log: Log, v: String, m: ResponseMeta| {
        (Out::<String>::Single(Ok(format!("{}|{}", v, log.join(",")))), m)
    }, Vec::new(), Some("F".to_string()));
    assert!(matches!(&r.frames[0], Frame::Item { code: 200, body: Ok(s) } if s == "FAB|A,B"));
}

#[test]
fn short_circuit_skips_the_rest() {
    let layer = |i: usize, _c: (), _v: u32| -> Next<(), u32, String> {
        if i == 0 {
            Next::Respond(Err((401, "denied".to_string())))
        } else {
            panic!("inner layer ran");
        }
    };
    let r = execute(2, &layer, &pass, |_c: (), _v: u32, _m: ResponseMeta| -> (Out<u32>, ResponseMeta) {
        panic!("resolver ran")
    }, (), Some(1));
    assert!(!r.resolver_ran);
    assert_eq!(r.frames.len(), 2);
    match &r.frames[0] {
        Frame::Item { code, body: Err(e) } => {
            assert_eq!(*code, 401);
            assert_eq!(e.status(), 401);
            assert!(matches!(e, ProcedureError::Middleware { error, .. } if error == "denied"));
        }
        _ => panic!("expected an error frame"),
    }
    assert!(matches!(r.frames[1], Frame::Done));
}

#[test]
fn decode_failure_runs_nothing() {
    let layer = |_i: usize, _c: (), _v: u32| -> Next<(), u32, String> { panic!("layer ran") };
    let r = execute(1, &layer, &pass, |_c: (), _v: u32, _m: ResponseMeta| -> (Out<u32>, ResponseMeta) {
        panic!("resolver ran")
    }, (), None);
    assert!(!r.resolver_ran);
    assert_eq!(r.frames.len(), 2);
    assert!(matches!(&r.frames[0], Frame::Item { code: 400, body: Err(ProcedureError::InputDecode) }));
    assert!(matches!(r.frames[1], Frame::Done));
}

#[test]
fn resolver_error_keeps_its_status() {
    let layer = |_i: usize, c: (), v: u32| -> Next<(), u32, String> { Next::Forward(c, v) };
    let r = execute(1, &layer, &pass, |_c: (), _v: u32, m: ResponseMeta| {
        (Out::<u32>::Single(Err((418, "teapot".to_string()))), m)
    }, (), Some(0));
    match &r.frames[0] {
        Frame::Item { code: 418, body: Err(ProcedureError::Resolver { status: 418, error }) } => {
            assert_eq!(error, "teapot")
        }
        _ => panic!("expected a resolver error"),
    }
}

fn pump(r: rspc::execute::Execution<(), u32, String, Vec<Result<u32, (u16, String)>>>) -> Vec<Frame<u32, String>> {
    let mut frames = r.frames;
    if let Some(items) = r.stream {
        for item in items {
            frames.push(item_frame(item));
        }
        frames.push(done_frame());
    }
    frames
}

#[test]
fn subscription_stream_is_handed_back_unchanged() {
    let layer = |_i: usize, c: (), v: u32| -> Next<(), u32, String> { Next::Forward(c, v) };
    let r = execute(1, &layer, &pass, |_c: (), v: u32, m: ResponseMeta| {
        (Out::<u32>::Stream(vec![Ok(v), Err((500, "hiccup".to_string())), Ok(v + 1)]), m)
    }, (), Some(7));
    assert!(r.resolver_ran);
    assert!(r.frames.is_empty());
    assert_eq!(r.stream.as_ref().unwrap().len(), 3);
    let frames = pump(r);
    assert_eq!(frames.len(), 4);
    assert!(matches!(frames[0], Frame::Item { code: 200, body: Ok(7) }));
    assert!(matches!(frames[1], Frame::Item { code: 500, body: Err(ProcedureError::Resolver { .. }) }));
    assert!(matches!(frames[2], Frame::Item { code: 200, body: Ok(8) }));
    assert!(matches!(frames[3], Frame::Done));
}

#[test]
fn empty_subscription_is_just_the_marker() {
    let layer = |_i: usize, c: (), v: u32| -> Next<(), u32, String> { Next::Forward(c, v) };
    let r = execute(0, &layer, &pass, |_c: (), _v: u32, m: ResponseMeta| (Out::<u32>::Stream(vec![]), m), (), Some(7));
    let frames = pump(r);
    assert_eq!(frames.len(), 1);
    assert!(matches!(frames[0], Frame::Done));
}

#[test]
fn short_circuit_never_reaches_a_stream() {
    let layer = |_i: usize, _c: (), _v: u32| -> Next<(), u32, String> { Next::Respond(Ok(1)) };
    let r = execute(1, &layer, &pass, |_c: (), _v: u32, _m: ResponseMeta| -> (Out<u32>, ResponseMeta) { panic!("resolver ran") }, (), Some(7));
    assert!(r.stream.is_none());
    assert_eq!(r.frames.len(), 2);
    assert!(matches!(r.frames[0], Frame::Item { code: 200, body: Ok(1) }));
}

#[test]
fn error_statuses() {
    assert_eq!(ProcedureError::<()>::NotFound.status(), 404);
    assert_eq!(ProcedureError::<()>::InputDecode.status(), 400);
    assert_eq!(ProcedureError::<()>::OutputEncode.status(), 500);
    assert_eq!(ProcedureError::Middleware { status: 403, error: () }.status(), 403);
}

#[test]
fn cache_answers_from_stored_value() {
    let hit: Next<(), u32, ()> = cache_lookup((), 1, Some(42));
    assert!(matches!(hit, Next::Respond(Ok(42))));
    let miss: Next<(), u32, ()> = cache_lookup((), 1, None);
    assert!(matches!(miss, Next::Forward((), 1)));
}

#[test]
fn cache_keeps_only_successes_with_a_ttl() {
    let mut meta = ResponseMeta::new();
    let ok: Result<u32, (u16, ())> = Ok(1);
    let err: Result<u32, (u16, ())> = Err((500, ()));
    assert_eq!(cache_store_ttl(&meta, &ok), None);
    cache_ttl(&mut meta, 30);
    assert_eq!(meta.cache_ttl, Some(30));
    assert_eq!(cache_store_ttl(&meta, &ok), Some(30));
    assert_eq!(cache_store_ttl(&meta, &err), None);
}

#[test]
fn after_steps_run_innermost_first_and_can_translate_errors() {
    let layer = |_i: usize, c: (), v: u32| -> Next<(), u32, String> { Next::Forward(c, v) };
    let after = |i: usize, r: Result<u32, (u16, String)>, m: ResponseMeta| {
        let r = match r {
            Ok(v) => Ok(v * 10 + i as u32 + 1),
            Err((_, e)) => Err((400, format!("{}@{}", e, i))),
        };
        (r, m)
    };
    let r = execute(2, &layer, &after, |_c: (), v: u32, m: ResponseMeta| (Out::<u32>::Single(Ok(v)), m), (), Some(3));
    // layer 1 first: 3*10+2 = 32, then layer 0: 32*10+1 = 321
    assert!(matches!(r.frames[0], Frame::Item { code: 200, body: Ok(321) }));
    let r = execute(2, &layer, &after, |_c: (), _v: u32, m: ResponseMeta| {
        (Out::<u32>::Single(Err((500, "boom".to_string()))), m)
    }, (), Some(3));
    assert!(matches!(&r.frames[0], Frame::Item { code: 400, body: Err(ProcedureError::Resolver { error, .. }) } if error == "boom@1@0"));
}

#[test]
fn short_circuit_answer_passes_outer_after_steps_only() {
    let layer = |i: usize, c: (), v: u32| -> Next<(), u32, String> {
        if i == 1 { Next::Respond(Ok(5)) } else { Next::Forward(c, v) }
    };
    let after = |i: usize, r: Result<u32, (u16, String)>, m: ResponseMeta| {
        assert!(i == 0, "after-step of an inner layer ran");
        (r.map(|v| v + 100), m)
    };
    let r = execute(3, &layer, &after, |_c: (), _v: u32, _m: ResponseMeta| -> (Out<u32>, ResponseMeta) {
        panic!("resolver ran")
    }, (), Some(0));
    assert!(matches!(r.frames[0], Frame::Item { code: 200, body: Ok(105) }));
}

#[test]
fn cache_layer_stores_what_the_resolver_marked() {
    let store: RefCell<Option<(u32, usize)>> = RefCell::new(None);
    let runs = RefCell::new(0u32);
    let call = || {
        let layer = |_i: usize, c: (), v: u32| -> Next<(), u32, String> {
            cache_lookup(c, v, store.borrow().map(|(value, _)| value))
        };
        let after = |_i: usize, r: Result<u32, (u16, String)>, m: ResponseMeta| {
            if let (Some(ttl), Ok(value)) = (cache_store_ttl(&m, &r), &r) {
                *store.borrow_mut() = Some((*value, ttl));
            }
            (r, m)
        };
        execute(1, &layer, &after, |_c: (), v: u32, mut m: ResponseMeta| {
            *runs.borrow_mut() += 1;
            cache_ttl(&mut m, 60);
            (Out::<u32>::Single(Ok(v * 2)), m)
        }, (), Some(21))
    };
    let first = call();
    assert!(matches!(first.frames[0], Frame::Item { code: 200, body: Ok(42) }));
    assert_eq!(first.meta.cache_ttl, Some(60));
    assert_eq!(*store.borrow(), Some((42, 60)));
    let second = call();
    assert!(!second.resolver_ran);
    assert!(matches!(second.frames[0], Frame::Item { code: 200, body: Ok(42) }));
    assert_eq!(*runs.borrow(), 1);
}

#[test]
fn failed_serialisation_becomes_an_output_error() {
    let ok: Frame<u32, String> = item_frame(Ok(5));
    assert!(matches!(encoded_frame(ok, Some("5".to_string())), Frame::Item { code: 200, body: Ok(s) } if s == "5"));
    let ok: Frame<u32, String> = item_frame(Ok(5));
    assert!(matches!(encoded_frame::<u32, String, String>(ok, None), Frame::Item { code: 500, body: Err(ProcedureError::OutputEncode) }));
    let err: Frame<u32, String> = item_frame(Err((404, "gone".to_string())));
    assert!(matches!(encoded_frame::<u32, String, String>(err, None), Frame::Item { code: 404, body: Err(ProcedureError::Resolver { .. }) }));
    assert!(matches!(encoded_frame::<u32, String, String>(done_frame(), None), Frame::Done));
}
