use rspc::cache::ResponseMeta;
use rspc::execute::{execute, not_found, Frame, Next, ProcedureError, ResolverOutput};
use rspc::path::get_flattened_name;
use rspc::procedure::{ErasedProcedure, Extension, Location, Procedure, ProcedureKind};
use rspc::router::{BuiltRouter, Router};
use specta::datatype::{DataType, Primitive};

fn str_ty() -> DataType {
    DataType::Primitive(Primitive::str)
}

fn unit_ty() -> DataType {
    DataType::Tuple(specta::datatype::Tuple::new(vec![]))
}

fn loc(line: u32) -> Location {
    Location::new("api.rs".to_string(), line, 1)
}

fn query(handler: u64, line: u32) -> ErasedProcedure {
    Procedure::builder(unit_ty(), str_ty(), unit_ty(), loc(line))
        .query(handler)
        .erase()
}

fn mutation(handler: u64, line: u32) -> ErasedProcedure {
    Procedure::builder(str_ty(), str_ty(), unit_ty(), loc(line))
        .mutation(handler)
        .erase()
}

fn names(b: &BuiltRouter) -> Vec<String> {
    b.procedures.iter().map(|(n, _)| n.clone()).collect()
}

fn run_string(input: Option<String>, reply: fn(String) -> Result<String, (u16, String)>) -> Vec<Frame<String, String>> {
    let layer = |_i: usize, c: (), v: String| -> Next<(), String, String> { Next::Forward(c, v) };
    let after = |_i: usize, r: Result<String, (u16, String)>, m: ResponseMeta| (r, m);
    execute(0, &layer, &after, move |_c: (), v: String, m: ResponseMeta| (ResolverOutput::<String, String, ()>::Single(reply(v)), m), (), input).frames
}

#[test]
fn ping_and_echo_build_and_run() {
    let built = Router::new()
        .procedure("ping".to_string(), query(1, 10))
        .procedure("echo".to_string(), mutation(2, 20))
        .build()
        .ok()
        .unwrap();
    assert_eq!(built.procedures.len(), 2);
    assert_eq!(names(&built), vec!["ping".to_string(), "echo".to_string()]);
    let ping = built.get(&"ping".to_string()).unwrap();
    assert_eq!(ping.handler, 1);
    assert_eq!(ping.kind, ProcedureKind::Query);
    let echo = built.get(&"echo".to_string()).unwrap();
    assert_eq!(echo.handler, 2);
    assert_eq!(echo.kind, ProcedureKind::Mutation);

    let frames = run_string(Some(String::new()), |_| Ok("pong".to_string()));
    assert_eq!(frames.len(), 2);
    assert!(matches!(&frames[0], Frame::Item { code: 200, body: Ok(v) } if v == "pong"));
    assert!(matches!(frames[1], Frame::Done));

    let frames = run_string(Some("hi".to_string()), |v| Ok(v));
    assert_eq!(frames.len(), 2);
    assert!(matches!(&frames[0], Frame::Item { code: 200, body: Ok(v) } if v == "hi"));
    assert!(matches!(frames[1], Frame::Done));
}

#[test]
fn unknown_path_is_not_found() {
    let built = Router::new().procedure("ping".to_string(), query(1, 10)).build().ok().unwrap();
    assert!(built.get(&"pong".to_string()).is_none());
    let frames: Vec<Frame<String, String>> = not_found();
    assert_eq!(frames.len(), 2);
    assert!(matches!(&frames[0], Frame::Item { code: 404, body: Err(ProcedureError::NotFound) }));
    assert!(matches!(frames[1], Frame::Done));
}

#[test]
fn duplicate_top_level_path_fails_once() {
    let errors = Router::new()
        .procedure("a".to_string(), query(1, 10))
        .procedure("a".to_string(), query(2, 20))
        .build()
        .err()
        .unwrap();
    assert_eq!(errors.len(), 1);
    assert_eq!(errors[0].path, vec!["a".to_string()]);
    assert_eq!(errors[0].original.line, 10);
    assert_eq!(errors[0].duplicate.as_ref().unwrap().line, 20);
}

#[test]
fn procedure_colliding_with_namespace_is_recorded() {
    let inner = Router::new().procedure("b".to_string(), query(1, 10));
    let errors = Router::new()
        .nest("a".to_string(), inner)
        .procedure("a".to_string(), query(2, 20))
        .build()
        .err()
        .unwrap();
    assert_eq!(errors.len(), 1);
    assert_eq!(errors[0].path, vec!["a".to_string()]);
    assert_eq!(errors[0].original.line, 10);
}

#[test]
fn merge_of_disjoint_routers_has_every_path() {
    let r1 = Router::new()
        .procedure("a".to_string(), query(1, 1))
        .procedure("b".to_string(), query(2, 2));
    let r2 = Router::new().procedure("c".to_string(), mutation(3, 3));
    let built = r1.merge(r2).build().ok().unwrap();
    assert_eq!(names(&built), vec!["a".to_string(), "b".to_string(), "c".to_string()]);
    assert_eq!(built.queries(), vec!["a".to_string(), "b".to_string()]);
    assert_eq!(built.mutations(), vec!["c".to_string()]);
    assert!(built.subscriptions().is_empty());
}

#[test]
fn merge_with_shared_paths_reports_each_once() {
    let r1 = Router::new()
        .procedure("a".to_string(), query(1, 1))
        .procedure("b".to_string(), query(2, 2))
        .procedure("c".to_string(), query(3, 3));
    let r2 = Router::new()
        .procedure("c".to_string(), query(4, 4))
        .procedure("d".to_string(), query(5, 5))
        .procedure("a".to_string(), query(6, 6));
    let errors = r1.merge(r2).build().err().unwrap();
    assert_eq!(errors.len(), 2);
    assert_eq!(errors[0].path, vec!["c".to_string()]);
    assert_eq!(errors[0].original.line, 4);
    assert_eq!(errors[0].duplicate.as_ref().unwrap().line, 3);
    assert_eq!(errors[1].path, vec!["a".to_string()]);
}

#[test]
fn nest_prefixes_paths_in_order() {
    let leaf = Router::new().procedure("deep".to_string(), query(9, 9));
    let inner = Router::new()
        .procedure("x".to_string(), query(1, 1))
        .nest("sub".to_string(), leaf)
        .procedure("y".to_string(), mutation(2, 2));
    let built = Router::new()
        .procedure("top".to_string(), query(3, 3))
        .nest("p".to_string(), inner)
        .build()
        .ok()
        .unwrap();
    assert_eq!(
        names(&built),
        vec!["top".to_string(), "p.x".to_string(), "p.sub.deep".to_string(), "p.y".to_string()]
    );
    assert_eq!(built.types.len(), 4);
    assert_eq!(built.types[2].0, vec!["p".to_string(), "sub".to_string(), "deep".to_string()]);
    assert_eq!(built.types[2].1.location.line, 9);
    assert_eq!(built.get(&"p.sub.deep".to_string()).unwrap().handler, 9);
}

#[test]
fn nested_collisions_carry_the_prefix() {
    let inner = Router::new()
        .procedure("x".to_string(), query(1, 1))
        .procedure("x".to_string(), query(2, 2));
    let errors = Router::new().nest("p".to_string(), inner).build().err().unwrap();
    assert_eq!(errors.len(), 1);
    assert_eq!(errors[0].path, vec!["p".to_string(), "x".to_string()]);
}

#[test]
fn nest_under_taken_prefix_is_recorded() {
    let errors = Router::new()
        .procedure("p".to_string(), query(1, 1))
        .nest("p".to_string(), Router::new().procedure("x".to_string(), query(2, 2)))
        .build()
        .err()
        .unwrap();
    assert_eq!(errors.len(), 1);
    assert_eq!(errors[0].path, vec!["p".to_string()]);
    assert!(errors[0].duplicate.is_none());
}

#[test]
fn setup_hooks_run_in_registration_order() {
    let p = Procedure::builder(str_ty(), str_ty(), str_ty(), loc(1))
        .with(Extension { setup: Some(10) })
        .with(Extension { setup: None })
        .with(Extension { setup: Some(11) })
        .query(7)
        .with(Extension { setup: Some(12) })
        .erase();
    let other = Router::new().setup(30).procedure("o".to_string(), query(8, 2));
    let built = Router::new()
        .setup(20)
        .procedure("q".to_string(), p)
        .setup(21)
        .merge(other)
        .build()
        .ok()
        .unwrap();
    let order: Vec<u64> = built.setup_order.iter().map(|h| h.hook).collect();
    assert_eq!(order, vec![20, 10, 11, 12, 21, 30]);
    assert!(built.setup_order[0].procedure.is_none());
    let (path, kind) = built.setup_order[1].procedure.as_ref().unwrap();
    assert_eq!(path, &vec!["q".to_string()]);
    assert_eq!(*kind, ProcedureKind::Query);
    assert!(built.setup_order[5].procedure.is_none());
}

#[test]
fn setup_hooks_learn_their_nested_path_and_kind() {
    let p = Procedure::builder(str_ty(), str_ty(), str_ty(), loc(1))
        .with(Extension { setup: Some(5) })
        .mutation(7)
        .erase();
    let inner = Router::new().procedure("m".to_string(), p).setup(6);
    let built = Router::new().nest("api".to_string(), inner).build().ok().unwrap();
    assert_eq!(built.setup_order.len(), 2);
    assert_eq!(built.setup_order[0].hook, 5);
    let (path, kind) = built.setup_order[0].procedure.as_ref().unwrap();
    assert_eq!(path, &vec!["api".to_string(), "m".to_string()]);
    assert_eq!(*kind, ProcedureKind::Mutation);
    assert_eq!(built.setup_order[1].hook, 6);
    assert!(built.setup_order[1].procedure.is_none());
}

#[test]
fn failed_build_returns_no_setup() {
    let r = Router::new()
        .setup(1)
        .procedure("a".to_string(), query(1, 1))
        .procedure("a".to_string(), query(1, 1));
    assert!(r.build().is_err());
}

#[test]
fn flattened_names_join_with_dots() {
    assert_eq!(get_flattened_name(&vec!["a".to_string()]), "a");
    assert_eq!(get_flattened_name(&vec!["a".to_string(), "b".to_string(), "c".to_string()]), "a.b.c");
}

#[test]
fn descriptor_keeps_schemas_and_kind() {
    let built = Router::new()
        .procedure(
            "s".to_string(),
            Procedure::builder(str_ty(), DataType::Primitive(Primitive::bool), unit_ty(), loc(5))
                .subscription(4)
                .erase(),
        )
        .build()
        .ok()
        .unwrap();
    let d = &built.types[0].1;
    assert_eq!(d.kind, ProcedureKind::Subscription);
    assert_eq!(d.input, str_ty());
    assert_eq!(d.output, DataType::Primitive(Primitive::bool));
    assert_eq!(d.error, unit_ty());
    assert_eq!(built.subscriptions(), vec!["s".to_string()]);
}
