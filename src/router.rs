//! The router: registers, nests and merges procedures under paths, records every
//! path collision, and builds the dispatch table and the descriptor list.
use vstd::prelude::*;
use crate::path::{clone_path, flatten, get_flattened_name, path_view, paths_equal, prefixed};
use crate::procedure::{ErasedProcedure, Location, ProcedureDescriptor, ProcedureKind};

verus! {

/// A procedure as the router holds it: the handle of its execution entry point
/// and its descriptor. Its setup hooks have moved into the router.
#[derive(Debug)]
pub struct Registered {
    pub handler: u64,
    pub descriptor: ProcedureDescriptor,
}

/// A registration that collided with an existing path. `duplicate` is the
/// location of the colliding procedure, when one is known.
#[derive(Debug)]
pub struct DuplicateProcedureKeyError {
    pub path: Vec<String>,
    pub original: Location,
    pub duplicate: Option<Location>,
}

/// A setup hook to run at build time: its handle and, for a procedure's hook,
/// that procedure's full path and kind.
#[derive(Debug)]
pub struct SetupHook {
    pub hook: u64,
    pub procedure: Option<(Vec<String>, ProcedureKind)>,
}

/// A setup hook, with its procedure's path as character sequences.
pub struct HookView {
    pub hook: u64,
    pub procedure: Option<(Seq<Seq<char>>, ProcedureKind)>,
}

pub open spec fn hook_view(h: SetupHook) -> HookView {
    HookView {
        hook: h.hook,
        procedure: match h.procedure {
            Some((p, k)) => Some((path_view(p), k)),
            None => None,
        },
    }
}

pub open spec fn hooks_view(v: Seq<SetupHook>) -> Seq<HookView> {
    v.map_values(|h: SetupHook| hook_view(h))
}

/// The hooks of a procedure registered at `[key]` with kind `kind`.
pub open spec fn procedure_hooks(hooks: Seq<u64>, key: Seq<char>, kind: ProcedureKind) -> Seq<
    HookView,
> {
    hooks.map_values(|h: u64| HookView { hook: h, procedure: Some((seq![key], kind)) })
}

pub open spec fn prefix_hook(prefix: Seq<char>, h: HookView) -> HookView {
    HookView {
        hook: h.hook,
        procedure: match h.procedure {
            Some((p, k)) => Some((seq![prefix] + p, k)),
            None => None,
        },
    }
}

/// Hooks placed under `prefix`: their procedures' paths gain it in front.
pub open spec fn prefix_hooks(prefix: Seq<char>, hooks: Seq<HookView>) -> Seq<HookView> {
    hooks.map_values(|h: HookView| prefix_hook(prefix, h))
}

/// A collision, with its path as character sequences.
pub struct DuplicateView {
    pub path: Seq<Seq<char>>,
    pub original: Location,
    pub duplicate: Option<Location>,
}

impl View for DuplicateProcedureKeyError {
    type V = DuplicateView;

    open spec fn view(&self) -> DuplicateView {
        DuplicateView { path: path_view(self.path), original: self.original, duplicate: self.duplicate }
    }
}

/// The entries of a router: each path with its procedure.
pub type Entries = Seq<(Seq<Seq<char>>, Registered)>;

/// A router in the making: setup hooks in registration order, the registered
/// procedures in insertion order, and the collisions recorded so far.
pub struct RouterView {
    pub setup: Seq<HookView>,
    pub entries: Entries,
    pub errors: Seq<DuplicateView>,
}

/// What the dispatch table keeps of a procedure.
#[derive(Clone, Copy, Debug, PartialEq, Eq, Structural)]
pub struct DispatchEntry {
    pub handler: u64,
    pub kind: ProcedureKind,
}

/// A built router: the setup hooks to run, in order; the dispatch table from
/// flattened path to procedure; and each procedure's descriptor under its path.
pub struct BuiltRouter {
    pub setup_order: Vec<SetupHook>,
    pub procedures: Vec<(String, DispatchEntry)>,
    pub types: Vec<(Vec<String>, ProcedureDescriptor)>,
}

pub struct BuiltView {
    pub setup_order: Seq<HookView>,
    pub procedures: Seq<(Seq<char>, DispatchEntry)>,
    pub types: Seq<(Seq<Seq<char>>, ProcedureDescriptor)>,
}

impl View for BuiltRouter {
    type V = BuiltView;

    open spec fn view(&self) -> BuiltView {
        BuiltView {
            setup_order: hooks_view(self.setup_order@),
            procedures: self.procedures@.map_values(|e: (String, DispatchEntry)| (e.0@, e.1)),
            types: self.types@.map_values(
                |e: (Vec<String>, ProcedureDescriptor)| (path_view(e.0), e.1),
            ),
        }
    }
}

pub struct Router {
    setup: Vec<SetupHook>,
    procedures: Vec<(Vec<String>, Registered)>,
    errors: Vec<DuplicateProcedureKeyError>,
}

pub open spec fn entries_view(v: Seq<(Vec<String>, Registered)>) -> Entries {
    v.map_values(|e: (Vec<String>, Registered)| (path_view(e.0), e.1))
}

pub open spec fn errors_view(v: Seq<DuplicateProcedureKeyError>) -> Seq<DuplicateView> {
    v.map_values(|e: DuplicateProcedureKeyError| e@)
}

impl View for Router {
    type V = RouterView;

    closed spec fn view(&self) -> RouterView {
        RouterView {
            setup: hooks_view(self.setup@),
            entries: entries_view(self.procedures@),
            errors: errors_view(self.errors@),
        }
    }
}

/// Every path is non-empty and no two procedures share a path.
pub open spec fn entries_wf(e: Entries) -> bool {
    &&& forall|i: int| 0 <= i < e.len() ==> (#[trigger] e[i]).0.len() > 0
    &&& forall|i: int, j: int|
        0 <= i < e.len() && 0 <= j < e.len() && i != j ==> (#[trigger] e[i]).0 != (#[trigger] e[j]).0
}

/// The paths of a list of entries.
pub open spec fn paths_of(e: Entries) -> Seq<Seq<Seq<char>>> {
    e.map_values(|x: (Seq<Seq<char>>, Registered)| x.0)
}

pub open spec fn head_is(p: Seq<Seq<char>>, key: Seq<char>) -> bool {
    p.len() > 0 && p[0] == key
}

/// Some registered path starts with segment `key`.
pub open spec fn has_head(e: Entries, key: Seq<char>) -> bool {
    exists|i: int| 0 <= i < e.len() && head_is(#[trigger] e[i].0, key)
}

pub open spec fn is_first_head(e: Entries, key: Seq<char>, i: int) -> bool {
    &&& 0 <= i < e.len()
    &&& head_is(e[i].0, key)
    &&& forall|j: int| 0 <= j < i ==> !head_is(#[trigger] e[j].0, key)
}

/// The first entry whose path starts with segment `key`.
pub open spec fn first_head(e: Entries, key: Seq<char>) -> int {
    choose|i: int| is_first_head(e, key, i)
}

pub open spec fn contains_path(e: Entries, k: Seq<Seq<char>>) -> bool {
    exists|i: int| 0 <= i < e.len() && (#[trigger] e[i]).0 == k
}

/// The entry at path `k`.
pub open spec fn index_of(e: Entries, k: Seq<Seq<char>>) -> int {
    choose|i: int| 0 <= i < e.len() && (#[trigger] e[i]).0 == k
}

/// Registers `p` at the one-segment path `key`, or records a collision when a
/// registered path already starts with `key`.
pub open spec fn spec_procedure(r: RouterView, key: Seq<char>, p: ErasedProcedure) -> RouterView {
    if has_head(r.entries, key) {
        RouterView {
            errors: r.errors.push(
                DuplicateView {
                    path: seq![key],
                    original: r.entries[first_head(r.entries, key)].1.descriptor.location,
                    duplicate: Some(p.descriptor.location),
                },
            ),
            ..r
        }
    } else {
        RouterView {
            setup: r.setup + procedure_hooks(p.setup@, key, p.descriptor.kind),
            entries: r.entries.push(
                (seq![key], Registered { handler: p.handler, descriptor: p.descriptor }),
            ),
            ..r
        }
    }
}

pub open spec fn prefix_entry(prefix: Seq<char>, e: (Seq<Seq<char>>, Registered)) -> (
    Seq<Seq<char>>,
    Registered,
) {
    (seq![prefix] + e.0, e.1)
}

pub open spec fn prefix_error(prefix: Seq<char>, d: DuplicateView) -> DuplicateView {
    DuplicateView { path: seq![prefix] + d.path, original: d.original, duplicate: d.duplicate }
}

/// Places every path of `o` under `prefix`, or records a collision when a
/// registered path already starts with `prefix`.
pub open spec fn spec_nest(r: RouterView, prefix: Seq<char>, o: RouterView) -> RouterView {
    if has_head(r.entries, prefix) {
        RouterView {
            errors: r.errors.push(
                DuplicateView {
                    path: seq![prefix],
                    original: r.entries[first_head(r.entries, prefix)].1.descriptor.location,
                    duplicate: None,
                },
            ),
            ..r
        }
    } else {
        RouterView {
            setup: r.setup + prefix_hooks(prefix, o.setup),
            entries: r.entries + o.entries.map_values(
                |e: (Seq<Seq<char>>, Registered)| prefix_entry(prefix, e),
            ),
            errors: r.errors + o.errors.map_values(|d: DuplicateView| prefix_error(prefix, d)),
        }
    }
}

/// Adds or replaces the entry at path `e.0`.
pub open spec fn upsert(a: Entries, e: (Seq<Seq<char>>, Registered)) -> Entries {
    if contains_path(a, e.0) {
        a.update(index_of(a, e.0), e)
    } else {
        a.push(e)
    }
}

/// Adds or replaces each entry of `b` in turn.
pub open spec fn upsert_all(a: Entries, b: Entries) -> Entries
    decreases b.len(),
{
    if b.len() == 0 {
        a
    } else {
        upsert(upsert_all(a, b.drop_last()), b.last())
    }
}

/// One collision for each entry of `b` whose path `a` holds, in the order of `b`.
pub open spec fn collisions(a: Entries, b: Entries) -> Seq<DuplicateView>
    decreases b.len(),
{
    if b.len() == 0 {
        Seq::empty()
    } else {
        let rest = collisions(a, b.drop_last());
        let e = b.last();
        if contains_path(a, e.0) {
            rest.push(
                DuplicateView {
                    path: e.0,
                    original: e.1.descriptor.location,
                    duplicate: Some(a[index_of(a, e.0)].1.descriptor.location),
                },
            )
        } else {
            rest
        }
    }
}

/// The union of two routers at the same depth; each path they share is a
/// collision.
pub open spec fn spec_merge(r: RouterView, o: RouterView) -> RouterView {
    RouterView {
        setup: r.setup + o.setup,
        entries: upsert_all(r.entries, o.entries),
        errors: r.errors + collisions(r.entries, o.entries) + o.errors,
    }
}

/// The result of building a router without collisions.
pub open spec fn spec_built(r: RouterView) -> BuiltView {
    BuiltView {
        setup_order: r.setup,
        procedures: r.entries.map_values(
            |e: (Seq<Seq<char>>, Registered)|
                (flatten(e.0), DispatchEntry { handler: e.1.handler, kind: e.1.descriptor.kind }),
        ),
        types: r.entries.map_values(
            |e: (Seq<Seq<char>>, Registered)| (e.0, e.1.descriptor),
        ),
    }
}

pub proof fn lemma_first_head_unique(e: Entries, key: Seq<char>, i: int)
    requires
        is_first_head(e, key, i),
    ensures
        first_head(e, key) == i,
{
    let j = first_head(e, key);
    assert(is_first_head(e, key, j));
    if j < i {
        assert(!head_is(e[j].0, key));
    } else if i < j {
        assert(!head_is(e[i].0, key));
    }
}

pub proof fn lemma_index_of_unique(e: Entries, k: Seq<Seq<char>>, i: int)
    requires
        entries_wf(e),
        0 <= i < e.len(),
        e[i].0 == k,
    ensures
        index_of(e, k) == i,
{
    let j = index_of(e, k);
    assert(0 <= j < e.len() && e[j].0 == k);
}

pub proof fn lemma_upsert_wf(a: Entries, e: (Seq<Seq<char>>, Registered))
    requires
        entries_wf(a),
        e.0.len() > 0,
    ensures
        entries_wf(upsert(a, e)),
        forall|k: Seq<Seq<char>>|
            contains_path(upsert(a, e), k) <==> (contains_path(a, k) || k == e.0),
{
    let u = upsert(a, e);
    if contains_path(a, e.0) {
        let idx = index_of(a, e.0);
        assert(0 <= idx < a.len() && a[idx].0 == e.0);
        assert forall|k: Seq<Seq<char>>| contains_path(u, k) <==> (contains_path(a, k) || k == e.0) by {
            if contains_path(a, k) {
                let i = choose|i: int| 0 <= i < a.len() && (#[trigger] a[i]).0 == k;
                assert(u[i].0 == k);
            }
            if k == e.0 {
                assert(u[idx].0 == k);
            }
            if contains_path(u, k) {
                let i = choose|i: int| 0 <= i < u.len() && (#[trigger] u[i]).0 == k;
                assert(a[i].0 == k || k == e.0);
            }
        }
    } else {
        assert forall|k: Seq<Seq<char>>| contains_path(u, k) <==> (contains_path(a, k) || k == e.0) by {
            if contains_path(a, k) {
                let i = choose|i: int| 0 <= i < a.len() && (#[trigger] a[i]).0 == k;
                assert(u[i].0 == k);
            }
            if k == e.0 {
                assert(u[a.len() as int].0 == k);
            }
            if contains_path(u, k) {
                let i = choose|i: int| 0 <= i < u.len() && (#[trigger] u[i]).0 == k;
                if i < a.len() {
                    assert(a[i].0 == k);
                }
            }
        }
        assert forall|i: int, j: int|
            0 <= i < u.len() && 0 <= j < u.len() && i != j implies (#[trigger] u[i]).0 != (
            #[trigger] u[j]).0 by {
            if i == a.len() {
                assert(u[j] == a[j]);
            } else if j == a.len() {
                assert(u[i] == a[i]);
            } else {
                assert(u[i] == a[i] && u[j] == a[j]);
            }
        }
    }
}

pub proof fn lemma_upsert_all_wf(a: Entries, b: Entries)
    requires
        entries_wf(a),
        forall|i: int| 0 <= i < b.len() ==> (#[trigger] b[i]).0.len() > 0,
    ensures
        entries_wf(upsert_all(a, b)),
        forall|k: Seq<Seq<char>>|
            contains_path(upsert_all(a, b), k) <==> (contains_path(a, k) || contains_path(b, k)),
    decreases b.len(),
{
    if b.len() > 0 {
        let c = b.drop_last();
        assert forall|i: int| 0 <= i < c.len() implies (#[trigger] c[i]).0.len() > 0 by {
            assert(c[i] == b[i]);
        }
        lemma_upsert_all_wf(a, c);
        assert(b.last() == b[b.len() - 1]);
        lemma_upsert_wf(upsert_all(a, c), b.last());
        assert forall|k: Seq<Seq<char>>|
            contains_path(b, k) <==> (contains_path(c, k) || k == b.last().0) by {
            if contains_path(b, k) {
                let i = choose|i: int| 0 <= i < b.len() && (#[trigger] b[i]).0 == k;
                if i < c.len() {
                    assert(c[i] == b[i]);
                }
            }
            if contains_path(c, k) {
                let i = choose|i: int| 0 <= i < c.len() && (#[trigger] c[i]).0 == k;
                assert(b[i] == c[i]);
            }
        }
    }
}

pub proof fn lemma_prefixed_wf(r: Entries, prefix: Seq<char>, o: Entries)
    requires
        entries_wf(r),
        entries_wf(o),
        !has_head(r, prefix),
    ensures
        entries_wf(
            r + o.map_values(|e: (Seq<Seq<char>>, Registered)| prefix_entry(prefix, e)),
        ),
{
    let m = o.map_values(|e: (Seq<Seq<char>>, Registered)| prefix_entry(prefix, e));
    let u = r + m;
    assert forall|i: int| 0 <= i < u.len() implies (#[trigger] u[i]).0.len() > 0 by {
        if i >= r.len() {
            assert(u[i] == m[i - r.len()]);
        }
    }
    assert forall|i: int, j: int|
        0 <= i < u.len() && 0 <= j < u.len() && i != j implies (#[trigger] u[i]).0 != (
        #[trigger] u[j]).0 by {
        if i < r.len() && j < r.len() {
            assert(u[i] == r[i] && u[j] == r[j]);
        } else if i >= r.len() && j >= r.len() {
            let oi = o[i - r.len()].0;
            let oj = o[j - r.len()].0;
            assert(u[i].0 == seq![prefix] + oi);
            assert(u[j].0 == seq![prefix] + oj);
            assert(oi != oj);
            if u[i].0 == u[j].0 {
                assert(oi =~= u[i].0.subrange(1, u[i].0.len() as int));
                assert(oj =~= u[j].0.subrange(1, u[j].0.len() as int));
            }
        } else if i < r.len() {
            assert(u[j].0[0] == prefix);
            assert(!head_is(r[i].0, prefix));
        } else {
            assert(u[i].0[0] == prefix);
            assert(!head_is(r[j].0, prefix));
        }
    }
}

/// Finds the first entry whose path starts with `key`.
fn find_head(entries: &Vec<(Vec<String>, Registered)>, key: &String) -> (r: Option<usize>)
    requires
        entries_wf(entries_view(entries@)),
    ensures
        match r {
            Some(i) => is_first_head(entries_view(entries@), key@, i as int),
            None => !has_head(entries_view(entries@), key@),
        },
{
    let ghost e = entries_view(entries@);
    let mut i: usize = 0;
    while i < entries.len()
        invariant
            e == entries_view(entries@),
            entries_wf(e),
            i <= entries@.len(),
            forall|j: int| 0 <= j < i ==> !head_is(#[trigger] e[j].0, key@),
        decreases entries@.len() - i,
    {
        assert(e[i as int].0 == path_view(entries@[i as int].0));
        assert(e[i as int].0.len() > 0);
        if entries[i].0[0] == *key {
            return Some(i);
        }
        i = i + 1;
    }
    None
}

/// Finds the entry at path `k`.
fn find_path(entries: &Vec<(Vec<String>, Registered)>, k: &Vec<String>) -> (r: Option<usize>)
    ensures
        match r {
            Some(i) => i < entries@.len() && entries_view(entries@)[i as int].0 == path_view(*k),
            None => !contains_path(entries_view(entries@), path_view(*k)),
        },
{
    let ghost e = entries_view(entries@);
    let mut i: usize = 0;
    while i < entries.len()
        invariant
            e == entries_view(entries@),
            i <= entries@.len(),
            forall|j: int| 0 <= j < i ==> (#[trigger] e[j]).0 != path_view(*k),
        decreases entries@.len() - i,
    {
        if paths_equal(&entries[i].0, k) {
            return Some(i);
        }
        i = i + 1;
    }
    None
}

/// Adds or replaces the entry at path `e.0`.
fn upsert_entry(entries: &mut Vec<(Vec<String>, Registered)>, e: (Vec<String>, Registered))
    requires
        entries_wf(entries_view(old(entries)@)),
    ensures
        entries_view(final(entries)@) == upsert(
            entries_view(old(entries)@),
            (path_view(e.0), e.1),
        ),
{
    let ghost ev = (path_view(e.0), e.1);
    match find_path(entries, &e.0) {
        Some(j) => {
            proof {
                lemma_index_of_unique(entries_view(entries@), ev.0, j as int);
            }
            let ghost before = entries@;
            entries.set(j, e);
            assert(entries_view(entries@) =~= entries_view(before).update(j as int, ev));
        },
        None => {
            let ghost before = entries@;
            entries.push(e);
            assert(entries_view(entries@) =~= entries_view(before).push(ev));
        },
    }
}

/// Tags the hooks of a procedure registered at `[key]` with its path and kind.
fn tag_hooks(hooks: Vec<u64>, key: &String, kind: ProcedureKind) -> (r: Vec<SetupHook>)
    ensures
        hooks_view(r@) == procedure_hooks(hooks@, key@, kind),
{
    let mut out: Vec<SetupHook> = Vec::new();
    let mut i: usize = 0;
    while i < hooks.len()
        invariant
            i <= hooks@.len(),
            hooks_view(out@) == procedure_hooks(hooks@.subrange(0, i as int), key@, kind),
        decreases hooks@.len() - i,
    {
        let mut path: Vec<String> = Vec::new();
        path.push(key.clone());
        let ghost before = out@;
        out.push(SetupHook { hook: hooks[i], procedure: Some((path, kind)) });
        proof {
            assert(path_view(path) =~= seq![key@]);
            assert(hooks_view(out@) =~= hooks_view(before).push(
                HookView { hook: hooks@[i as int], procedure: Some((seq![key@], kind)) },
            ));
            assert(procedure_hooks(hooks@.subrange(0, i as int + 1), key@, kind)
                =~= procedure_hooks(hooks@.subrange(0, i as int), key@, kind).push(
                HookView { hook: hooks@[i as int], procedure: Some((seq![key@], kind)) },
            ));
        }
        i = i + 1;
    }
    assert(hooks@.subrange(0, i as int) =~= hooks@);
    out
}

/// Places the procedures of hooks under `prefix`.
fn move_hooks(prefix: &String, hooks: Vec<SetupHook>) -> (r: Vec<SetupHook>)
    ensures
        hooks_view(r@) == prefix_hooks(prefix@, hooks_view(hooks@)),
{
    let ghost all = hooks_view(hooks@);
    let mut rest = hooks;
    let mut out: Vec<SetupHook> = Vec::new();
    let ghost k: int = 0;
    while rest.len() > 0
        invariant
            0 <= k <= all.len(),
            hooks_view(rest@) == all.subrange(k, all.len() as int),
            hooks_view(out@) == prefix_hooks(prefix@, all.subrange(0, k)),
        decreases rest@.len(),
    {
        let ghost old_rest = rest@;
        let h = rest.remove(0);
        let ghost hv = hook_view(h);
        assert(h == old_rest[0]);
        assert(hooks_view(old_rest)[0] == hv);
        let SetupHook { hook, procedure } = h;
        let moved = match procedure {
            Some((path, kind)) => Some((prefixed(prefix, path), kind)),
            None => None,
        };
        let ghost before = out@;
        out.push(SetupHook { hook, procedure: moved });
        proof {
            assert(hooks_view(old_rest).len() == old_rest.len());
            assert(hooks_view(old_rest)[0] == all.subrange(k, all.len() as int)[0]);
            assert(all[k] == hv);
            k = k + 1;
            assert(hooks_view(out@) =~= hooks_view(before).push(prefix_hook(prefix@, hv)));
            assert(prefix_hooks(prefix@, all.subrange(0, k)) =~= prefix_hooks(
                prefix@,
                all.subrange(0, k - 1),
            ).push(prefix_hook(prefix@, all[k - 1])));
            assert(rest@ =~= old_rest.subrange(1, old_rest.len() as int));
            assert(hooks_view(rest@) =~= hooks_view(old_rest).subrange(1, old_rest.len() as int));
            assert(hooks_view(rest@) =~= all.subrange(k, all.len() as int));
        }
    }
    assert(all.subrange(0, k) =~= all);
    out
}

impl Router {
    pub open spec fn wf(&self) -> bool {
        entries_wf(self@.entries)
    }

    /// An empty router.
    pub fn new() -> (r: Router)
        ensures
            r.wf(),
            r@.setup.len() == 0,
            r@.entries.len() == 0,
            r@.errors.len() == 0,
    {
        let r = Router { setup: Vec::new(), procedures: Vec::new(), errors: Vec::new() };
        assert(r@.entries =~= Seq::empty());
        assert(r@.errors =~= Seq::empty());
        r
    }

    /// Registers `procedure` at path `[key]`; a collision on the first segment
    /// is recorded for `build` to report.
    pub fn procedure(self, key: String, procedure: ErasedProcedure) -> (r: Router)
        requires
            self.wf(),
        ensures
            r.wf(),
            r@ == spec_procedure(self@, key@, procedure),
    {
        let mut me = self;
        match find_head(&me.procedures, &key) {
            Some(i) => {
                proof {
                    lemma_first_head_unique(me@.entries, key@, i as int);
                }
                let original = me.procedures[i].1.descriptor.location.duplicate();
                let ghost before = me.errors@;
                let mut path: Vec<String> = Vec::new();
                path.push(key);
                me.errors.push(
                    DuplicateProcedureKeyError {
                        path,
                        original,
                        duplicate: Some(procedure.descriptor.location),
                    },
                );
                assert(path_view(path) =~= seq![key@]);
                assert(errors_view(me.errors@) =~= errors_view(before).push(
                    errors_view(me.errors@).last(),
                ));
                me
            },
            None => {
                let ghost before = me@;
                let ErasedProcedure { setup, handler, descriptor } = procedure;
                let mut hooks = tag_hooks(setup, &key, descriptor.kind);
                let ghost s_before = me.setup@;
                me.setup.append(&mut hooks);
                assert(hooks_view(me.setup@) =~= hooks_view(s_before) + procedure_hooks(
                    procedure.setup@,
                    key@,
                    procedure.descriptor.kind,
                ));
                let mut path: Vec<String> = Vec::new();
                path.push(key);
                assert(path_view(path) =~= seq![key@]);
                me.procedures.push((path, Registered { handler, descriptor }));
                let ghost entry = (seq![key@], Registered { handler, descriptor });
                assert(me@.entries =~= before.entries.push(entry));
                proof {
                    let u = me@.entries;
                    assert forall|i: int, j: int|
                        0 <= i < u.len() && 0 <= j < u.len() && i != j implies (
                        #[trigger] u[i]).0 != (#[trigger] u[j]).0 by {
                        if i == before.entries.len() {
                            assert(!head_is(before.entries[j].0, key@));
                        } else if j == before.entries.len() {
                            assert(!head_is(before.entries[i].0, key@));
                        } else {
                            assert(u[i] == before.entries[i] && u[j] == before.entries[j]);
                        }
                    }
                }
                me
            },
        }
    }

    /// Registers a router-level setup hook; hooks run in registration order.
    pub fn setup(self, hook: u64) -> (r: Router)
        requires
            self.wf(),
        ensures
            r.wf(),
            r@ == (RouterView {
                setup: self@.setup.push(HookView { hook, procedure: None }),
                ..self@
            }),
    {
        let mut me = self;
        let ghost before = me.setup@;
        me.setup.push(SetupHook { hook, procedure: None });
        assert(hooks_view(me.setup@) =~= hooks_view(before).push(HookView { hook, procedure: None }));
        me
    }

    /// Places every procedure of `other` under `prefix`, with its collisions,
    /// setup hooks and descriptors; a collision on `prefix` itself is recorded
    /// instead.
    pub fn nest(self, prefix: String, other: Router) -> (r: Router)
        requires
            self.wf(),
            other.wf(),
        ensures
            r.wf(),
            r@ == spec_nest(self@, prefix@, other@),
    {
        let mut me = self;
        match find_head(&me.procedures, &prefix) {
            Some(i) => {
                proof {
                    lemma_first_head_unique(me@.entries, prefix@, i as int);
                }
                let original = me.procedures[i].1.descriptor.location.duplicate();
                let ghost before = me.errors@;
                let mut path: Vec<String> = Vec::new();
                path.push(prefix);
                me.errors.push(DuplicateProcedureKeyError { path, original, duplicate: None });
                assert(path_view(path) =~= seq![prefix@]);
                assert(errors_view(me.errors@) =~= errors_view(before).push(
                    errors_view(me.errors@).last(),
                ));
                me
            },
            None => {
                let ghost s0 = me@;
                let ghost o0 = other@;
                let Router { setup: osetup, procedures: oprocs, errors: oerrors } = other;
                let mut osetup = osetup;
                let mut oprocs = oprocs;
                let mut oerrors = oerrors;
                let mut moved = move_hooks(&prefix, osetup);
                let ghost s_before = me.setup@;
                me.setup.append(&mut moved);
                assert(hooks_view(me.setup@) =~= hooks_view(s_before) + prefix_hooks(prefix@, o0.setup));
                assert(s0.entries.subrange(0, 0).map_values(|e: (Seq<Seq<char>>, Registered)| prefix_entry(prefix@, e)) =~= Seq::empty());
                assert(s0.entries + Seq::<(Seq<Seq<char>>, Registered)>::empty() =~= s0.entries);
                let ghost pe = |d: DuplicateView| prefix_error(prefix@, d);
                let ghost k: int = 0;
                while oerrors.len() > 0
                    invariant
                        0 <= k <= o0.errors.len(),
                        errors_view(me.errors@) == s0.errors + o0.errors.subrange(
                            0,
                            k,
                        ).map_values(pe),
                        errors_view(oerrors@) == o0.errors.subrange(k, o0.errors.len() as int),
                        pe == (|d: DuplicateView| prefix_error(prefix@, d)),
                        entries_view(me.procedures@) == s0.entries,
                        hooks_view(me.setup@) == s0.setup + prefix_hooks(prefix@, o0.setup),
                    decreases oerrors@.len(),
                {
                    let ghost before = me.errors@;
                    let ghost old_oerrors = oerrors@;
                    let d = oerrors.remove(0);
                    let DuplicateProcedureKeyError { path, original, duplicate } = d;
                    let path = prefixed(&prefix, path);
                    me.errors.push(DuplicateProcedureKeyError { path, original, duplicate });
                    proof {
                        assert(errors_view(old_oerrors).len() == old_oerrors.len());
                        assert(errors_view(old_oerrors)[0] == o0.errors.subrange(k, o0.errors.len() as int)[0]);
                        assert(o0.errors[k] == errors_view(old_oerrors)[0]);
                        k = k + 1;
                        assert(o0.errors.subrange(0, k).drop_last() =~= o0.errors.subrange(
                            0,
                            k - 1,
                        ));
                        assert(errors_view(me.errors@) =~= errors_view(before).push(
                            pe(o0.errors[k - 1]),
                        ));
                        assert(o0.errors.subrange(0, k).map_values(pe) =~= o0.errors.subrange(
                            0,
                            k - 1,
                        ).map_values(pe).push(pe(o0.errors[k - 1])));
                        assert(oerrors@ =~= old_oerrors.subrange(1, old_oerrors.len() as int));
                        assert(errors_view(oerrors@) =~= errors_view(old_oerrors).subrange(1, old_oerrors.len() as int));
                        assert(errors_view(oerrors@) =~= o0.errors.subrange(
                            k,
                            o0.errors.len() as int,
                        ));
                    }
                }
                proof {
                    assert(o0.errors.subrange(0, k) =~= o0.errors);
                }
                let ghost pf = |e: (Seq<Seq<char>>, Registered)| prefix_entry(prefix@, e);
                let ghost k2: int = 0;
                while oprocs.len() > 0
                    invariant
                        0 <= k2 <= o0.entries.len(),
                        entries_view(me.procedures@) == s0.entries + o0.entries.subrange(
                            0,
                            k2,
                        ).map_values(pf),
                        entries_view(oprocs@) == o0.entries.subrange(k2, o0.entries.len() as int),
                        pf == (|e: (Seq<Seq<char>>, Registered)| prefix_entry(prefix@, e)),
                        hooks_view(me.setup@) == s0.setup + prefix_hooks(prefix@, o0.setup),
                        errors_view(me.errors@) == s0.errors + o0.errors.map_values(pe),
                    decreases oprocs@.len(),
                {
                    let ghost before = me.procedures@;
                    let ghost old_oprocs = oprocs@;
                    let e = oprocs.remove(0);
                    let (path, reg) = e;
                    let path = prefixed(&prefix, path);
                    me.procedures.push((path, reg));
                    proof {
                        assert(entries_view(old_oprocs).len() == old_oprocs.len());
                        assert(entries_view(old_oprocs)[0] == o0.entries.subrange(k2, o0.entries.len() as int)[0]);
                        assert(o0.entries[k2] == entries_view(old_oprocs)[0]);
                        k2 = k2 + 1;
                        assert(entries_view(me.procedures@) =~= entries_view(before).push(
                            pf(o0.entries[k2 - 1]),
                        ));
                        assert(o0.entries.subrange(0, k2).map_values(pf) =~= o0.entries.subrange(
                            0,
                            k2 - 1,
                        ).map_values(pf).push(pf(o0.entries[k2 - 1])));
                        assert(oprocs@ =~= old_oprocs.subrange(1, old_oprocs.len() as int));
                        assert(entries_view(oprocs@) =~= entries_view(old_oprocs).subrange(1, old_oprocs.len() as int));
                        assert(entries_view(oprocs@) =~= o0.entries.subrange(
                            k2,
                            o0.entries.len() as int,
                        ));
                    }
                }
                proof {
                    assert(o0.entries.subrange(0, k2) =~= o0.entries);
                    lemma_prefixed_wf(s0.entries, prefix@, o0.entries);
                }
                me
            },
        }
    }

    /// Unions `other` into this router at the same depth. Each path of `other`
    /// that this router already holds is recorded as a collision, and the
    /// procedure of `other` takes its place.
    pub fn merge(self, other: Router) -> (r: Router)
        requires
            self.wf(),
            other.wf(),
        ensures
            r.wf(),
            r@ == spec_merge(self@, other@),
    {
        let mut me = self;
        let ghost s0 = me@;
        let ghost o0 = other@;
        let Router { setup: osetup, procedures: oprocs, errors: oerrors } = other;
        let mut osetup = osetup;
        let mut oprocs = oprocs;
        let mut oerrors = oerrors;
        let mut i: usize = 0;
        while i < oprocs.len()
            invariant
                me@ == (RouterView {
                    errors: s0.errors + collisions(s0.entries, o0.entries.subrange(0, i as int)),
                    ..s0
                }),
                entries_view(oprocs@) == o0.entries,
                i <= oprocs@.len(),
                entries_wf(s0.entries),
            decreases oprocs@.len() - i,
        {
            let ghost before = me.errors@;
            let ghost sub = o0.entries.subrange(0, i as int + 1);
            assert(sub.drop_last() =~= o0.entries.subrange(0, i as int));
            assert(sub.last() == o0.entries[i as int]);
            match find_path(&me.procedures, &oprocs[i].0) {
                Some(j) => {
                    proof {
                        lemma_index_of_unique(s0.entries, o0.entries[i as int].0, j as int);
                    }
                    let path = clone_path(&oprocs[i].0);
                    let original = oprocs[i].1.descriptor.location.duplicate();
                    let duplicate = me.procedures[j].1.descriptor.location.duplicate();
                    me.errors.push(
                        DuplicateProcedureKeyError { path, original, duplicate: Some(duplicate) },
                    );
                    assert(errors_view(me.errors@) =~= errors_view(before).push(
                        errors_view(me.errors@).last(),
                    ));
                },
                None => {},
            }
            i = i + 1;
        }
        assert(o0.entries.subrange(0, oprocs@.len() as int) =~= o0.entries);
        let ghost s_before = me.setup@;
        me.setup.append(&mut osetup);
        assert(hooks_view(me.setup@) =~= hooks_view(s_before) + o0.setup);
        proof {
            assert forall|k: int| 0 <= k < o0.entries.len() implies (#[trigger] o0.entries[k]).0.len()
                > 0 by {}
        }
        let ghost k: int = 0;
        while oprocs.len() > 0
            invariant
                0 <= k <= o0.entries.len(),
                entries_view(me.procedures@) == upsert_all(
                    s0.entries,
                    o0.entries.subrange(0, k),
                ),
                entries_view(oprocs@) == o0.entries.subrange(k, o0.entries.len() as int),
                entries_wf(s0.entries),
                entries_wf(o0.entries),
                hooks_view(me.setup@) == s0.setup + o0.setup,
                errors_view(me.errors@) == s0.errors + collisions(s0.entries, o0.entries),
            decreases oprocs@.len(),
        {
            let ghost old_oprocs = oprocs@;
            let e = oprocs.remove(0);
            proof {
                assert(entries_view(old_oprocs).len() == old_oprocs.len());
                assert(entries_view(old_oprocs)[0] == o0.entries.subrange(k, o0.entries.len() as int)[0]);
                assert(o0.entries[k] == entries_view(old_oprocs)[0]);
                let sub = o0.entries.subrange(0, k);
                assert forall|t: int| 0 <= t < sub.len() implies (#[trigger] sub[t]).0.len() > 0 by {
                    assert(sub[t] == o0.entries[t]);
                }
                lemma_upsert_all_wf(s0.entries, sub);
            }
            upsert_entry(&mut me.procedures, e);
            proof {
                k = k + 1;
                let sub = o0.entries.subrange(0, k);
                assert(sub.drop_last() =~= o0.entries.subrange(0, k - 1));
                assert(sub.last() == o0.entries[k - 1]);
                assert(oprocs@ =~= old_oprocs.subrange(1, old_oprocs.len() as int));
                assert(entries_view(oprocs@) =~= entries_view(old_oprocs).subrange(1, old_oprocs.len() as int));
                assert(entries_view(oprocs@) =~= o0.entries.subrange(k, o0.entries.len() as int));
            }
        }
        let ghost before = me.errors@;
        me.errors.append(&mut oerrors);
        proof {
            assert(o0.entries.subrange(0, k) =~= o0.entries);
            assert(errors_view(me.errors@) =~= errors_view(before) + o0.errors);
            assert forall|t: int| 0 <= t < o0.entries.len() implies (#[trigger] o0.entries[t]).0.len()
                > 0 by {}
            lemma_upsert_all_wf(s0.entries, o0.entries);
        }
        me
    }

    /// Builds the router. Fails with every recorded collision, and does nothing
    /// else, when there is any; otherwise yields the setup hooks to run in order,
    /// the dispatch table and the descriptors.
    pub fn build(self) -> (r: Result<BuiltRouter, Vec<DuplicateProcedureKeyError>>)
        requires
            self.wf(),
        ensures
            (r is Err) == (self@.errors.len() > 0),
            r is Err ==> errors_view(r->Err_0@) == self@.errors,
            r is Ok ==> r->Ok_0@ == spec_built(self@),
    {
        let ghost s0 = self@;
        let Router { setup, procedures, errors } = self;
        if errors.len() > 0 {
            return Err(errors);
        }
        let ghost fd = |e: (Seq<Seq<char>>, Registered)|
            (flatten(e.0), DispatchEntry { handler: e.1.handler, kind: e.1.descriptor.kind });
        let mut table: Vec<(String, DispatchEntry)> = Vec::new();
        let mut i: usize = 0;
        while i < procedures.len()
            invariant
                i <= procedures@.len(),
                entries_view(procedures@) == s0.entries,
                entries_wf(s0.entries),
                table@.map_values(|e: (String, DispatchEntry)| (e.0@, e.1))
                    == s0.entries.subrange(0, i as int).map_values(fd),
                fd == (|e: (Seq<Seq<char>>, Registered)|
                    (flatten(e.0), DispatchEntry { handler: e.1.handler, kind: e.1.descriptor.kind })),
            decreases procedures@.len() - i,
        {
            assert(s0.entries[i as int].0.len() > 0);
            let name = get_flattened_name(&procedures[i].0);
            let entry = DispatchEntry {
                handler: procedures[i].1.handler,
                kind: procedures[i].1.descriptor.kind,
            };
            let ghost before = table@;
            table.push((name, entry));
            proof {
                assert(s0.entries.subrange(0, i as int + 1).map_values(fd) =~= s0.entries.subrange(
                    0,
                    i as int,
                ).map_values(fd).push(fd(s0.entries[i as int])));
                assert(table@.map_values(|e: (String, DispatchEntry)| (e.0@, e.1)) =~= before.map_values(
                    |e: (String, DispatchEntry)| (e.0@, e.1),
                ).push((name@, entry)));
            }
            i = i + 1;
        }
        proof {
            assert(s0.entries.subrange(0, i as int) =~= s0.entries);
        }
        let ghost fy = |e: (Seq<Seq<char>>, Registered)| (e.0, e.1.descriptor);
        let mut types: Vec<(Vec<String>, ProcedureDescriptor)> = Vec::new();
        let mut procs = procedures;
        let ghost k: int = 0;
        while procs.len() > 0
            invariant
                0 <= k <= s0.entries.len(),
                entries_view(procs@) == s0.entries.subrange(k, s0.entries.len() as int),
                types@.map_values(|e: (Vec<String>, ProcedureDescriptor)| (path_view(e.0), e.1))
                    == s0.entries.subrange(0, k).map_values(fy),
                fy == (|e: (Seq<Seq<char>>, Registered)| (e.0, e.1.descriptor)),
            decreases procs@.len(),
        {
            let ghost old_procs = procs@;
            let e = procs.remove(0);
            let ghost before = types@;
            let (path, reg) = e;
            let ghost pv = path_view(path);
            types.push((path, reg.descriptor));
            proof {
                assert(entries_view(old_procs).len() == old_procs.len());
                assert(entries_view(old_procs)[0] == s0.entries.subrange(k, s0.entries.len() as int)[0]);
                assert(s0.entries[k] == entries_view(old_procs)[0]);
                k = k + 1;
                assert(s0.entries.subrange(0, k).map_values(fy) =~= s0.entries.subrange(
                    0,
                    k - 1,
                ).map_values(fy).push(fy(s0.entries[k - 1])));
                assert(types@.map_values(
                    |e: (Vec<String>, ProcedureDescriptor)| (path_view(e.0), e.1),
                ) =~= before.map_values(
                    |e: (Vec<String>, ProcedureDescriptor)| (path_view(e.0), e.1),
                ).push((pv, reg.descriptor)));
                assert(procs@ =~= old_procs.subrange(1, old_procs.len() as int));
                assert(entries_view(procs@) =~= entries_view(old_procs).subrange(1, old_procs.len() as int));
                assert(entries_view(procs@) =~= s0.entries.subrange(k, s0.entries.len() as int));
            }
        }
        proof {
            assert(s0.entries.subrange(0, k) =~= s0.entries);
        }
        let built = BuiltRouter { setup_order: setup, procedures: table, types };
        assert(built@.procedures =~= spec_built(s0).procedures);
        assert(built@.types =~= spec_built(s0).types);
        Ok(built)
    }
}

/// The names of the procedures of kind `kind`, in table order.
pub open spec fn names_of_kind(p: Seq<(Seq<char>, DispatchEntry)>, kind: ProcedureKind) -> Seq<
    Seq<char>,
>
    decreases p.len(),
{
    if p.len() == 0 {
        Seq::empty()
    } else {
        let rest = names_of_kind(p.drop_last(), kind);
        if p.last().1.kind == kind {
            rest.push(p.last().0)
        } else {
            rest
        }
    }
}

impl BuiltRouter {
    /// This router behind a shared handle, for transports serving calls
    /// concurrently.
    pub fn arced(self) -> (r: std::sync::Arc<BuiltRouter>)
        ensures
            *r == self,
    {
        std::sync::Arc::new(self)
    }

    /// The procedure dispatched under `name`.
    pub fn get(&self, name: &String) -> (r: Option<DispatchEntry>)
        ensures
            match r {
                Some(e) => exists|i: int|
                    0 <= i < self@.procedures.len() && self@.procedures[i] == (name@, e) && forall|
                        j: int,
                    |
                        0 <= j < i ==> (#[trigger] self@.procedures[j]).0 != name@,
                None => forall|i: int|
                    0 <= i < self@.procedures.len() ==> (#[trigger] self@.procedures[i]).0
                        != name@,
            },
    {
        let ghost pv = self@.procedures;
        let mut i: usize = 0;
        while i < self.procedures.len()
            invariant
                pv == self@.procedures,
                i <= self.procedures@.len(),
                forall|j: int| 0 <= j < i ==> (#[trigger] pv[j]).0 != name@,
            decreases self.procedures@.len() - i,
        {
            if self.procedures[i].0 == *name {
                assert(pv[i as int] == (name@, self.procedures@[i as int].1));
                return Some(self.procedures[i].1);
            }
            i = i + 1;
        }
        None
    }

    fn names(&self, kind: ProcedureKind) -> (r: Vec<String>)
        ensures
            r@.map_values(|s: String| s@) == names_of_kind(self@.procedures, kind),
    {
        let ghost pv = self@.procedures;
        let mut out: Vec<String> = Vec::new();
        let mut i: usize = 0;
        while i < self.procedures.len()
            invariant
                pv == self@.procedures,
                i <= self.procedures@.len(),
                out@.map_values(|s: String| s@) == names_of_kind(pv.subrange(0, i as int), kind),
            decreases self.procedures@.len() - i,
        {
            let ghost sub = pv.subrange(0, i as int + 1);
            assert(sub.drop_last() =~= pv.subrange(0, i as int));
            assert(sub.last() == pv[i as int]);
            let ghost before = out@;
            if self.procedures[i].1.kind == kind {
                out.push(self.procedures[i].0.clone());
                assert(out@.map_values(|s: String| s@) =~= before.map_values(|s: String| s@).push(
                    pv[i as int].0,
                ));
            }
            i = i + 1;
        }
        assert(pv.subrange(0, i as int) =~= pv);
        out
    }

    /// The names of the queries.
    pub fn queries(&self) -> (r: Vec<String>)
        ensures
            r@.map_values(|s: String| s@) == names_of_kind(self@.procedures, ProcedureKind::Query),
    {
        self.names(ProcedureKind::Query)
    }

    /// The names of the mutations.
    pub fn mutations(&self) -> (r: Vec<String>)
        ensures
            r@.map_values(|s: String| s@) == names_of_kind(
                self@.procedures,
                ProcedureKind::Mutation,
            ),
    {
        self.names(ProcedureKind::Mutation)
    }

    /// The names of the subscriptions.
    pub fn subscriptions(&self) -> (r: Vec<String>)
        ensures
            r@.map_values(|s: String| s@) == names_of_kind(
                self@.procedures,
                ProcedureKind::Subscription,
            ),
    {
        self.names(ProcedureKind::Subscription)
    }
}

} // verus!
