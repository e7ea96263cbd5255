//! Laws relating the router's operations to the result of building it.
use vstd::prelude::*;
use crate::path::flatten;
use crate::router::{
    collisions, contains_path, entries_wf, has_head, paths_of, prefix_entry, spec_built,
    spec_merge, spec_nest, upsert, upsert_all, DuplicateView, Entries, Registered, RouterView,
};

verus! {

/// Two lists of entries have no path in common.
pub open spec fn disjoint(a: Entries, b: Entries) -> bool {
    forall|k: Seq<Seq<char>>| contains_path(a, k) ==> !contains_path(b, k)
}

/// The paths of `b` that `a` holds too, in the order of `b`.
pub open spec fn shared_paths(a: Entries, b: Entries) -> Seq<Seq<Seq<char>>> {
    paths_of(b).filter(held_by(a))
}

/// Whether a path is held by `a`.
pub open spec fn held_by(a: Entries) -> spec_fn(Seq<Seq<char>>) -> bool {
    |k: Seq<Seq<char>>| contains_path(a, k)
}

proof fn lemma_contains_drop_last(b: Entries, k: Seq<Seq<char>>)
    requires
        b.len() > 0,
    ensures
        contains_path(b, k) <==> (contains_path(b.drop_last(), k) || b.last().0 == k),
{
    let c = b.drop_last();
    if contains_path(b, k) {
        let i = choose|i: int| 0 <= i < b.len() && (#[trigger] b[i]).0 == k;
        if i < c.len() {
            assert(c[i] == b[i]);
        }
    }
    if contains_path(c, k) {
        let i = choose|i: int| 0 <= i < c.len() && (#[trigger] c[i]).0 == k;
        assert(b[i] == c[i]);
    }
}

proof fn lemma_disjoint_merge(a: Entries, b: Entries)
    requires
        entries_wf(b),
        disjoint(a, b),
    ensures
        upsert_all(a, b) == a + b,
        collisions(a, b).len() == 0,
    decreases b.len(),
{
    if b.len() > 0 {
        let c = b.drop_last();
        assert forall|i: int, j: int|
            0 <= i < c.len() && 0 <= j < c.len() && i != j implies (#[trigger] c[i]).0 != (
            #[trigger] c[j]).0 by {
            assert(c[i] == b[i] && c[j] == b[j]);
        }
        assert forall|i: int| 0 <= i < c.len() implies (#[trigger] c[i]).0.len() > 0 by {
            assert(c[i] == b[i]);
        }
        assert forall|k: Seq<Seq<char>>| contains_path(a, k) implies !contains_path(c, k) by {
            lemma_contains_drop_last(b, k);
        }
        lemma_disjoint_merge(a, c);
        let e = b.last();
        assert(e == b[b.len() - 1]);
        lemma_contains_drop_last(b, e.0);
        assert(!contains_path(a, e.0));
        assert(!contains_path(c, e.0)) by {
            if contains_path(c, e.0) {
                let i = choose|i: int| 0 <= i < c.len() && (#[trigger] c[i]).0 == e.0;
                assert(b[i] == c[i]);
                assert(b[i].0 == b[b.len() - 1].0);
            }
        }
        assert(!contains_path(a + c, e.0)) by {
            if contains_path(a + c, e.0) {
                let i = choose|i: int| 0 <= i < (a + c).len() && (#[trigger] (a + c)[i]).0 == e.0;
                if i < a.len() {
                    assert(a[i] == (a + c)[i]);
                } else {
                    assert(c[i - a.len()] == (a + c)[i]);
                }
            }
        }
        assert(upsert(a + c, e) == (a + c).push(e));
        assert((a + c).push(e) =~= a + b);
    }
}

/// Merging two routers that have recorded no collision and share no path
/// records no collision, and the merged router holds the entries of the first
/// followed by those of the second: building it succeeds, and its dispatch
/// table and descriptors cover exactly the paths of both.
pub proof fn merge_of_disjoint_routers_builds(r1: RouterView, r2: RouterView)
    requires
        entries_wf(r1.entries),
        entries_wf(r2.entries),
        r1.errors.len() == 0,
        r2.errors.len() == 0,
        disjoint(r1.entries, r2.entries),
    ensures
        spec_merge(r1, r2).errors.len() == 0,
        spec_merge(r1, r2).entries == r1.entries + r2.entries,
        spec_built(spec_merge(r1, r2)).procedures.len() == r1.entries.len() + r2.entries.len(),
        forall|k: Seq<Seq<char>>|
            contains_path(spec_merge(r1, r2).entries, k) <==> (contains_path(r1.entries, k)
                || contains_path(r2.entries, k)),
        forall|i: int|
            0 <= i < r1.entries.len() + r2.entries.len() ==> #[trigger] spec_built(
                spec_merge(r1, r2),
            ).procedures[i].0 == flatten((r1.entries + r2.entries)[i].0),
{
    lemma_disjoint_merge(r1.entries, r2.entries);
    let m = r1.entries + r2.entries;
    assert(spec_merge(r1, r2).errors =~= Seq::<DuplicateView>::empty());
    assert forall|k: Seq<Seq<char>>|
        contains_path(m, k) <==> (contains_path(r1.entries, k) || contains_path(r2.entries, k)) by {
        if contains_path(m, k) {
            let i = choose|i: int| 0 <= i < m.len() && (#[trigger] m[i]).0 == k;
            if i < r1.entries.len() {
                assert(r1.entries[i] == m[i]);
            } else {
                assert(r2.entries[i - r1.entries.len()] == m[i]);
            }
        }
        if contains_path(r1.entries, k) {
            let i = choose|i: int| 0 <= i < r1.entries.len() && (#[trigger] r1.entries[i]).0 == k;
            assert(m[i] == r1.entries[i]);
        }
        if contains_path(r2.entries, k) {
            let i = choose|i: int| 0 <= i < r2.entries.len() && (#[trigger] r2.entries[i]).0 == k;
            assert(m[i + r1.entries.len()] == r2.entries[i]);
        }
    }
}

proof fn lemma_collision_paths(a: Entries, b: Entries)
    ensures
        collisions(a, b).map_values(|d: DuplicateView| d.path) == shared_paths(a, b),
    decreases b.len(),
{
    reveal(Seq::filter);
    if b.len() == 0 {
        assert(collisions(a, b).map_values(|d: DuplicateView| d.path) =~= Seq::empty());
        assert(paths_of(b) =~= Seq::empty());
    } else {
        let c = b.drop_last();
        lemma_collision_paths(a, c);
        assert(paths_of(b).drop_last() =~= paths_of(c));
        assert(paths_of(b).last() == b.last().0);
        let rest = collisions(a, c);
        if contains_path(a, b.last().0) {
            let v = collisions(a, b);
            assert(v.map_values(|d: DuplicateView| d.path) =~= rest.map_values(
                |d: DuplicateView| d.path,
            ).push(b.last().0));
        }
    }
}

/// Keeping the elements of `s` that satisfy `pred` keeps exactly those, and
/// brings in no repeat that `s` does not have.
proof fn lemma_filter_keeps<A>(s: Seq<A>, pred: spec_fn(A) -> bool)
    ensures
        forall|x: A| s.filter(pred).contains(x) <==> (s.contains(x) && pred(x)),
        s.no_duplicates() ==> s.filter(pred).no_duplicates(),
    decreases s.len(),
{
    reveal(Seq::filter);
    if s.len() > 0 {
        let c = s.drop_last();
        lemma_filter_keeps(c, pred);
        let f = s.filter(pred);
        let fc = c.filter(pred);
        assert forall|x: A| s.contains(x) <==> (c.contains(x) || x == s.last()) by {
            if s.contains(x) {
                let i = choose|i: int| 0 <= i < s.len() && s[i] == x;
                if i < c.len() {
                    assert(c[i] == x);
                }
            }
            if c.contains(x) {
                let i = choose|i: int| 0 <= i < c.len() && c[i] == x;
                assert(s[i] == x);
            }
            if x == s.last() {
                assert(s[s.len() - 1] == x);
            }
        }
        if pred(s.last()) {
            assert(f == fc.push(s.last()));
            assert forall|x: A| f.contains(x) <==> (fc.contains(x) || x == s.last()) by {
                if f.contains(x) {
                    let i = choose|i: int| 0 <= i < f.len() && f[i] == x;
                    if i < fc.len() {
                        assert(fc[i] == x);
                    }
                }
                if fc.contains(x) {
                    let i = choose|i: int| 0 <= i < fc.len() && fc[i] == x;
                    assert(f[i] == x);
                }
                if x == s.last() {
                    assert(f[f.len() - 1] == x);
                }
            }
            if s.no_duplicates() {
                assert(c.no_duplicates()) by {
                    assert forall|i: int, j: int|
                        0 <= i < c.len() && 0 <= j < c.len() && i != j implies c[i] != c[j] by {
                        assert(c[i] == s[i] && c[j] == s[j]);
                    }
                }
                assert(!c.contains(s.last())) by {
                    if c.contains(s.last()) {
                        let i = choose|i: int| 0 <= i < c.len() && c[i] == s.last();
                        assert(s[i] == s[s.len() - 1]);
                    }
                }
                assert forall|i: int, j: int|
                    0 <= i < f.len() && 0 <= j < f.len() && i != j implies f[i] != f[j] by {
                    if i < fc.len() && j < fc.len() {
                        assert(f[i] == fc[i] && f[j] == fc[j]);
                    } else if i < fc.len() {
                        assert(f[i] == fc[i]);
                        assert(fc.contains(f[i]));
                    } else {
                        assert(f[j] == fc[j]);
                        assert(fc.contains(f[j]));
                    }
                }
            }
        } else {
            assert(f == fc);
            if s.no_duplicates() {
                assert(c.no_duplicates()) by {
                    assert forall|i: int, j: int|
                        0 <= i < c.len() && 0 <= j < c.len() && i != j implies c[i] != c[j] by {
                        assert(c[i] == s[i] && c[j] == s[j]);
                    }
                }
            }
        }
    }
}

/// Merging two routers that have recorded no collision but share paths records
/// exactly one collision for each shared path, and none for any other path, in
/// the order of the second router; so building the merged router fails with at
/// least one.
pub proof fn merge_with_shared_paths_fails(r1: RouterView, r2: RouterView, k: Seq<Seq<char>>)
    requires
        entries_wf(r2.entries),
        r1.errors.len() == 0,
        r2.errors.len() == 0,
        contains_path(r1.entries, k),
        contains_path(r2.entries, k),
    ensures
        spec_merge(r1, r2).errors.map_values(|d: DuplicateView| d.path) == shared_paths(
            r1.entries,
            r2.entries,
        ),
        spec_merge(r1, r2).errors.map_values(|d: DuplicateView| d.path).no_duplicates(),
        forall|x: Seq<Seq<char>>|
            spec_merge(r1, r2).errors.map_values(|d: DuplicateView| d.path).contains(x) <==> (
            contains_path(r1.entries, x) && contains_path(r2.entries, x)),
        spec_merge(r1, r2).errors.len() >= 1,
{
    lemma_collision_paths(r1.entries, r2.entries);
    let m = spec_merge(r1, r2);
    assert(m.errors =~= collisions(r1.entries, r2.entries));
    let pred = held_by(r1.entries);
    let ps = paths_of(r2.entries);
    lemma_filter_keeps(ps, pred);
    assert forall|x: Seq<Seq<char>>| ps.contains(x) <==> contains_path(r2.entries, x) by {
        if ps.contains(x) {
            let i = choose|i: int| 0 <= i < ps.len() && ps[i] == x;
            assert(r2.entries[i].0 == x);
        }
        if contains_path(r2.entries, x) {
            let i = choose|i: int| 0 <= i < r2.entries.len() && (#[trigger] r2.entries[i]).0 == x;
            assert(ps[i] == x);
        }
    }
    assert(ps.no_duplicates()) by {
        assert forall|i: int, j: int| 0 <= i < ps.len() && 0 <= j < ps.len() && i != j implies ps[i]
            != ps[j] by {
            assert(ps[i] == r2.entries[i].0 && ps[j] == r2.entries[j].0);
        }
    }
    assert(ps.contains(k));
    assert(pred(k));
    assert(ps.filter(pred).contains(k));
    assert(m.errors.map_values(|d: DuplicateView| d.path) == ps.filter(pred));
    assert forall|x: Seq<Seq<char>>|
        m.errors.map_values(|d: DuplicateView| d.path).contains(x) <==> (contains_path(
            r1.entries,
            x,
        ) && contains_path(r2.entries, x)) by {
        assert(pred(x) == contains_path(r1.entries, x));
        assert(ps.filter(pred).contains(x) <==> (ps.contains(x) && pred(x)));
    }
    assert(m.errors.map_values(|d: DuplicateView| d.path).len() >= 1);
}

/// Joining a segment in front of a non-empty path adds it and a dot in front of
/// the flattened name.
pub proof fn lemma_flatten_prefix(p: Seq<char>, k: Seq<Seq<char>>)
    requires
        k.len() > 0,
    ensures
        flatten(seq![p] + k) == p + seq!['.'] + flatten(k),
    decreases k.len(),
{
    let s = seq![p] + k;
    if k.len() == 1 {
        assert(s.drop_last() =~= seq![p]);
        assert(s.last() == k[0]);
        assert(flatten(seq![p]) == p);
        assert(flatten(k) == k[0]);
        assert(flatten(s) == flatten(s.drop_last()) + seq!['.'] + s.last());
    } else {
        assert(flatten(k) == flatten(k.drop_last()) + seq!['.'] + k.last());
        lemma_flatten_prefix(p, k.drop_last());
        assert(s.drop_last() =~= seq![p] + k.drop_last());
        assert(s.last() == k.last());
        assert(flatten(s) == flatten(s.drop_last()) + seq!['.'] + s.last());
        assert(p + seq!['.'] + flatten(k) =~= p + seq!['.'] + flatten(k.drop_last()) + seq!['.']
            + k.last());
    }
}

/// Nesting a router without collisions under a fresh prefix and building keeps
/// the entries already present, then places each descriptor of the nested router,
/// in its order, at its path behind the prefix, and dispatches it under
/// `prefix.<its flattened path>`.
pub proof fn nest_places_descriptors_under_prefix(r: RouterView, prefix: Seq<char>, o: RouterView)
    requires
        entries_wf(o.entries),
        r.errors.len() == 0,
        o.errors.len() == 0,
        !has_head(r.entries, prefix),
    ensures
        spec_nest(r, prefix, o).errors.len() == 0,
        spec_built(spec_nest(r, prefix, o)).types.len() == r.entries.len() + o.entries.len(),
        forall|i: int|
            0 <= i < r.entries.len() ==> #[trigger] spec_built(spec_nest(r, prefix, o)).types[i]
                == (r.entries[i].0, r.entries[i].1.descriptor),
        forall|i: int|
            0 <= i < o.entries.len() ==> #[trigger] spec_built(spec_nest(r, prefix, o)).types[i
                + r.entries.len()] == (seq![prefix] + o.entries[i].0, o.entries[i].1.descriptor),
        forall|i: int|
            0 <= i < o.entries.len() ==> #[trigger] spec_built(spec_nest(r, prefix, o)).procedures[i
                + r.entries.len()].0 == prefix + seq!['.'] + flatten(o.entries[i].0),
{
    let n = spec_nest(r, prefix, o);
    let m = o.entries.map_values(|e: (Seq<Seq<char>>, Registered)| prefix_entry(prefix, e));
    assert(n.errors =~= Seq::<DuplicateView>::empty());
    assert(n.entries == r.entries + m);
    assert forall|i: int| 0 <= i < o.entries.len() implies #[trigger] spec_built(n).procedures[i
        + r.entries.len()].0 == prefix + seq!['.'] + flatten(o.entries[i].0) by {
        assert(n.entries[i + r.entries.len()] == m[i]);
        assert(o.entries[i].0.len() > 0);
        lemma_flatten_prefix(prefix, o.entries[i].0);
    }
    assert forall|i: int| 0 <= i < o.entries.len() implies #[trigger] spec_built(n).types[i
        + r.entries.len()] == (seq![prefix] + o.entries[i].0, o.entries[i].1.descriptor) by {
        assert(n.entries[i + r.entries.len()] == m[i]);
    }
    assert forall|i: int| 0 <= i < r.entries.len() implies #[trigger] spec_built(n).types[i] == (
    r.entries[i].0, r.entries[i].1.descriptor) by {
        assert(n.entries[i] == r.entries[i]);
    }
}

} // verus!
