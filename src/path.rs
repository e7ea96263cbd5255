//! Procedure paths: sequences of namespace segments, and their flattened,
//! dot-joined form.
use vstd::prelude::*;
use vstd::string::StringExecFns;

verus! {

/// The segments of a path, as character sequences.
pub open spec fn path_view(p: Vec<String>) -> Seq<Seq<char>> {
    p@.map_values(|s: String| s@)
}

/// The segments of a path joined by dots.
pub open spec fn flatten(p: Seq<Seq<char>>) -> Seq<char>
    decreases p.len(),
{
    if p.len() == 0 {
        Seq::empty()
    } else if p.len() == 1 {
        p[0]
    } else {
        flatten(p.drop_last()) + seq!['.'] + p.last()
    }
}

/// Whether two paths have the same segments.
pub fn paths_equal(a: &Vec<String>, b: &Vec<String>) -> (r: bool)
    ensures
        r == (path_view(*a) == path_view(*b)),
{
    if a.len() != b.len() {
        proof {
            assert(path_view(*a).len() != path_view(*b).len());
        }
        return false;
    }
    let mut i: usize = 0;
    while i < a.len()
        invariant
            a@.len() == b@.len(),
            i <= a@.len(),
            forall|j: int| 0 <= j < i ==> #[trigger] a@[j]@ == b@[j]@,
        decreases a@.len() - i,
    {
        if a[i] != b[i] {
            proof {
                assert(path_view(*a)[i as int] != path_view(*b)[i as int]);
            }
            return false;
        }
        i = i + 1;
    }
    assert(path_view(*a) =~= path_view(*b));
    true
}

/// A copy of a path.
pub fn clone_path(p: &Vec<String>) -> (r: Vec<String>)
    ensures
        r@ == p@,
{
    let mut r: Vec<String> = Vec::new();
    let mut i: usize = 0;
    while i < p.len()
        invariant
            i <= p@.len(),
            r@ == p@.subrange(0, i as int),
        decreases p@.len() - i,
    {
        r.push(p[i].clone());
        assert(r@ =~= p@.subrange(0, i as int + 1));
        i = i + 1;
    }
    assert(r@ =~= p@);
    r
}

/// `prefix` followed by the segments of `p`.
pub fn prefixed(prefix: &String, p: Vec<String>) -> (r: Vec<String>)
    ensures
        path_view(r) == seq![prefix@] + path_view(p),
{
    let mut r: Vec<String> = Vec::new();
    r.push(prefix.clone());
    let mut rest = p;
    r.append(&mut rest);
    assert(path_view(r) =~= seq![prefix@] + path_view(p));
    r
}

/// The name under which a procedure at path `name` is dispatched: its segments
/// joined by dots.
pub fn get_flattened_name(name: &Vec<String>) -> (r: String)
    requires
        name@.len() > 0,
    ensures
        r@ == flatten(path_view(*name)),
{
    let mut out = name[0].clone();
    let mut i: usize = 1;
    assert(path_view(*name).subrange(0, 1) =~= seq![name@[0]@]);
    while i < name.len()
        invariant
            1 <= i <= name@.len(),
            out@ == flatten(path_view(*name).subrange(0, i as int)),
        decreases name@.len() - i,
    {
        proof {
            reveal_strlit(".");
        }
        out.append(".");
        out.append(name[i].as_str());
        let ghost next = path_view(*name).subrange(0, i as int + 1);
        assert(next.drop_last() =~= path_view(*name).subrange(0, i as int));
        assert(next.len() >= 2 && next.last() == name@[i as int]@);
        assert(out@ =~= flatten(next));
        i = i + 1;
    }
    assert(path_view(*name).subrange(0, name@.len() as int) =~= path_view(*name));
    out
}

} // verus!
