//! Path addressing — a list of segments used to navigate the value tree.

use vstd::prelude::*;

verus! {

/// A single segment in a navigation path.
#[derive(Debug)]
pub enum PathSegment {
    /// Navigate into an object by key.
    Key(String),
    /// Navigate into an array by index.
    Index(usize),
}

/// The mathematical view of a path segment.
pub enum Seg {
    Key(Seq<char>),
    Index(usize),
}

/// A path through the value tree, as a list of segments.
///
/// For example, `["server", "port"]` navigates to the `port` field inside
/// the `server` object; `["items", 0]` to the first element of `items`.
pub type Path = Vec<PathSegment>;

impl View for PathSegment {
    type V = Seg;

    open spec fn view(&self) -> Seg {
        match self {
            PathSegment::Key(k) => Seg::Key(k@),
            PathSegment::Index(i) => Seg::Index(*i),
        }
    }
}

/// The view of a path: the views of its segments, in order.
pub open spec fn path_view(p: Seq<PathSegment>) -> Seq<Seg> {
    p.map_values(|s: PathSegment| s@)
}

impl Clone for PathSegment {
    fn clone(&self) -> (r: Self)
        ensures
            r@ == self@,
    {
        match self {
            PathSegment::Key(k) => PathSegment::Key(k.clone()),
            PathSegment::Index(i) => PathSegment::Index(*i),
        }
    }
}

impl PartialEq for PathSegment {
    fn eq(&self, other: &Self) -> (r: bool) {
        match (self, other) {
            (PathSegment::Key(a), PathSegment::Key(b)) => a.eq(b),
            (PathSegment::Index(a), PathSegment::Index(b)) => *a == *b,
            _ => false,
        }
    }
}

impl vstd::std_specs::cmp::PartialEqSpecImpl for PathSegment {
    open spec fn obeys_eq_spec() -> bool {
        true
    }

    open spec fn eq_spec(&self, other: &Self) -> bool {
        self@ == other@
    }
}

impl Eq for PathSegment {}

impl From<String> for PathSegment {
    fn from(s: String) -> (r: Self) {
        PathSegment::Key(s)
    }
}

impl vstd::std_specs::convert::FromSpecImpl<String> for PathSegment {
    open spec fn obeys_from_spec() -> bool {
        true
    }

    open spec fn from_spec(s: String) -> Self {
        PathSegment::Key(s)
    }
}

impl From<&str> for PathSegment {
    fn from(s: &str) -> (r: Self)
        ensures
            r@ == Seg::Key(s@),
    {
        PathSegment::Key(s.to_owned())
    }
}

impl vstd::std_specs::convert::FromSpecImpl<&str> for PathSegment {
    open spec fn obeys_from_spec() -> bool {
        false
    }

    open spec fn from_spec(s: &str) -> Self {
        arbitrary()
    }
}

impl From<usize> for PathSegment {
    fn from(i: usize) -> (r: Self) {
        PathSegment::Index(i)
    }
}

impl vstd::std_specs::convert::FromSpecImpl<usize> for PathSegment {
    open spec fn obeys_from_spec() -> bool {
        true
    }

    open spec fn from_spec(i: usize) -> Self {
        PathSegment::Index(i)
    }
}

/// Clone a path segment by segment.
pub fn clone_path(p: &[PathSegment]) -> (r: Path)
    ensures
        path_view(r@) == path_view(p@),
{
    let mut r: Path = Vec::new();
    let mut i: usize = 0;
    while i < p.len()
        invariant
            i <= p@.len(),
            path_view(r@) == path_view(p@.subrange(0, i as int)),
        decreases p@.len() - i,
    {
        let s = p[i].clone();
        let ghost old_r = r@;
        r.push(s);
        proof {
            assert(p@.subrange(0, i + 1) =~= p@.subrange(0, i as int).push(p@[i as int]));
            assert(path_view(r@) =~= path_view(old_r).push(s@));
            assert(path_view(p@.subrange(0, i + 1)) =~= path_view(p@.subrange(0, i as int)).push(
                p@[i as int]@,
            ));
        }
        i = i + 1;
    }
    proof {
        assert(p@.subrange(0, p@.len() as int) == p@);
    }
    r
}

/// Do two paths name the same location?
pub fn paths_equal(a: &[PathSegment], b: &[PathSegment]) -> (r: bool)
    ensures
        r == (path_view(a@) == path_view(b@)),
{
    if a.len() != b.len() {
        proof {
            assert(path_view(a@).len() != path_view(b@).len());
        }
        return false;
    }
    let mut i: usize = 0;
    while i < a.len()
        invariant
            a@.len() == b@.len(),
            i <= a@.len(),
            forall|j: int| 0 <= j < i ==> a@[j]@ == b@[j]@,
        decreases a@.len() - i,
    {
        if !(a[i] == b[i]) {
            proof {
                assert(path_view(a@)[i as int] != path_view(b@)[i as int]);
            }
            return false;
        }
        i = i + 1;
    }
    proof {
        assert(path_view(a@) =~= path_view(b@));
    }
    true
}


/// The views of a list of paths.
pub open spec fn paths_view(ps: Seq<Path>) -> Seq<Seq<Seg>> {
    ps.map_values(|p: Path| path_view(p@))
}

/// Is `path` one of `paths`?
pub fn contains_path(paths: &[Path], path: &[PathSegment]) -> (r: bool)
    ensures
        r == paths_view(paths@).contains(path_view(path@)),
{
    let mut i: usize = 0;
    while i < paths.len()
        invariant
            i <= paths@.len(),
            forall|j: int| 0 <= j < i ==> path_view(#[trigger] paths@[j]@) != path_view(path@),
        decreases paths@.len() - i,
    {
        if paths_equal(paths[i].as_slice(), path) {
            proof {
                assert(paths_view(paths@)[i as int] == path_view(path@));
            }
            return true;
        }
        i = i + 1;
    }
    proof {
        if paths_view(paths@).contains(path_view(path@)) {
            let j = choose|j: int| 0 <= j < paths_view(paths@).len() && paths_view(paths@)[j] == path_view(path@);
            assert(path_view(paths@[j]@) != path_view(path@));
        }
    }
    false
}


/// The path without its last segment.
pub fn parent_of(p: &[PathSegment]) -> (r: Path)
    requires
        p@.len() > 0,
    ensures
        path_view(r@) == path_view(p@).drop_last(),
{
    let mut r: Path = Vec::new();
    let mut i: usize = 0;
    let n = p.len() - 1;
    while i < n
        invariant
            i <= n,
            n == p@.len() - 1,
            path_view(r@) == path_view(p@.subrange(0, i as int)),
        decreases n - i,
    {
        let s = p[i].clone();
        let ghost old_r = r@;
        r.push(s);
        proof {
            assert(p@.subrange(0, i + 1) =~= p@.subrange(0, i as int).push(p@[i as int]));
            assert(path_view(r@) =~= path_view(old_r).push(s@));
            assert(path_view(p@.subrange(0, i + 1)) =~= path_view(p@.subrange(0, i as int)).push(p@[i as int]@));
        }
        i = i + 1;
    }
    proof {
        assert(path_view(p@.subrange(0, n as int)) =~= path_view(p@).drop_last());
    }
    r
}

/// The path extended by one segment.
pub fn child_of(p: &[PathSegment], s: PathSegment) -> (r: Path)
    ensures
        path_view(r@) == path_view(p@).push(s@),
{
    let mut r = clone_path(p);
    let ghost before = r@;
    r.push(s);
    proof {
        assert(path_view(r@) =~= path_view(before).push(s@));
    }
    r
}


/// The first `n` segments of a path.
pub fn path_prefix(p: &[PathSegment], n: usize) -> (r: Path)
    requires
        n <= p@.len(),
    ensures
        path_view(r@) == path_view(p@).take(n as int),
{
    let mut r: Path = Vec::new();
    let mut i: usize = 0;
    while i < n
        invariant
            i <= n <= p@.len(),
            path_view(r@) == path_view(p@.subrange(0, i as int)),
        decreases n - i,
    {
        let s = p[i].clone();
        let ghost old_r = r@;
        r.push(s);
        proof {
            assert(p@.subrange(0, i + 1) =~= p@.subrange(0, i as int).push(p@[i as int]));
            assert(path_view(r@) =~= path_view(old_r).push(s@));
            assert(path_view(p@.subrange(0, i + 1)) =~= path_view(p@.subrange(0, i as int)).push(p@[i as int]@));
        }
        i = i + 1;
    }
    proof {
        assert(path_view(p@.subrange(0, n as int)) =~= path_view(p@).take(n as int));
    }
    r
}

/// How a path is shown: `/` for the root, else `/key` for each key and
/// `/[i]` for each index, in order.
pub open spec fn path_display(p: Seq<Seg>) -> Seq<char> {
    if p.len() == 0 {
        "/"@
    } else {
        segs_display(p)
    }
}

/// The shown segments of a path, in order.
pub open spec fn segs_display(p: Seq<Seg>) -> Seq<char>
    decreases p.len(),
{
    if p.len() == 0 {
        Seq::empty()
    } else {
        segs_display(p.drop_last()) + match p.last() {
            Seg::Key(k) => "/"@ + k,
            Seg::Index(i) => "/["@ + crate::text::decimal(i as nat) + "]"@,
        }
    }
}

/// The text a path is shown as (see [`path_display`]).
pub fn path_text(path: &[PathSegment]) -> (r: String)
    ensures
        r@ == path_display(path_view(path@)),
{
    if path.len() == 0 {
        return crate::text::owned("/");
    }
    let mut out = String::new();
    let mut i: usize = 0;
    proof {
        assert(path_view(path@).take(0) =~= Seq::<Seg>::empty());
        assert(out@ =~= segs_display(Seq::<Seg>::empty()));
    }
    while i < path.len()
        invariant
            i <= path@.len(),
            out@ == segs_display(path_view(path@).take(i as int)),
        decreases path@.len() - i,
    {
        let ghost pv = path_view(path@);
        proof {
            assert(pv.take(i + 1).drop_last() =~= pv.take(i as int));
            assert(pv.take(i + 1).last() == path@[i as int]@);
        }
        match &path[i] {
            PathSegment::Key(k) => {
                crate::text::push_str(&mut out, "/");
                crate::text::push_str(&mut out, k.as_str());
                proof {
                    assert(out@ =~= segs_display(pv.take(i as int)) + ("/"@ + k@));
                }
            },
            PathSegment::Index(j) => {
                crate::text::push_str(&mut out, "/[");
                let t = crate::text::u64_text(*j as u64);
                crate::text::push_str(&mut out, t.as_str());
                crate::text::push_str(&mut out, "]");
                proof {
                    assert(out@ =~= segs_display(pv.take(i as int)) + ("/["@ + crate::text::decimal(*j as nat) + "]"@));
                }
            },
        }
        i = i + 1;
    }
    proof {
        assert(path_view(path@).take(path@.len() as int) =~= path_view(path@));
    }
    out
}

} // verus!
