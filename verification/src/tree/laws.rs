//! Laws of the tree operations: what a read gives back after a write, and
//! which operations undo each other.

use vstd::prelude::*;

use super::error::TreeErr;
use super::model::{
    child, delete_in, delete_spec, get_at, insert_in, insert_spec, lemma_child_with_child,
    lemma_get_at_push, lemma_get_replace_same, lemma_replace_same, lemma_replace_twice,
    lemma_with_child_same, lemma_with_child_twice, move_spec, rename_in, rename_spec,
    replace_at, set_in, set_spec, with_child,
};
use super::path::Seg;
use super::value::{
    is_first_key, key_index, keys_unique, lemma_items_view, lemma_key_index, lemma_value_view,
    Val, Value,
};

verus! {

/// Every object in the tree has pairwise distinct keys (true of every value
/// the library builds, since its objects keep their keys unique).
pub open spec fn well_formed(v: Val) -> bool
    decreases v,
{
    match v {
        Val::Object(es) => keys_unique(es) && forall|i: int|
            0 <= i < es.len() ==> well_formed(#[trigger] es[i].1),
        Val::Array(a) => forall|i: int| 0 <= i < a.len() ==> well_formed(#[trigger] a[i]),
        _ => true,
    }
}

/// A nonempty path is its parent path followed by its last segment.
proof fn lemma_parent_last(v: Val, p: Seq<Seg>)
    requires
        p.len() > 0,
    ensures
        get_at(v, p) == match get_at(v, p.drop_last()) {
            Some(n) => child(n, p.last()),
            None => None,
        },
{
    assert(p =~= p.drop_last().push(p.last()));
    lemma_get_at_push(v, p.drop_last(), p.last());
}

/// A successful one-level set puts `x` in place and hands back what was there.
proof fn lemma_set_in(parent: Val, last: Seg, x: Val)
    requires
        set_in(parent, last, x) is Ok,
    ensures
        child(parent, last) is Some,
        set_in(parent, last, x) == Ok::<(Val, Val), TreeErr>(
            (with_child(parent, last, x), child(parent, last)->0),
        ),
{
    match (last, parent) {
        (Seg::Key(k), Val::Object(es)) => {
            lemma_key_index(es, k);
        },
        _ => {},
    }
}

/// Reading a path right after a successful `set` there gives the new value,
/// and `set` hands back the value that the path held before.
pub proof fn law_set_then_get(v: Val, p: Seq<Seg>, x: Val)
    requires
        set_spec(v, p, x).1 is Ok,
    ensures
        get_at(set_spec(v, p, x).0, p) == Some(x),
        set_spec(v, p, x).1 == Ok::<Val, TreeErr>(get_at(v, p)->0),
        get_at(v, p) is Some,
{
    let q = p.drop_last();
    let par = get_at(v, q)->0;
    lemma_set_in(par, p.last(), x);
    let np = with_child(par, p.last(), x);
    lemma_parent_last(v, p);
    lemma_get_replace_same(v, q, np);
    lemma_parent_last(replace_at(v, q, np), p);
    lemma_child_with_child(par, p.last(), x);
}

/// Setting a path back to the value that `set` returned undoes the `set`.
pub proof fn law_set_undone_by_set(v: Val, p: Seq<Seg>, x: Val)
    requires
        set_spec(v, p, x).1 is Ok,
    ensures
        set_spec(set_spec(v, p, x).0, p, set_spec(v, p, x).1->Ok_0)
            == (v, Ok::<Val, TreeErr>(x)),
{
    let q = p.drop_last();
    let par = get_at(v, q)->0;
    let last = p.last();
    lemma_set_in(par, last, x);
    let old = child(par, last)->0;
    let np = with_child(par, last, x);
    let v1 = replace_at(v, q, np);
    lemma_get_replace_same(v, q, np);
    lemma_child_with_child(par, last, x);
    lemma_set_in(np, last, old);
    lemma_with_child_twice(par, last, x, old);
    lemma_with_child_same(par, last);
    lemma_replace_twice(v, q, np, par);
    lemma_replace_same(v, q);
}

/// A successful one-level insert: the new child is found at `last`, and
/// deleting `last` gives back the old parent and the inserted value.
proof fn lemma_insert_in(parent: Val, last: Seg, x: Val)
    requires
        insert_in(parent, last, x) is Ok,
    ensures
        child(insert_in(parent, last, x)->Ok_0, last) == Some(x),
        delete_in(insert_in(parent, last, x)->Ok_0, last) == Ok::<(Val, Val), TreeErr>(
            (parent, x),
        ),
{
    match (last, parent) {
        (Seg::Key(k), Val::Object(es)) => {
            lemma_key_index(es, k);
            let es2 = es.push((k, x));
            assert(is_first_key(es2, k, es.len() as int));
            lemma_key_index(es2, k);
            assert(es2.remove(es.len() as int) =~= es);
        },
        (Seg::Index(i), Val::Array(a)) => {
            assert(a.insert(i as int, x).remove(i as int) =~= a);
        },
        _ => {},
    }
}

/// Reading a path right after a successful `insert` there gives the inserted value.
pub proof fn law_insert_then_get(v: Val, p: Seq<Seg>, x: Val)
    requires
        insert_spec(v, p, x).1 is Ok,
    ensures
        get_at(insert_spec(v, p, x).0, p) == Some(x),
{
    let q = p.drop_last();
    let par = get_at(v, q)->0;
    let np = insert_in(par, p.last(), x)->Ok_0;
    lemma_insert_in(par, p.last(), x);
    lemma_get_replace_same(v, q, np);
    lemma_parent_last(replace_at(v, q, np), p);
}

/// Deleting what was just inserted restores the tree and hands back the value.
pub proof fn law_insert_undone_by_delete(v: Val, p: Seq<Seg>, x: Val)
    requires
        insert_spec(v, p, x).1 is Ok,
    ensures
        delete_spec(insert_spec(v, p, x).0, p) == (v, Ok::<Val, TreeErr>(x)),
{
    let q = p.drop_last();
    let par = get_at(v, q)->0;
    let np = insert_in(par, p.last(), x)->Ok_0;
    lemma_insert_in(par, p.last(), x);
    lemma_get_replace_same(v, q, np);
    lemma_replace_twice(v, q, np, par);
    lemma_replace_same(v, q);
}

/// `delete` hands back the value that the path held.
pub proof fn law_delete_returns_value(v: Val, p: Seq<Seg>)
    requires
        delete_spec(v, p).1 is Ok,
    ensures
        delete_spec(v, p).1 == Ok::<Val, TreeErr>(get_at(v, p)->0),
        get_at(v, p) is Some,
{
    let q = p.drop_last();
    let par = get_at(v, q)->0;
    lemma_parent_last(v, p);
    match (p.last(), par) {
        (Seg::Key(k), Val::Object(es)) => {
            lemma_key_index(es, k);
        },
        _ => {},
    }
}

/// After deleting an object key, the key is gone (keys are unique).
pub proof fn law_delete_key_then_get(v: Val, p: Seq<Seg>)
    requires
        well_formed(v),
        delete_spec(v, p).1 is Ok,
        p.last() is Key,
    ensures
        get_at(delete_spec(v, p).0, p) is None,
{
    let q = p.drop_last();
    let par = get_at(v, q)->0;
    lemma_well_formed_get(v, q);
    match (p.last(), par) {
        (Seg::Key(k), Val::Object(es)) => {
            lemma_key_index(es, k);
            let i = key_index(es, k)->0;
            let es2 = es.remove(i);
            assert forall|j: int| 0 <= j < es2.len() implies es2[j].0 != k by {
                if j < i {
                    assert(es2[j] == es[j]);
                } else {
                    assert(es2[j] == es[j + 1]);
                }
            }
            lemma_key_index(es2, k);
            lemma_get_replace_same(v, q, Val::Object(es2));
            lemma_parent_last(delete_spec(v, p).0, p);
        },
        _ => {},
    }
}

/// Deleting an array item and inserting it back at the same index restores the tree.
pub proof fn law_delete_item_undone_by_insert(v: Val, p: Seq<Seg>)
    requires
        delete_spec(v, p).1 is Ok,
        p.last() is Index,
    ensures
        insert_spec(delete_spec(v, p).0, p, delete_spec(v, p).1->Ok_0) == (v, Ok::<
            (),
            TreeErr,
        >(())),
{
    let q = p.drop_last();
    let par = get_at(v, q)->0;
    match (p.last(), par) {
        (Seg::Index(i), Val::Array(a)) => {
            let x = a[i as int];
            let np = Val::Array(a.remove(i as int));
            lemma_get_replace_same(v, q, np);
            assert(a.remove(i as int).insert(i as int, x) =~= a);
            lemma_replace_twice(v, q, np, par);
            lemma_replace_same(v, q);
        },
        _ => {},
    }
}

/// A node below a well-formed tree is well formed.
pub proof fn lemma_well_formed_get(v: Val, p: Seq<Seg>)
    requires
        well_formed(v),
    ensures
        get_at(v, p) matches Some(n) ==> well_formed(n),
    decreases p.len(),
{
    if p.len() > 0 {
        match child(v, p[0]) {
            Some(c) => {
                match (p[0], v) {
                    (Seg::Key(k), Val::Object(es)) => {
                        lemma_key_index(es, k);
                        let i = key_index(es, k)->0;
                        assert(well_formed(es[i].1));
                    },
                    (Seg::Index(i), Val::Array(a)) => {
                        assert(well_formed(a[i as int]));
                    },
                    _ => {},
                }
                lemma_well_formed_get(c, p.drop_first());
            },
            None => {},
        }
    }
}

/// After a successful rename, the value is found under the new key and no
/// longer under the old one.
pub proof fn law_rename_then_get(v: Val, p: Seq<Seg>, new_k: Seq<char>)
    requires
        well_formed(v),
        rename_spec(v, p, new_k).1 is Ok,
    ensures
        get_at(rename_spec(v, p, new_k).0, p.drop_last().push(Seg::Key(new_k))) == get_at(v, p),
        get_at(rename_spec(v, p, new_k).0, p) is None,
        get_at(v, p) is Some,
{
    let q = p.drop_last();
    let par = get_at(v, q)->0;
    lemma_well_formed_get(v, q);
    lemma_parent_last(v, p);
    match (p.last(), par) {
        (Seg::Key(old_k), Val::Object(es)) => {
            lemma_key_index(es, old_k);
            lemma_key_index(es, new_k);
            let i = key_index(es, old_k)->0;
            let es1 = es.remove(i);
            let es2 = es1.push((new_k, es[i].1));
            assert forall|j: int| 0 <= j < es1.len() implies es1[j].0 != old_k && es1[j].0
                != new_k by {
                if j < i {
                    assert(es1[j] == es[j]);
                } else {
                    assert(es1[j] == es[j + 1]);
                }
            }
            assert(is_first_key(es2, new_k, es1.len() as int));
            lemma_key_index(es2, new_k);
            lemma_key_index(es2, old_k);
            let np = Val::Object(es2);
            let v1 = replace_at(v, q, np);
            lemma_get_replace_same(v, q, np);
            let p2 = q.push(Seg::Key(new_k));
            lemma_get_at_push(v1, q, Seg::Key(new_k));
            lemma_parent_last(v1, p);
        },
        _ => {},
    }
}

/// After a successful move, the destination holds what the source held.
pub proof fn law_move_then_get(v: Val, from: Seq<Seg>, to: Seq<Seg>)
    requires
        move_spec(v, from, to).1 is Ok,
    ensures
        get_at(move_spec(v, from, to).0, to) == get_at(v, from),
{
    law_delete_returns_value(v, from);
    let (v1, r1) = delete_spec(v, from);
    law_insert_then_get(v1, to, r1->Ok_0);
}

// ── lookups along paths ─────────────────────────────────────────────

/// `a` is a prefix of `b` (an ancestor's path, or the same path).
pub open spec fn is_prefix(a: Seq<Seg>, b: Seq<Seg>) -> bool {
    a.len() <= b.len() && b.subrange(0, a.len() as int) == a
}

/// Looking up `p` and then `q` from there is looking up `p` followed by `q`.
pub proof fn law_get_concat(v: Val, p: Seq<Seg>, q: Seq<Seg>)
    ensures
        get_at(v, p + q) == match get_at(v, p) {
            Some(c) => get_at(c, q),
            None => None,
        },
    decreases p.len(),
{
    if p.len() == 0 {
        assert(p + q =~= q);
    } else {
        assert((p + q)[0] == p[0]);
        assert((p + q).drop_first() =~= p.drop_first() + q);
        match child(v, p[0]) {
            Some(c) => law_get_concat(c, p.drop_first(), q),
            None => {},
        }
    }
}

/// Replacing one child leaves the other children as they were.
proof fn lemma_child_other(v: Val, s: Seg, t: Seg, c: Val)
    requires
        child(v, s) is Some,
        s != t,
    ensures
        child(with_child(v, s, c), t) == child(v, t),
{
    match (s, v) {
        (Seg::Key(k), Val::Object(es)) => {
            lemma_key_index(es, k);
            let i = key_index(es, k)->0;
            let es2 = es.update(i, (es[i].0, c));
            match t {
                Seg::Key(j) => {
                    lemma_key_index(es, j);
                    lemma_key_index(es2, j);
                    match key_index(es, j) {
                        Some(m) => {
                            assert(is_first_key(es2, j, m));
                        },
                        None => {
                            assert forall|x: int| 0 <= x < es2.len() implies es2[x].0 != j by {
                                assert(es2[x].0 == es[x].0);
                            }
                        },
                    }
                },
                _ => {},
            }
        },
        _ => {},
    }
}

/// Replacing the node at `p` leaves every path that is neither an ancestor
/// nor a descendant of `p` leading to what it led to.
proof fn lemma_replace_other(v: Val, p: Seq<Seg>, n: Val, q: Seq<Seg>)
    requires
        get_at(v, p) is Some,
        !is_prefix(q, p),
        !is_prefix(p, q),
    ensures
        get_at(replace_at(v, p, n), q) == get_at(v, q),
    decreases p.len(),
{
    assert(p.len() > 0) by {
        if p.len() == 0 {
            assert(q.subrange(0, 0) =~= p);
        }
    }
    assert(q.len() > 0) by {
        if q.len() == 0 {
            assert(p.subrange(0, 0) =~= q);
        }
    }
    let c = child(v, p[0])->0;
    let c2 = replace_at(c, p.drop_first(), n);
    let w = with_child(v, p[0], c2);
    if p[0] == q[0] {
        lemma_child_with_child(v, p[0], c2);
        assert(!is_prefix(q.drop_first(), p.drop_first())) by {
            if is_prefix(q.drop_first(), p.drop_first()) {
                assert forall|j: int| 0 <= j < q.len() implies p.subrange(0, q.len() as int)[j] == q[j] by {
                    if j > 0 {
                        assert(p.drop_first().subrange(0, q.drop_first().len() as int)[j - 1] == q.drop_first()[j - 1]);
                    }
                }
                assert(p.subrange(0, q.len() as int) =~= q);
            }
        }
        assert(!is_prefix(p.drop_first(), q.drop_first())) by {
            if is_prefix(p.drop_first(), q.drop_first()) {
                assert forall|j: int| 0 <= j < p.len() implies q.subrange(0, p.len() as int)[j] == p[j] by {
                    if j > 0 {
                        assert(q.drop_first().subrange(0, p.drop_first().len() as int)[j - 1] == p.drop_first()[j - 1]);
                    }
                }
                assert(q.subrange(0, p.len() as int) =~= p);
            }
        }
        lemma_replace_other(c, p.drop_first(), n, q.drop_first());
    } else {
        lemma_child_other(v, p[0], q[0], c2);
    }
}

/// A successful `set` leaves every path that is neither an ancestor nor a
/// descendant of the set path leading to what it led to.
pub proof fn law_set_leaves_others(v: Val, p: Seq<Seg>, x: Val, q: Seq<Seg>)
    requires
        set_spec(v, p, x).1 is Ok,
        !is_prefix(q, p),
        !is_prefix(p, q),
    ensures
        get_at(set_spec(v, p, x).0, q) == get_at(v, q),
{
    let par = p.drop_last();
    let parent = get_at(v, par)->0;
    lemma_set_in(parent, p.last(), x);
    let np = with_child(parent, p.last(), x);
    lemma_parent_last(v, p);
    if is_prefix(par, q) {
        let r = q.subrange(par.len() as int, q.len() as int);
        assert(q =~= par + r);
        assert(r.len() > 0) by {
            if r.len() == 0 {
                assert(p.subrange(0, q.len() as int) =~= q);
            }
        }
        assert(r[0] != p.last()) by {
            if r[0] == p.last() {
                assert(q.subrange(0, p.len() as int) =~= p);
            }
        }
        law_get_concat(v, par, r);
        law_get_concat(replace_at(v, par, np), par, r);
        lemma_get_replace_same(v, par, np);
        lemma_child_other(parent, p.last(), r[0], x);
    } else {
        assert(!is_prefix(q, par)) by {
            if is_prefix(q, par) {
                assert(p.subrange(0, q.len() as int) =~= par.subrange(0, q.len() as int));
            }
        }
        lemma_replace_other(v, par, np, q);
    }
}

/// The entries of an object after renaming key `old_k` (at `i`) to `new_k`.
pub open spec fn renamed(es: Seq<(Seq<char>, Val)>, i: int, new_k: Seq<char>) -> Seq<(Seq<char>, Val)> {
    es.remove(i).push((new_k, es[i].1))
}

/// Renaming leaves the children under the other keys as they were.
proof fn lemma_rename_child_other(es: Seq<(Seq<char>, Val)>, i: int, new_k: Seq<char>, t: Seg)
    requires
        0 <= i < es.len(),
        t != Seg::Key(es[i].0),
        t != Seg::Key(new_k),
    ensures
        child(Val::Object(renamed(es, i, new_k)), t) == child(Val::Object(es), t),
{
    let es2 = renamed(es, i, new_k);
    if let Seg::Key(j) = t {
        lemma_key_index(es, j);
        lemma_key_index(es2, j);
        match key_index(es, j) {
            Some(m) => {
                let m2 = if m < i { m } else { m - 1 };
                assert(m != i);
                assert(es2[m2] == es[m]);
                assert forall|y: int| 0 <= y < m2 implies es2[y].0 != j by {
                    if y < i {
                        assert(es2[y] == es[y]);
                    } else {
                        assert(es2[y] == es[y + 1]);
                    }
                }
                assert(is_first_key(es2, j, m2));
            },
            None => {
                assert forall|y: int| 0 <= y < es2.len() implies es2[y].0 != j by {
                    if y < i {
                        assert(es2[y] == es[y]);
                    } else if y < es2.len() - 1 {
                        assert(es2[y] == es[y + 1]);
                    }
                }
            },
        }
    }
}

/// A successful rename leaves every path outside the renamed entry (under
/// its old or its new key) and off the way to it leading to what it led to.
pub proof fn law_rename_leaves_others(v: Val, p: Seq<Seg>, new_k: Seq<char>, q: Seq<Seg>)
    requires
        rename_spec(v, p, new_k).1 is Ok,
        !is_prefix(q, p.drop_last()),
        !is_prefix(p, q),
        !is_prefix(p.drop_last().push(Seg::Key(new_k)), q),
    ensures
        get_at(rename_spec(v, p, new_k).0, q) == get_at(v, q),
{
    let par = p.drop_last();
    let parent = get_at(v, par)->0;
    let old_k = p.last()->Key_0;
    let es = parent->Object_0;
    lemma_key_index(es, old_k);
    let i = key_index(es, old_k)->0;
    let np = Val::Object(renamed(es, i, new_k));
    if is_prefix(par, q) {
        let r = q.subrange(par.len() as int, q.len() as int);
        assert(q =~= par + r);
        assert(r.len() > 0) by {
            if r.len() == 0 {
                assert(q.subrange(0, par.len() as int) =~= q);
            }
        }
        assert(r[0] != Seg::Key(old_k)) by {
            if r[0] == Seg::Key(old_k) {
                assert(p =~= par.push(Seg::Key(old_k)));
                assert(q.subrange(0, p.len() as int) =~= p);
            }
        }
        assert(r[0] != Seg::Key(new_k)) by {
            if r[0] == Seg::Key(new_k) {
                assert(q.subrange(0, par.len() + 1int) =~= par.push(Seg::Key(new_k)));
            }
        }
        law_get_concat(v, par, r);
        law_get_concat(replace_at(v, par, np), par, r);
        lemma_get_replace_same(v, par, np);
        lemma_rename_child_other(es, i, new_k, r[0]);
    } else {
        lemma_replace_other(v, par, np, q);
    }
}

/// Renaming a key and then renaming it back leaves every key of the object
/// with its value and the rest of the tree as it was; the entry now comes
/// last among its siblings, so the tree is the same when it was last before.
pub proof fn law_rename_back(v: Val, p: Seq<Seg>, new_k: Seq<char>)
    requires
        well_formed(v),
        rename_spec(v, p, new_k).1 is Ok,
    ensures
        ({
            let par = p.drop_last();
            let old_k = p.last()->Key_0;
            let back = rename_spec(rename_spec(v, p, new_k).0, par.push(Seg::Key(new_k)), old_k);
            let es = get_at(v, par)->0->Object_0;
            let i = key_index(es, old_k)->0;
            &&& back.1 is Ok
            &&& back.0 == replace_at(v, par, Val::Object(renamed(es, i, old_k)))
            &&& forall|t: Seg| #[trigger] child(Val::Object(renamed(es, i, old_k)), t) == child(Val::Object(es), t)
            &&& i == es.len() - 1 ==> back.0 == v
        }),
{
    let par = p.drop_last();
    let old_k = p.last()->Key_0;
    let parent = get_at(v, par)->0;
    let es = parent->Object_0;
    lemma_well_formed_get(v, par);
    lemma_key_index(es, old_k);
    lemma_key_index(es, new_k);
    let i = key_index(es, old_k)->0;
    let es1 = es.remove(i);
    let es2 = renamed(es, i, new_k);
    assert forall|j: int| 0 <= j < es1.len() implies es1[j].0 != old_k && es1[j].0 != new_k by {
        if j < i {
            assert(es1[j] == es[j]);
        } else {
            assert(es1[j] == es[j + 1]);
        }
    }
    assert(is_first_key(es2, new_k, es1.len() as int));
    lemma_key_index(es2, new_k);
    lemma_key_index(es2, old_k);
    let v1 = replace_at(v, par, Val::Object(es2));
    lemma_get_replace_same(v, par, Val::Object(es2));
    let p2 = par.push(Seg::Key(new_k));
    assert(p2.drop_last() =~= par);
    let es3 = renamed(es2, es1.len() as int, old_k);
    assert(es2.remove(es1.len() as int) =~= es1);
    assert(es3 =~= renamed(es, i, old_k));
    lemma_replace_twice(v, par, Val::Object(es2), Val::Object(es3));
    assert forall|t: Seg| #[trigger] child(Val::Object(renamed(es, i, old_k)), t) == child(Val::Object(es), t) by {
        if t == Seg::Key(old_k) {
            let es4 = renamed(es, i, old_k);
            assert(is_first_key(es4, old_k, es1.len() as int));
            lemma_key_index(es4, old_k);
        } else {
            lemma_rename_child_other(es, i, old_k, t);
        }
    }
    if i == es.len() - 1 {
        assert(renamed(es, i, old_k) =~= es);
        lemma_replace_same(v, par);
    }
}

/// Every value tree is well formed: the maps of its objects keep their keys
/// distinct (see [`well_formed`]). The walk itself computes nothing.
pub fn tree_is_well_formed(v: &Value)
    ensures
        well_formed(v@),
    decreases v@,
{
    proof {
        lemma_value_view(*v);
    }
    match v {
        Value::Object(m) => {
            m.keys_are_unique();
            let mut i: usize = 0;
            while i < m.len()
                invariant
                    i <= m@.len(),
                    v@ == Val::Object(m@),
                    forall|j: int| 0 <= j < i ==> well_formed(#[trigger] m@[j].1),
                decreases m@.len() - i,
            {
                let c = m.value_at(i);
                proof {
                    assert(decreases_to!(v@ => v@->Object_0));
                    assert(decreases_to!(v@->Object_0 => v@->Object_0[i as int]));
                    assert(decreases_to!(v@->Object_0[i as int] => v@->Object_0[i as int].1));
                }
                tree_is_well_formed(c);
                i = i + 1;
            }
        },
        Value::Array(a) => {
            proof {
                lemma_items_view(a@);
            }
            let mut i: usize = 0;
            while i < a.len()
                invariant
                    i <= a@.len(),
                    v@ == Val::Array(crate::tree::value::items_view(a@)),
                    crate::tree::value::items_view(a@).len() == a@.len(),
                    forall|j: int| 0 <= j < a@.len() ==> #[trigger] crate::tree::value::items_view(a@)[j] == a@[j]@,
                    forall|j: int| 0 <= j < i ==> well_formed(#[trigger] a@[j]@),
                decreases a@.len() - i,
            {
                proof {
                    assert(decreases_to!(v@ => v@->Array_0));
                    assert(decreases_to!(v@->Array_0 => v@->Array_0[i as int]));
                }
                tree_is_well_formed(&a[i]);
                i = i + 1;
            }
            proof {
                assert forall|j: int| 0 <= j < a@.len() implies well_formed(#[trigger] crate::tree::value::items_view(a@)[j]) by {
                    assert(well_formed(a@[j]@));
                }
            }
        },
        _ => {},
    }
}

// ── trees compared as maps ──────────────────────────────────────────

/// `a` and `b` are the same tree when objects are compared as maps: the same
/// keys with the same values, in any order (floats compared by their bits).
pub open spec fn same_as_map(a: Val, b: Val) -> bool
    decreases a,
{
    match (a, b) {
        (Val::Object(x), Val::Object(y)) => x.len() == y.len() && forall|i: int|
            0 <= i < x.len() ==> match key_index(y, #[trigger] x[i].0) {
                Some(j) => same_as_map(x[i].1, y[j].1),
                None => false,
            },
        (Val::Array(x), Val::Array(y)) => x.len() == y.len() && forall|i: int|
            0 <= i < x.len() ==> same_as_map(#[trigger] x[i], y[i]),
        _ => a == b,
    }
}

/// In entries with distinct keys, each key is first found where it stands.
proof fn lemma_unique_index(es: Seq<(Seq<char>, Val)>, i: int)
    requires
        keys_unique(es),
        0 <= i < es.len(),
    ensures
        key_index(es, es[i].0) == Some(i),
{
    assert(is_first_key(es, es[i].0, i));
    lemma_key_index(es, es[i].0);
}

/// Every well-formed tree is the same as itself compared as a map.
pub proof fn lemma_same_as_map_refl(v: Val)
    requires
        well_formed(v),
    ensures
        same_as_map(v, v),
    decreases v,
{
    match v {
        Val::Object(es) => {
            assert forall|i: int| 0 <= i < es.len() implies match key_index(es, #[trigger] es[i].0) {
                Some(j) => same_as_map(es[i].1, es[j].1),
                None => false,
            } by {
                lemma_unique_index(es, i);
                assert(decreases_to!(v => es));
                assert(decreases_to!(es => es[i]));
                assert(decreases_to!(es[i] => es[i].1));
                lemma_same_as_map_refl(es[i].1);
            }
        },
        Val::Array(a) => {
            assert forall|i: int| 0 <= i < a.len() implies same_as_map(#[trigger] a[i], a[i]) by {
                assert(decreases_to!(v => a));
                assert(decreases_to!(a => a[i]));
                lemma_same_as_map_refl(a[i]);
            }
        },
        _ => {},
    }
}

/// Replacing a node by one that is the same as a map leaves a tree that is
/// the same as a map.
proof fn lemma_replace_same_as_map(v: Val, p: Seq<Seg>, n: Val)
    requires
        well_formed(v),
        get_at(v, p) is Some,
        same_as_map(n, get_at(v, p)->0),
    ensures
        same_as_map(replace_at(v, p, n), v),
    decreases p.len(),
{
    if p.len() > 0 {
        let c = child(v, p[0])->0;
        let c2 = replace_at(c, p.drop_first(), n);
        lemma_well_formed_child(v, p[0]);
        lemma_replace_same_as_map(c, p.drop_first(), n);
        match (p[0], v) {
            (Seg::Key(k), Val::Object(es)) => {
                lemma_key_index(es, k);
                let i = key_index(es, k)->0;
                let es2 = es.update(i, (es[i].0, c2));
                assert forall|x: int| 0 <= x < es2.len() implies match key_index(es, #[trigger] es2[x].0) {
                    Some(j) => same_as_map(es2[x].1, es[j].1),
                    None => false,
                } by {
                    lemma_unique_index(es, x);
                    if x != i {
                        lemma_same_as_map_refl(es[x].1);
                    }
                }
            },
            (Seg::Index(j), Val::Array(a)) => {
                let a2 = a.update(j as int, c2);
                assert forall|x: int| 0 <= x < a2.len() implies same_as_map(#[trigger] a2[x], a[x]) by {
                    if x != j {
                        lemma_same_as_map_refl(a[x]);
                    }
                }
            },
            _ => {},
        }
    }
}

/// The child of a well-formed tree is well formed.
proof fn lemma_well_formed_child(v: Val, s: Seg)
    requires
        well_formed(v),
        child(v, s) is Some,
    ensures
        well_formed(child(v, s)->0),
{
    if let (Seg::Key(k), Val::Object(es)) = (s, v) {
        lemma_key_index(es, k);
    }
}

/// Moving the entry at `i` to the end keeps an object the same as a map.
proof fn lemma_renamed_same_as_map(es: Seq<(Seq<char>, Val)>, i: int)
    requires
        well_formed(Val::Object(es)),
        0 <= i < es.len(),
    ensures
        same_as_map(Val::Object(renamed(es, i, es[i].0)), Val::Object(es)),
{
    let es2 = renamed(es, i, es[i].0);
    assert forall|x: int| 0 <= x < es2.len() implies match key_index(es, #[trigger] es2[x].0) {
        Some(j) => same_as_map(es2[x].1, es[j].1),
        None => false,
    } by {
        let orig = if x == es2.len() - 1 { i } else if x < i { x } else { x + 1 };
        assert(es2[x] == es[orig]);
        lemma_unique_index(es, orig);
        lemma_same_as_map_refl(es[orig].1);
    }
}

/// Renaming a key and then renaming it back gives the tree it started
/// from, compared as a map.
pub proof fn law_rename_back_same_as_map(v: Val, p: Seq<Seg>, new_k: Seq<char>)
    requires
        well_formed(v),
        rename_spec(v, p, new_k).1 is Ok,
    ensures
        ({
            let back = rename_spec(
                rename_spec(v, p, new_k).0,
                p.drop_last().push(Seg::Key(new_k)),
                p.last()->Key_0,
            );
            back.1 is Ok && same_as_map(back.0, v)
        }),
{
    law_rename_back(v, p, new_k);
    let par = p.drop_last();
    let old_k = p.last()->Key_0;
    let es = get_at(v, par)->0->Object_0;
    lemma_well_formed_get(v, par);
    lemma_key_index(es, old_k);
    let i = key_index(es, old_k)->0;
    lemma_renamed_same_as_map(es, i);
    lemma_replace_same_as_map(v, par, Val::Object(renamed(es, i, old_k)));
}

} // verus!
