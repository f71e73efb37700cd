//! The mathematical meaning of the tree operations, over value views.

use vstd::prelude::*;

use super::error::TreeErr;
use super::path::Seg;
use super::value::{key_index, lemma_key_index, Val};

verus! {

/// The name of a value's type, as shown to the user.
pub open spec fn type_name_of(v: Val) -> Seq<char> {
    match v {
        Val::Object(_) => "object"@,
        Val::Array(_) => "array"@,
        Val::Str(_) => "string"@,
        Val::Int(_) => "int"@,
        Val::Float(_) => "float"@,
        Val::Bool(_) => "bool"@,
        Val::Null => "null"@,
    }
}

/// Is the value a leaf (string, int, float, bool or null)?
pub open spec fn is_leaf_of(v: Val) -> bool {
    !(v is Object) && !(v is Array)
}

/// The child of `v` that segment `s` names, if any.
pub open spec fn child(v: Val, s: Seg) -> Option<Val> {
    match (s, v) {
        (Seg::Key(k), Val::Object(es)) => match key_index(es, k) {
            Some(i) => Some(es[i].1),
            None => None,
        },
        (Seg::Index(i), Val::Array(a)) => if i < a.len() {
            Some(a[i as int])
        } else {
            None
        },
        _ => None,
    }
}

/// The node that path `p` leads to from `v`, if the path exists.
pub open spec fn get_at(v: Val, p: Seq<Seg>) -> Option<Val>
    decreases p.len(),
{
    if p.len() == 0 {
        Some(v)
    } else {
        match child(v, p[0]) {
            Some(c) => get_at(c, p.drop_first()),
            None => None,
        }
    }
}

/// `v` with the child that `s` names replaced by `c` (unchanged if there is no such child).
pub open spec fn with_child(v: Val, s: Seg, c: Val) -> Val {
    match (s, v) {
        (Seg::Key(k), Val::Object(es)) => match key_index(es, k) {
            Some(i) => Val::Object(es.update(i, (es[i].0, c))),
            None => v,
        },
        (Seg::Index(i), Val::Array(a)) => if i < a.len() {
            Val::Array(a.update(i as int, c))
        } else {
            v
        },
        _ => v,
    }
}

/// `v` with the node at path `p` replaced by `n` (unchanged if the path does not exist).
pub open spec fn replace_at(v: Val, p: Seq<Seg>, n: Val) -> Val
    decreases p.len(),
{
    if p.len() == 0 {
        n
    } else {
        match child(v, p[0]) {
            Some(c) => with_child(v, p[0], replace_at(c, p.drop_first(), n)),
            None => v,
        }
    }
}

/// Setting a child of `parent`: the new parent and the replaced child, or an error.
pub open spec fn set_in(parent: Val, last: Seg, x: Val) -> Result<(Val, Val), TreeErr> {
    match (last, parent) {
        (Seg::Key(k), Val::Object(es)) => match key_index(es, k) {
            Some(i) => Ok((Val::Object(es.update(i, (es[i].0, x))), es[i].1)),
            None => Err(TreeErr::PathNotFound),
        },
        (Seg::Index(i), Val::Array(a)) => if i < a.len() {
            Ok((Val::Array(a.update(i as int, x)), a[i as int]))
        } else {
            Err(TreeErr::IndexOutOfBounds(i))
        },
        (Seg::Key(_), other) => Err(TreeErr::WrongType("set"@, "object"@, type_name_of(other))),
        (Seg::Index(_), other) => Err(TreeErr::WrongType("set"@, "array"@, type_name_of(other))),
    }
}

/// Inserting a child into `parent`: the new parent, or an error.
pub open spec fn insert_in(parent: Val, last: Seg, x: Val) -> Result<Val, TreeErr> {
    match (last, parent) {
        (Seg::Key(k), Val::Object(es)) => if key_index(es, k) is Some {
            Err(TreeErr::KeyAlreadyExists(k))
        } else {
            Ok(Val::Object(es.push((k, x))))
        },
        (Seg::Index(i), Val::Array(a)) => if i <= a.len() {
            Ok(Val::Array(a.insert(i as int, x)))
        } else {
            Err(TreeErr::IndexOutOfBounds(i))
        },
        (Seg::Key(_), other) => Err(
            TreeErr::WrongType("insert"@, "object"@, type_name_of(other)),
        ),
        (Seg::Index(_), other) => Err(
            TreeErr::WrongType("insert"@, "array"@, type_name_of(other)),
        ),
    }
}

/// Deleting a child of `parent`: the new parent and the removed child, or an error.
pub open spec fn delete_in(parent: Val, last: Seg) -> Result<(Val, Val), TreeErr> {
    match (last, parent) {
        (Seg::Key(k), Val::Object(es)) => match key_index(es, k) {
            Some(i) => Ok((Val::Object(es.remove(i)), es[i].1)),
            None => Err(TreeErr::PathNotFound),
        },
        (Seg::Index(i), Val::Array(a)) => if i < a.len() {
            Ok((Val::Array(a.remove(i as int)), a[i as int]))
        } else {
            Err(TreeErr::IndexOutOfBounds(i))
        },
        (Seg::Key(_), other) => Err(
            TreeErr::WrongType("delete"@, "object"@, type_name_of(other)),
        ),
        (Seg::Index(_), other) => Err(
            TreeErr::WrongType("delete"@, "array"@, type_name_of(other)),
        ),
    }
}

/// Renaming key `old_k` of `parent` to `new_k` (the entry moves to the end).
pub open spec fn rename_in(parent: Val, old_k: Seq<char>, new_k: Seq<char>) -> Result<
    Val,
    TreeErr,
> {
    match parent {
        Val::Object(es) => match key_index(es, old_k) {
            None => Err(TreeErr::PathNotFound),
            Some(i) => if key_index(es, new_k) is Some {
                Err(TreeErr::KeyAlreadyExists(new_k))
            } else {
                Ok(Val::Object(es.remove(i).push((new_k, es[i].1))))
            },
        },
        other => Err(TreeErr::WrongType("rename_key"@, "object"@, type_name_of(other))),
    }
}

/// `Value::set`: the new tree and the result.
pub open spec fn set_spec(v: Val, p: Seq<Seg>, x: Val) -> (Val, Result<Val, TreeErr>) {
    if p.len() == 0 {
        (v, Err(TreeErr::RootOperation("set"@)))
    } else {
        match get_at(v, p.drop_last()) {
            None => (v, Err(TreeErr::PathNotFound)),
            Some(parent) => match set_in(parent, p.last(), x) {
                Ok((np, old)) => (replace_at(v, p.drop_last(), np), Ok(old)),
                Err(e) => (v, Err(e)),
            },
        }
    }
}

/// `Value::insert`: the new tree and the result.
pub open spec fn insert_spec(v: Val, p: Seq<Seg>, x: Val) -> (Val, Result<(), TreeErr>) {
    if p.len() == 0 {
        (v, Err(TreeErr::RootOperation("insert"@)))
    } else {
        match get_at(v, p.drop_last()) {
            None => (v, Err(TreeErr::PathNotFound)),
            Some(parent) => match insert_in(parent, p.last(), x) {
                Ok(np) => (replace_at(v, p.drop_last(), np), Ok(())),
                Err(e) => (v, Err(e)),
            },
        }
    }
}

/// `Value::delete`: the new tree and the result.
pub open spec fn delete_spec(v: Val, p: Seq<Seg>) -> (Val, Result<Val, TreeErr>) {
    if p.len() == 0 {
        (v, Err(TreeErr::RootOperation("delete"@)))
    } else {
        match get_at(v, p.drop_last()) {
            None => (v, Err(TreeErr::PathNotFound)),
            Some(parent) => match delete_in(parent, p.last()) {
                Ok((np, old)) => (replace_at(v, p.drop_last(), np), Ok(old)),
                Err(e) => (v, Err(e)),
            },
        }
    }
}

/// `Value::rename_key`: the new tree and the result.
pub open spec fn rename_spec(v: Val, p: Seq<Seg>, new_k: Seq<char>) -> (Val, Result<(), TreeErr>) {
    if p.len() == 0 {
        (v, Err(TreeErr::RootOperation("rename_key"@)))
    } else {
        match p.last() {
            Seg::Index(_) => (
                v,
                Err(TreeErr::WrongType("rename_key"@, "object key"@, "array index"@)),
            ),
            Seg::Key(old_k) => match get_at(v, p.drop_last()) {
                None => (v, Err(TreeErr::PathNotFound)),
                Some(parent) => match rename_in(parent, old_k, new_k) {
                    Ok(np) => (replace_at(v, p.drop_last(), np), Ok(())),
                    Err(e) => (v, Err(e)),
                },
            },
        }
    }
}

/// `Value::move_value`: delete at `from`, then insert the removed value at `to`.
pub open spec fn move_spec(v: Val, from: Seq<Seg>, to: Seq<Seg>) -> (Val, Result<(), TreeErr>) {
    if from == to {
        (v, Err(TreeErr::SourceEqualsTarget))
    } else {
        match delete_spec(v, from) {
            (v1, Err(e)) => (v1, Err(e)),
            (v1, Ok(x)) => insert_spec(v1, to, x),
        }
    }
}

// ── lemmas ──────────────────────────────────────────────────────────

/// Looking up a path one segment at a time from the end.
pub proof fn lemma_get_at_push(v: Val, p: Seq<Seg>, s: Seg)
    ensures
        get_at(v, p.push(s)) == match get_at(v, p) {
            Some(n) => child(n, s),
            None => None,
        },
    decreases p.len(),
{
    if p.len() > 0 {
        assert(p.push(s).drop_first() =~= p.drop_first().push(s));
        match child(v, p[0]) {
            Some(c) => lemma_get_at_push(c, p.drop_first(), s),
            None => {},
        }
    } else {
        assert(p.push(s).drop_first() =~= Seq::<Seg>::empty());
        reveal_with_fuel(get_at, 2);
    }
}

/// The child that `with_child` put in place is found again.
pub proof fn lemma_child_with_child(v: Val, s: Seg, c: Val)
    requires
        child(v, s) is Some,
    ensures
        child(with_child(v, s, c), s) == Some(c),
{
    match (s, v) {
        (Seg::Key(k), Val::Object(es)) => {
            lemma_key_index(es, k);
            let i = key_index(es, k)->0;
            let es2 = es.update(i, (es[i].0, c));
            assert(is_first_key_upd(es, es2, k, i));
            lemma_key_index(es2, k);
        },
        _ => {},
    }
}

spec fn is_first_key_upd(
    es: Seq<(Seq<char>, Val)>,
    es2: Seq<(Seq<char>, Val)>,
    k: Seq<char>,
    i: int,
) -> bool {
    super::value::is_first_key(es2, k, i)
}

/// Putting back the child that was there leaves the value unchanged.
pub proof fn lemma_with_child_same(v: Val, s: Seg)
    requires
        child(v, s) is Some,
    ensures
        with_child(v, s, child(v, s)->0) == v,
{
    match (s, v) {
        (Seg::Key(k), Val::Object(es)) => {
            lemma_key_index(es, k);
            let i = key_index(es, k)->0;
            assert(es.update(i, (es[i].0, es[i].1)) =~= es);
        },
        (Seg::Index(i), Val::Array(a)) => {
            assert(a.update(i as int, a[i as int]) =~= a);
        },
        _ => {},
    }
}

/// Replacing twice in the same child keeps only the second replacement.
pub proof fn lemma_with_child_twice(v: Val, s: Seg, c1: Val, c2: Val)
    requires
        child(v, s) is Some,
    ensures
        with_child(with_child(v, s, c1), s, c2) == with_child(v, s, c2),
{
    match (s, v) {
        (Seg::Key(k), Val::Object(es)) => {
            lemma_key_index(es, k);
            let i = key_index(es, k)->0;
            let es1 = es.update(i, (es[i].0, c1));
            assert(super::value::is_first_key(es1, k, i));
            lemma_key_index(es1, k);
            assert(es1.update(i, (es1[i].0, c2)) =~= es.update(i, (es[i].0, c2)));
        },
        (Seg::Index(i), Val::Array(a)) => {
            assert(a.update(i as int, c1).update(i as int, c2) =~= a.update(i as int, c2));
        },
        _ => {},
    }
}

/// A path that exists still exists, with the new node, after replacing the node there.
pub proof fn lemma_get_replace_same(v: Val, p: Seq<Seg>, n: Val)
    requires
        get_at(v, p) is Some,
    ensures
        get_at(replace_at(v, p, n), p) == Some(n),
    decreases p.len(),
{
    if p.len() > 0 {
        let c = child(v, p[0])->0;
        lemma_get_replace_same(c, p.drop_first(), n);
        lemma_child_with_child(v, p[0], replace_at(c, p.drop_first(), n));
    }
}

/// Replacing a node by itself changes nothing.
pub proof fn lemma_replace_same(v: Val, p: Seq<Seg>)
    requires
        get_at(v, p) is Some,
    ensures
        replace_at(v, p, get_at(v, p)->0) == v,
    decreases p.len(),
{
    if p.len() > 0 {
        let c = child(v, p[0])->0;
        lemma_replace_same(c, p.drop_first());
        lemma_with_child_same(v, p[0]);
    }
}

/// Replacing the node at the same path twice keeps only the second replacement.
pub proof fn lemma_replace_twice(v: Val, p: Seq<Seg>, n1: Val, n2: Val)
    requires
        get_at(v, p) is Some,
    ensures
        replace_at(replace_at(v, p, n1), p, n2) == replace_at(v, p, n2),
    decreases p.len(),
{
    if p.len() > 0 {
        let c = child(v, p[0])->0;
        let r1 = replace_at(c, p.drop_first(), n1);
        lemma_child_with_child(v, p[0], r1);
        lemma_replace_twice(c, p.drop_first(), n1, n2);
        lemma_with_child_twice(v, p[0], r1, replace_at(r1, p.drop_first(), n2));
    }
}

} // verus!
