//! Generic value tree model.
//!
//! The [`Value`] enum represents any config value as a tree node. All
//! rendering operates on this type — never on raw file text.

use vstd::prelude::*;

use super::error::{TreeErr, TreeError};
use super::model::{
    child, delete_in, delete_spec, get_at, insert_in, insert_spec, is_leaf_of,
    lemma_get_at_push, lemma_replace_same, lemma_replace_twice, lemma_with_child_same,
    move_spec, rename_in, rename_spec, replace_at, set_in, set_spec, type_name_of,
};
use super::path::{path_view, Path, PathSegment, Seg};

verus! {

/// The mathematical view of a value: strings are taken by their characters,
/// objects are sequences of (key, value) pairs in insertion order.
pub enum Val {
    Object(Seq<(Seq<char>, Val)>),
    Array(Seq<Val>),
    Str(Seq<char>),
    Int(i64),
    Float(u64),
    Bool(bool),
    Null,
}

/// An ordered map of string keys to values.
///
/// Keys are unique and keep the order in which they were first inserted;
/// removing a key shifts the later ones down (the behaviour of an
/// insertion-ordered hash map with `shift_remove`).
#[derive(Debug)]
pub struct ObjectMap {
    keys: Vec<String>,
    vals: Vec<Value>,
}

/// A generic config value node in the tree model.
#[derive(Debug)]
pub enum Value {
    /// An ordered map of string keys to child values.
    Object(ObjectMap),
    /// A list of child values.
    Array(Vec<Value>),
    /// A UTF-8 string value.
    String(String),
    /// A signed 64-bit integer.
    Int(i64),
    /// A 64-bit IEEE-754 floating-point number, held by its bit pattern.
    Float(u64),
    /// A boolean.
    Bool(bool),
    /// A null / empty value.
    Null,
}

/// The view of a value.
pub closed spec fn value_view(v: Value) -> Val
    decreases v,
{
    match v {
        Value::Object(m) => Val::Object(entries_view(m.keys@, m.vals@)),
        Value::Array(a) => Val::Array(items_view(a@)),
        Value::String(s) => Val::Str(s@),
        Value::Int(i) => Val::Int(i),
        Value::Float(b) => Val::Float(b),
        Value::Bool(b) => Val::Bool(b),
        Value::Null => Val::Null,
    }
}

/// The view of the entries of an object: the keys paired with the views of
/// the values, one entry per value.
pub closed spec fn entries_view(ks: Seq<String>, vs: Seq<Value>) -> Seq<(Seq<char>, Val)>
    decreases vs,
{
    if vs.len() == 0 {
        Seq::empty()
    } else {
        proof {
            assert(decreases_to!(vs => vs.drop_last()));
        }
        entries_view(ks, vs.drop_last()).push((ks[vs.len() - 1]@, value_view(vs.last())))
    }
}

/// The view of a sequence of array items.
pub closed spec fn items_view(vs: Seq<Value>) -> Seq<Val>
    decreases vs,
{
    if vs.len() == 0 {
        Seq::empty()
    } else {
        proof {
            assert(decreases_to!(vs => vs.drop_last()));
        }
        items_view(vs.drop_last()).push(value_view(vs.last()))
    }
}


impl View for Value {
    type V = Val;

    open spec fn view(&self) -> Val {
        value_view(*self)
    }
}

impl View for ObjectMap {
    type V = Seq<(Seq<char>, Val)>;

    closed spec fn view(&self) -> Seq<(Seq<char>, Val)> {
        entries_view(self.keys@, self.vals@)
    }
}

/// How a value's view is made from its parts.
pub broadcast proof fn lemma_value_view(v: Value)
    ensures
        #[trigger] value_view(v) == match v {
            Value::Object(m) => Val::Object(m@),
            Value::Array(a) => Val::Array(items_view(a@)),
            Value::String(s) => Val::Str(s@),
            Value::Int(i) => Val::Int(i),
            Value::Float(b) => Val::Float(b),
            Value::Bool(b) => Val::Bool(b),
            Value::Null => Val::Null,
        },
{
}

/// The view of an item sequence has one view per item, in order.
pub broadcast proof fn lemma_items_view(vs: Seq<Value>)
    ensures
        #[trigger] items_view(vs).len() == vs.len(),
        forall|i: int| 0 <= i < vs.len() ==> #[trigger] items_view(vs)[i] == vs[i]@,
    decreases vs.len(),
{
    if vs.len() > 0 {
        lemma_items_view(vs.drop_last());
    }
}

/// The view of an entry sequence has one (key, value) view per entry, in order.
pub broadcast proof fn lemma_entries_view(ks: Seq<String>, vs: Seq<Value>)
    ensures
        #[trigger] entries_view(ks, vs).len() == vs.len(),
        forall|i: int|
            0 <= i < vs.len() ==> #[trigger] entries_view(ks, vs)[i] == (ks[i]@, vs[i]@),
    decreases vs.len(),
{
    if vs.len() > 0 {
        lemma_entries_view(ks, vs.drop_last());
    }
}

pub broadcast group group_value_view {
    lemma_value_view,
    lemma_items_view,
    lemma_entries_view,
}

/// The keys of a sequence of object entries are pairwise distinct.
pub open spec fn keys_unique(es: Seq<(Seq<char>, Val)>) -> bool {
    forall|i: int, j: int| 0 <= i < j < es.len() ==> es[i].0 != es[j].0
}

/// The position of key `k` among the entries, if present (the first one).
pub open spec fn key_index(es: Seq<(Seq<char>, Val)>, k: Seq<char>) -> Option<int> {
    if exists|i: int| 0 <= i < es.len() && es[i].0 == k {
        Some(
            choose|i: int|
                0 <= i < es.len() && es[i].0 == k && forall|j: int| 0 <= j < i ==> es[j].0 != k,
        )
    } else {
        None
    }
}

/// `i` is the first position of key `k`.
pub open spec fn is_first_key(es: Seq<(Seq<char>, Val)>, k: Seq<char>, i: int) -> bool {
    0 <= i < es.len() && es[i].0 == k && forall|j: int| 0 <= j < i ==> es[j].0 != k
}

/// `key_index` finds exactly the first position of the key.
pub proof fn lemma_key_index(es: Seq<(Seq<char>, Val)>, k: Seq<char>)
    ensures
        key_index(es, k) is None <==> forall|i: int| 0 <= i < es.len() ==> es[i].0 != k,
        key_index(es, k) matches Some(i) ==> is_first_key(es, k, i),
        forall|i: int| is_first_key(es, k, i) ==> key_index(es, k) == Some(i),
{
    if exists|i: int| 0 <= i < es.len() && es[i].0 == k {
        let w = choose|i: int| 0 <= i < es.len() && es[i].0 == k;
        lemma_first_exists(es, k, w);
        let c = choose|i: int| is_first_key(es, k, i);
        assert(is_first_key(es, k, c));
        assert forall|i: int| is_first_key(es, k, i) implies key_index(es, k) == Some(i) by {
            if i < c {
                assert(es[i].0 != k);
            }
            if c < i {
                assert(es[c].0 != k);
            }
        }
    }
}

proof fn lemma_first_exists(es: Seq<(Seq<char>, Val)>, k: Seq<char>, w: int)
    requires
        0 <= w < es.len(),
        es[w].0 == k,
    ensures
        exists|i: int| is_first_key(es, k, i),
    decreases w,
{
    if exists|j: int| 0 <= j < w && es[j].0 == k {
        let j = choose|j: int| 0 <= j < w && es[j].0 == k;
        lemma_first_exists(es, k, j);
    } else {
        assert(is_first_key(es, k, w));
    }
}

impl ObjectMap {
    #[verifier::type_invariant]
    closed spec fn wf(self) -> bool {
        &&& self.keys@.len() == self.vals@.len()
        &&& forall|i: int, j: int|
            0 <= i < j < self.keys@.len() ==> self.keys@[i]@ != self.keys@[j]@
    }

    /// The keys of a map are unique.
    pub fn keys_are_unique(&self)
        ensures
            keys_unique(self@),
    {
        proof {
            use_type_invariant(self);
            lemma_entries_view(self.keys@, self.vals@);
        }
    }

    /// Create an empty map.
    pub fn new() -> (r: Self)
        ensures
            r@ == Seq::<(Seq<char>, Val)>::empty(),
    {
        let r = ObjectMap { keys: Vec::new(), vals: Vec::new() };
        proof {
            lemma_entries_view(r.keys@, r.vals@);
            assert(r@ =~= Seq::<(Seq<char>, Val)>::empty());
        }
        r
    }

    /// Take the keys and values out, leaving an empty map.
    fn take_parts(&mut self) -> (r: (Vec<String>, Vec<Value>))
        ensures
            r.0@.len() == r.1@.len(),
            forall|i: int, j: int| 0 <= i < j < r.0@.len() ==> r.0@[i]@ != r.0@[j]@,
            old(self)@ == entries_view(r.0@, r.1@),
    {
        proof {
            use_type_invariant(&*self);
        }
        let mut tmp = ObjectMap::new();
        std::mem::swap(self, &mut tmp);
        proof {
            use_type_invariant(&tmp);
        }
        let ObjectMap { keys, vals } = tmp;
        (keys, vals)
    }

    /// The number of entries.
    pub fn len(&self) -> (r: usize)
        ensures
            r == self@.len(),
    {
        proof {
            lemma_entries_view(self.keys@, self.vals@);
        }
        self.vals.len()
    }

    /// Is the map empty?
    pub fn is_empty(&self) -> (r: bool)
        ensures
            r == (self@.len() == 0),
    {
        proof {
            lemma_entries_view(self.keys@, self.vals@);
        }
        self.vals.len() == 0
    }

    /// The position of `key`, if present.
    pub fn index_of(&self, key: &str) -> (r: Option<usize>)
        ensures
            match r {
                Some(i) => key_index(self@, key@) == Some(i as int),
                None => key_index(self@, key@) is None,
            },
    {
        proof {
            use_type_invariant(self);
            lemma_entries_view(self.keys@, self.vals@);
            lemma_key_index(self@, key@);
        }
        let k: String = key.to_owned();
        let mut i: usize = 0;
        while i < self.keys.len()
            invariant
                i <= self.keys@.len(),
                k@ == key@,
                self@.len() == self.keys@.len(),
                forall|j: int| 0 <= j < self@.len() ==> #[trigger] self@[j].0 == self.keys@[j]@,
                forall|j: int| 0 <= j < i ==> self@[j].0 != key@,
            decreases self.keys@.len() - i,
        {
            if self.keys[i].eq(&k) {
                assert(is_first_key(self@, key@, i as int));
                return Some(i);
            }
            i = i + 1;
        }
        None
    }

    /// Does the map hold `key`?
    pub fn contains_key(&self, key: &str) -> (r: bool)
        ensures
            r == (key_index(self@, key@) is Some),
    {
        self.index_of(key).is_some()
    }

    /// The key at position `i`.
    pub fn key_at(&self, i: usize) -> (r: &String)
        requires
            i < self@.len(),
        ensures
            r@ == self@[i as int].0,
    {
        proof {
            use_type_invariant(self);
            lemma_entries_view(self.keys@, self.vals@);
        }
        &self.keys[i]
    }

    /// The value at position `i`.
    pub fn value_at(&self, i: usize) -> (r: &Value)
        requires
            i < self@.len(),
        ensures
            r@ == self@[i as int].1,
    {
        proof {
            lemma_entries_view(self.keys@, self.vals@);
        }
        &self.vals[i]
    }

    /// A mutable reference to the value at position `i`; the keys stay as
    /// they are, and the entry takes whatever the reference holds at the end.
    pub fn value_at_mut(&mut self, i: usize) -> (r: &mut Value)
        requires
            i < old(self)@.len(),
        ensures
            r@ == old(self)@[i as int].1,
            final(self)@ == old(self)@.update(i as int, (old(self)@[i as int].0, (*final(r))@)),
    {
        proof {
            use_type_invariant(&*self);
            lemma_entries_view(self.keys@, self.vals@);
        }
        let ghost ks = self.keys@;
        let ghost vs = self.vals@;
        let r = &mut self.vals[i];
        proof {
            lemma_entries_view(ks, vs.update(i as int, *final(r)));
            assert(entries_view(ks, vs.update(i as int, *final(r))) =~= entries_view(ks, vs).update(
                i as int,
                (entries_view(ks, vs)[i as int].0, (*final(r))@),
            ));
        }
        r
    }

    /// Replace the value at position `i`, returning the previous one.
    pub fn replace_value_at(&mut self, i: usize, v: Value) -> (r: Value)
        requires
            i < old(self)@.len(),
        ensures
            final(self)@ == old(self)@.update(i as int, (old(self)@[i as int].0, v@)),
            r@ == old(self)@[i as int].1,
    {
        let (keys, mut vals) = self.take_parts();
        proof {
            lemma_entries_view(keys@, vals@);
        }
        let ghost before = vals@;
        let old_v = vals.remove(i);
        vals.insert(i, v);
        proof {
            assert(vals@ =~= before.update(i as int, v));
            lemma_entries_view(keys@, vals@);
            assert(entries_view(keys@, vals@) =~= entries_view(keys@, before).update(
                i as int,
                (entries_view(keys@, before)[i as int].0, v@),
            ));
        }
        *self = ObjectMap { keys, vals };
        old_v
    }

    /// Insert `key` with `value`.
    ///
    /// If the key is already present its value is replaced in place (the key
    /// keeps its position) and the previous value is returned; otherwise the
    /// entry is appended at the end and `None` is returned.
    pub fn insert(&mut self, key: String, value: Value) -> (r: Option<Value>)
        ensures
            match key_index(old(self)@, key@) {
                Some(i) => {
                    &&& final(self)@ == old(self)@.update(i, (key@, value@))
                    &&& r matches Some(o) && o@ == old(self)@[i].1
                },
                None => {
                    &&& final(self)@ == old(self)@.push((key@, value@))
                    &&& r is None
                },
            },
    {
        proof {
            lemma_key_index(self@, key@);
        }
        match self.index_of(key.as_str()) {
            Some(i) => {
                let old_v = self.replace_value_at(i, value);
                Some(old_v)
            },
            None => {
                self.push_new(key, value);
                None
            },
        }
    }

    /// Append an entry whose key is not yet present.
    fn push_new(&mut self, key: String, value: Value)
        requires
            key_index(old(self)@, key@) is None,
        ensures
            final(self)@ == old(self)@.push((key@, value@)),
    {
        proof {
            lemma_key_index(self@, key@);
        }
        let (mut keys, mut vals) = self.take_parts();
        proof {
            lemma_entries_view(keys@, vals@);
        }
        let ghost ks = keys@;
        let ghost vs = vals@;
        keys.push(key);
        vals.push(value);
        proof {
            assert forall|a: int, b: int| 0 <= a < b < keys@.len() implies keys@[a]@ != keys@[b]@ by {
                if b == ks.len() {
                    assert(entries_view(ks, vs)[a].0 != key@);
                } else {
                    assert(keys@[a] == ks[a] && keys@[b] == ks[b]);
                }
            }
            lemma_entries_view(keys@, vals@);
            assert(entries_view(keys@, vals@) =~= entries_view(ks, vs).push((key@, value@)));
        }
        *self = ObjectMap { keys, vals };
    }

    /// Remove `key`, shifting later entries down; returns the removed value.
    pub fn shift_remove(&mut self, key: &str) -> (r: Option<Value>)
        ensures
            match key_index(old(self)@, key@) {
                Some(i) => {
                    &&& final(self)@ == old(self)@.remove(i)
                    &&& r matches Some(o) && o@ == old(self)@[i].1
                },
                None => {
                    &&& final(self)@ == old(self)@
                    &&& r is None
                },
            },
    {
        proof {
            lemma_key_index(self@, key@);
        }
        match self.index_of(key) {
            Some(i) => {
                let (mut keys, mut vals) = self.take_parts();
                proof {
                    lemma_entries_view(keys@, vals@);
                }
                let ghost ks = keys@;
                let ghost vs = vals@;
                let _k = keys.remove(i);
                let v = vals.remove(i);
                proof {
                    assert forall|a: int, b: int| 0 <= a < b < keys@.len() implies keys@[a]@ != keys@[b]@ by {
                        let a2 = if a < i { a } else { a + 1 };
                        let b2 = if b < i { b } else { b + 1 };
                        assert(keys@[a] == ks[a2]);
                        assert(keys@[b] == ks[b2]);
                    }
                    lemma_entries_view(keys@, vals@);
                    assert forall|x: int| 0 <= x < vals@.len() implies #[trigger] entries_view(keys@, vals@)[x]
                        == entries_view(ks, vs).remove(i as int)[x] by {
                        if x < i {
                            assert(keys@[x] == ks[x] && vals@[x] == vs[x]);
                        } else {
                            assert(keys@[x] == ks[x + 1] && vals@[x] == vs[x + 1]);
                        }
                    }
                    assert(entries_view(keys@, vals@) =~= entries_view(ks, vs).remove(i as int));
                }
                *self = ObjectMap { keys, vals };
                Some(v)
            },
            None => None,
        }
    }

    /// The value stored under `key`, if any.
    pub fn get(&self, key: &str) -> (r: Option<&Value>)
        ensures
            match key_index(self@, key@) {
                Some(i) => r matches Some(v) && v@ == self@[i].1,
                None => r is None,
            },
    {
        proof {
            lemma_key_index(self@, key@);
        }
        match self.index_of(key) {
            Some(i) => Some(self.value_at(i)),
            None => None,
        }
    }
}

/// The view of a result that carries a value.
pub open spec fn result_view(r: Result<Value, TreeError>) -> Result<Val, TreeErr> {
    match r {
        Ok(v) => Ok(v@),
        Err(e) => Err(e@),
    }
}

/// The view of a result that carries nothing.
pub open spec fn unit_result_view(r: Result<(), TreeError>) -> Result<(), TreeErr> {
    match r {
        Ok(()) => Ok(()),
        Err(e) => Err(e@),
    }
}

/// A path that does not exist: replacing there changes nothing.
proof fn lemma_replace_missing(v: Val, p: Seq<Seg>, n: Val)
    requires
        get_at(v, p) is None,
    ensures
        replace_at(v, p, n) == v,
    decreases p.len(),
{
    if p.len() > 0 {
        match child(v, p[0]) {
            Some(c) => {
                lemma_replace_missing(c, p.drop_first(), n);
                lemma_with_child_same(v, p[0]);
            },
            None => {},
        }
    }
}

fn clone_value(v: &Value) -> (r: Value)
    ensures
        r@ == v@,
    decreases v,
{
    proof {
        lemma_value_view(*v);
    }
    let r = match v {
        Value::Object(m) => {
            let m2 = clone_map(m);
            Value::Object(m2)
        },
        Value::Array(a) => {
            let mut out: Vec<Value> = Vec::new();
            let mut i: usize = 0;
            while i < a.len()
                invariant
                    *v == Value::Array(*a),
                    i <= a@.len(),
                    out@.len() == i,
                    forall|j: int| 0 <= j < i ==> #[trigger] out@[j]@ == a@[j]@,
                decreases a@.len() - i,
            {
                proof {
                    assert(decreases_to!(*v => v->Array_0));
                    assert(decreases_to!(v->Array_0 => v->Array_0@));
                    assert(decreases_to!(v->Array_0@ => v->Array_0@[i as int]));
                    assert(decreases_to!(v => a@[i as int]));
                }
                let c = clone_value(&a[i]);
                out.push(c);
                i = i + 1;
            }
            proof {
                lemma_items_view(out@);
                lemma_items_view(a@);
                assert(items_view(out@) =~= items_view(a@));
            }
            Value::Array(out)
        },
        Value::String(s) => Value::String(s.clone()),
        Value::Int(i) => Value::Int(*i),
        Value::Float(b) => Value::Float(*b),
        Value::Bool(b) => Value::Bool(*b),
        Value::Null => Value::Null,
    };
    proof {
        lemma_value_view(r);
    }
    r
}

fn clone_map(m: &ObjectMap) -> (r: ObjectMap)
    ensures
        r@ == m@,
    decreases m,
{
    proof {
        use_type_invariant(m);
        lemma_entries_view(m.keys@, m.vals@);
    }
    let mut keys: Vec<String> = Vec::new();
    let mut vals: Vec<Value> = Vec::new();
    let mut i: usize = 0;
    while i < m.vals.len()
        invariant
            i <= m.vals@.len(),
            m.keys@.len() == m.vals@.len(),
            forall|a: int, b: int| 0 <= a < b < m.keys@.len() ==> m.keys@[a]@ != m.keys@[b]@,
            keys@.len() == i,
            vals@.len() == i,
            forall|j: int| 0 <= j < i ==> #[trigger] keys@[j]@ == m.keys@[j]@ && vals@[j]@ == m.vals@[j]@,
        decreases m.vals@.len() - i,
    {
        proof {
            assert(decreases_to!(m => m.vals));
            assert(decreases_to!(m.vals => m.vals@));
            assert(decreases_to!(m.vals@ => m.vals@[i as int]));
        }
        let k = m.keys[i].clone();
        let c = clone_value(&m.vals[i]);
        keys.push(k);
        vals.push(c);
        i = i + 1;
    }
    proof {
        lemma_entries_view(keys@, vals@);
        assert(entries_view(keys@, vals@) =~= entries_view(m.keys@, m.vals@));
        assert forall|a: int, b: int| 0 <= a < b < keys@.len() implies keys@[a]@ != keys@[b]@ by {
            assert(keys@[a]@ == m.keys@[a]@ && keys@[b]@ == m.keys@[b]@);
        }
    }
    ObjectMap { keys, vals }
}

/// The node that `path[i..]` leads to from `v`, mutably (see [`Value::get_mut`]).
fn get_mut_from<'a>(v: &'a mut Value, path: &Path, i: usize) -> (r: Option<&'a mut Value>)
    requires
        i <= path@.len(),
    ensures
        ({
            let rest = path_view(path@).subrange(i as int, path@.len() as int);
            match get_at(old(v)@, rest) {
                Some(n) => {
                    &&& r is Some
                    &&& (*r.unwrap())@ == n
                    &&& (*final(v))@ == replace_at(old(v)@, rest, (*final(r.unwrap()))@)
                },
                None => r is None && (*final(v))@ == old(v)@,
            }
        }),
    decreases path@.len() - i,
{
    let ghost pv = path_view(path@);
    let ghost rest = pv.subrange(i as int, path@.len() as int);
    if i == path.len() {
        return Some(v);
    }
    proof {
        assert(rest[0] == path@[i as int]@);
        assert(rest.drop_first() =~= pv.subrange(i + 1, path@.len() as int));
        lemma_value_view(*v);
        lemma_value_view(*final(v));
    }
    let fits = match (&path[i], &*v) {
        (PathSegment::Key(_), Value::Object(_)) => true,
        (PathSegment::Index(_), Value::Array(_)) => true,
        _ => false,
    };
    if !fits {
        return None;
    }
    match &path[i] {
        PathSegment::Key(k) => match v {
            Value::Object(map) => {
                proof {
                    lemma_key_index(map@, k@);
                }
                match map.index_of(k.as_str()) {
                    Some(j) => {
                        let ghost m0 = map@;
                        let c = map.value_at_mut(j);
                        let r = get_mut_from(c, path, i + 1);
                        proof {
                            assert(m0.update(j as int, (m0[j as int].0, m0[j as int].1)) =~= m0);
                        }
                        r
                    },
                    None => {
                        proof {
                            assert(*final(map) == *map);
                        }
                        None
                    },
                }
            },
            _ => None,
        },
        PathSegment::Index(j) => match v {
            Value::Array(arr) => {
                proof {
                    lemma_items_view(arr@);
                }
                proof {
                    lemma_items_view(final(arr)@);
                }
                if *j < arr.len() {
                    let ghost a0 = arr@;
                    let c = &mut arr[*j];
                    proof {
                        assert(items_view(a0.update(*j as int, *final(c))) =~= items_view(a0).update(*j as int, (*final(c))@));
                    }
                    let r = get_mut_from(c, path, i + 1);
                    proof {
                        assert(items_view(a0).update(*j as int, a0[*j as int]@) =~= items_view(a0));
                    }
                    r
                } else {
                    proof {
                        assert(*final(arr) == *arr);
                    }
                    None
                }
            },
            _ => None,
        },
    }
}

impl Clone for Value {
    fn clone(&self) -> (r: Self)
        ensures
            r@ == self@,
    {
        clone_value(self)
    }
}

impl Clone for ObjectMap {
    fn clone(&self) -> (r: Self)
        ensures
            r@ == self@,
    {
        clone_map(self)
    }
}

/// Replace the node that `path[depth..end]` leads to from `v` by `n`.
///
/// Returns the new tree and the node that was there, if the path exists;
/// if it does not, the tree is returned unchanged.
fn replace_node(v: Value, path: &Path, depth: usize, end: usize, n: Value) -> (r: (
    Value,
    Option<Value>,
))
    requires
        depth <= end <= path@.len(),
    ensures
        r.0@ == replace_at(v@, path_view(path@).subrange(depth as int, end as int), n@),
        match r.1 {
            Some(o) => get_at(v@, path_view(path@).subrange(depth as int, end as int)) == Some(
                o@,
            ),
            None => get_at(v@, path_view(path@).subrange(depth as int, end as int)) is None,
        },
    decreases end - depth,
{
    let ghost sub = path_view(path@).subrange(depth as int, end as int);
    let ghost rest = path_view(path@).subrange(depth + 1, end as int);
    if depth == end {
        return (n, Some(v));
    }
    proof {
        assert(sub[0] == path@[depth as int]@);
        assert(sub.drop_first() =~= rest);
        lemma_value_view(v);
    }
    match v {
        Value::Object(mut m) => {
            match &path[depth] {
                PathSegment::Key(k) => {
                    proof {
                        lemma_key_index(m@, k@);
                    }
                    match m.index_of(k.as_str()) {
                        Some(i) => {
                            let ghost m0 = m@;
                            let c = m.replace_value_at(i, Value::Null);
                            let (c2, old) = replace_node(c, path, depth + 1, end, n);
                            let _ = m.replace_value_at(i, c2);
                            proof {
                                assert(m@ =~= m0.update(i as int, (m0[i as int].0, c2@)));
                            }
                            let r = Value::Object(m);
                            proof {
                                lemma_value_view(r);
                            }
                            (r, old)
                        },
                        None => {
                            let r = Value::Object(m);
                            proof {
                                lemma_value_view(r);
                            }
                            (r, None)
                        },
                    }
                },
                PathSegment::Index(_) => {
                    let r = Value::Object(m);
                    proof {
                        lemma_value_view(r);
                    }
                    (r, None)
                },
            }
        },
        Value::Array(mut a) => {
            match &path[depth] {
                PathSegment::Index(i) => {
                    if *i < a.len() {
                        let ghost a0 = a@;
                        proof {
                            lemma_items_view(a0);
                        }
                        let c = a.remove(*i);
                        let (c2, old) = replace_node(c, path, depth + 1, end, n);
                        a.insert(*i, c2);
                        proof {
                            lemma_items_view(a@);
                            assert(a@ =~= a0.update(*i as int, c2));
                            assert(items_view(a@) =~= items_view(a0).update(*i as int, c2@));
                        }
                        let r = Value::Array(a);
                        proof {
                            lemma_value_view(r);
                        }
                        (r, old)
                    } else {
                        let r = Value::Array(a);
                        proof {
                            lemma_value_view(r);
                            lemma_items_view(a@);
                        }
                        (r, None)
                    }
                },
                PathSegment::Key(_) => {
                    let r = Value::Array(a);
                    proof {
                        lemma_value_view(r);
                    }
                    (r, None)
                },
            }
        },
        other => (other, None),
    }
}

/// Take the node at `path[..end]` out of `tree` (leaving null there),
/// returning the rest of the tree and the node, if the path exists.
fn detach(tree: Value, path: &Path, end: usize) -> (r: (Value, Option<Value>))
    requires
        end <= path@.len(),
    ensures
        match r.1 {
            Some(n) => {
                &&& get_at(tree@, path_view(path@).subrange(0, end as int)) == Some(n@)
                &&& r.0@ == replace_at(tree@, path_view(path@).subrange(0, end as int), Val::Null)
            },
            None => {
                &&& get_at(tree@, path_view(path@).subrange(0, end as int)) is None
                &&& r.0@ == tree@
            },
        },
{
    let r = replace_node(tree, path, 0, end, Value::Null);
    proof {
        if r.1 is None {
            lemma_replace_missing(tree@, path_view(path@).subrange(0, end as int), Val::Null);
        }
    }
    r
}

/// Put `node` back at `path[..end]` of a tree that `detach` left a hole in.
fn reattach(holed: Value, path: &Path, end: usize, node: Value, Ghost(orig): Ghost<Val>) -> (r:
    Value)
    requires
        end <= path@.len(),
        get_at(orig, path_view(path@).subrange(0, end as int)) is Some,
        holed@ == replace_at(orig, path_view(path@).subrange(0, end as int), Val::Null),
    ensures
        r@ == replace_at(orig, path_view(path@).subrange(0, end as int), node@),
{
    let (r, _) = replace_node(holed, path, 0, end, node);
    proof {
        lemma_replace_twice(orig, path_view(path@).subrange(0, end as int), Val::Null, node@);
    }
    r
}

/// The parent path and last segment of a nonempty path, in view terms.
proof fn lemma_split_path(path: Seq<PathSegment>)
    requires
        path.len() > 0,
    ensures
        path_view(path).subrange(0, path.len() - 1) == path_view(path).drop_last(),
        path_view(path).last() == path[path.len() - 1]@,
{
    assert(path_view(path).subrange(0, path.len() - 1) =~= path_view(path).drop_last());
}

impl Value {
    // ── helpers ─────────────────────────────────────────────────────

    /// Returns `true` if this node is a leaf (string, int, float, bool, or null).
    pub fn is_leaf(&self) -> (r: bool)
        ensures
            r == is_leaf_of(self@),
    {
        proof {
            lemma_value_view(*self);
        }
        match self {
            Value::Object(_) | Value::Array(_) => false,
            _ => true,
        }
    }

    /// Returns a human-readable type name for this value.
    pub fn type_label(&self) -> (r: &'static str)
        ensures
            r@ == type_name_of(self@),
    {
        proof {
            lemma_value_view(*self);
        }
        match self {
            Value::Object(_) => "object",
            Value::Array(_) => "array",
            Value::String(_) => "string",
            Value::Int(_) => "int",
            Value::Float(_) => "float",
            Value::Bool(_) => "bool",
            Value::Null => "null",
        }
    }

    // ── get ─────────────────────────────────────────────────────────

    /// Walk the tree following `path` and return a mutable reference to the
    /// value at that location, or `None` if the path does not exist. Whatever
    /// the reference holds at the end takes that node's place in the tree.
    pub fn get_mut(&mut self, path: &Path) -> (r: Option<&mut Value>)
        ensures
            match get_at(old(self)@, path_view(path@)) {
                Some(n) => {
                    &&& r is Some
                    &&& (*r.unwrap())@ == n
                    &&& (*final(self))@ == replace_at(old(self)@, path_view(path@), (*final(r.unwrap()))@)
                },
                None => r is None && (*final(self))@ == old(self)@,
            },
    {
        proof {
            assert(path_view(path@).subrange(0, path@.len() as int) =~= path_view(path@));
        }
        get_mut_from(self, path, 0)
    }

    /// Walk the tree following `path` and return a reference to the value at
    /// that location, or `None` if the path does not exist.
    pub fn get(&self, path: &Path) -> (r: Option<&Value>)
        ensures
            match get_at(self@, path_view(path@)) {
                Some(n) => r matches Some(x) && x@ == n,
                None => r is None,
            },
    {
        let ghost pv = path_view(path@);
        let mut current: &Value = self;
        let mut i: usize = 0;
        proof {
            assert(pv.subrange(0, pv.len() as int) =~= pv);
        }
        while i < path.len()
            invariant
                i <= path@.len(),
                pv == path_view(path@),
                get_at(self@, pv) == get_at(current@, pv.subrange(i as int, pv.len() as int)),
            decreases path@.len() - i,
        {
            let ghost sub = pv.subrange(i as int, pv.len() as int);
            proof {
                assert(sub[0] == path@[i as int]@);
                assert(sub.drop_first() =~= pv.subrange(i + 1, pv.len() as int));
                lemma_value_view(*current);
            }
            let next: &Value = match &path[i] {
                PathSegment::Key(k) => match current {
                    Value::Object(map) => {
                        proof {
                            lemma_key_index(map@, k@);
                        }
                        match map.index_of(k.as_str()) {
                            Some(j) => map.value_at(j),
                            None => return None,
                        }
                    },
                    _ => return None,
                },
                PathSegment::Index(j) => match current {
                    Value::Array(arr) => {
                        if *j < arr.len() {
                            proof {
                                lemma_items_view(arr@);
                            }
                            &arr[*j]
                        } else {
                            proof {
                                lemma_items_view(arr@);
                            }
                            return None;
                        }
                    },
                    _ => return None,
                },
            };
            current = next;
            i = i + 1;
        }
        proof {
            assert(pv.subrange(i as int, pv.len() as int) =~= Seq::<Seg>::empty());
        }
        Some(current)
    }

    // ── one-level operations on a parent node ───────────────────────

    fn set_child(parent: Value, last: &PathSegment, x: Value) -> (r: (Value, Result<Value, TreeError>))
        ensures
            match set_in(parent@, last@, x@) {
                Ok((np, old)) => r.0@ == np && result_view(r.1) == Ok::<Val, TreeErr>(old),
                Err(e) => r.0@ == parent@ && result_view(r.1) == Err::<Val, TreeErr>(e),
            },
    {
        proof {
            lemma_value_view(parent);
        }
        match (last, parent) {
            (PathSegment::Key(k), Value::Object(mut map)) => {
                proof {
                    lemma_key_index(map@, k@);
                }
                match map.index_of(k.as_str()) {
                    Some(i) => {
                        let old = map.replace_value_at(i, x);
                        let np = Value::Object(map);
                        proof {
                            lemma_value_view(np);
                        }
                        (np, Ok(old))
                    },
                    None => {
                        let np = Value::Object(map);
                        proof {
                            lemma_value_view(np);
                        }
                        (np, Err(TreeError::PathNotFound))
                    },
                }
            },
            (PathSegment::Index(i), Value::Array(mut arr)) => {
                let ghost a0 = arr@;
                proof {
                    lemma_items_view(a0);
                }
                if *i < arr.len() {
                    let old = arr.remove(*i);
                    arr.insert(*i, x);
                    proof {
                        assert(arr@ =~= a0.update(*i as int, x));
                        lemma_items_view(arr@);
                        assert(items_view(arr@) =~= items_view(a0).update(*i as int, x@));
                    }
                    let np = Value::Array(arr);
                    proof {
                        lemma_value_view(np);
                    }
                    (np, Ok(old))
                } else {
                    let np = Value::Array(arr);
                    proof {
                        lemma_value_view(np);
                    }
                    (np, Err(TreeError::IndexOutOfBounds(*i)))
                }
            },
            (PathSegment::Key(_), actual) => {
                let t = actual.type_label().to_owned();
                (actual, Err(TreeError::WrongType("set".to_owned(), "object".to_owned(), t)))
            },
            (PathSegment::Index(_), actual) => {
                let t = actual.type_label().to_owned();
                (actual, Err(TreeError::WrongType("set".to_owned(), "array".to_owned(), t)))
            },
        }
    }

    fn insert_child(parent: Value, last: &PathSegment, x: Value) -> (r: (Value, Result<(), TreeError>))
        ensures
            match insert_in(parent@, last@, x@) {
                Ok(np) => r.0@ == np && r.1 is Ok,
                Err(e) => r.0@ == parent@ && unit_result_view(r.1) == Err::<(), TreeErr>(e),
            },
    {
        proof {
            lemma_value_view(parent);
        }
        match (last, parent) {
            (PathSegment::Key(k), Value::Object(mut map)) => {
                if map.contains_key(k.as_str()) {
                    let np = Value::Object(map);
                    proof {
                        lemma_value_view(np);
                    }
                    (np, Err(TreeError::KeyAlreadyExists(k.clone())))
                } else {
                    let _ = map.insert(k.clone(), x);
                    let np = Value::Object(map);
                    proof {
                        lemma_value_view(np);
                    }
                    (np, Ok(()))
                }
            },
            (PathSegment::Index(i), Value::Array(mut arr)) => {
                let ghost a0 = arr@;
                proof {
                    lemma_items_view(a0);
                }
                if *i <= arr.len() {
                    arr.insert(*i, x);
                    proof {
                        lemma_items_view(arr@);
                        assert(items_view(arr@) =~= items_view(a0).insert(*i as int, x@));
                    }
                    let np = Value::Array(arr);
                    proof {
                        lemma_value_view(np);
                    }
                    (np, Ok(()))
                } else {
                    let np = Value::Array(arr);
                    proof {
                        lemma_value_view(np);
                    }
                    (np, Err(TreeError::IndexOutOfBounds(*i)))
                }
            },
            (PathSegment::Key(_), actual) => {
                let t = actual.type_label().to_owned();
                (actual, Err(TreeError::WrongType("insert".to_owned(), "object".to_owned(), t)))
            },
            (PathSegment::Index(_), actual) => {
                let t = actual.type_label().to_owned();
                (actual, Err(TreeError::WrongType("insert".to_owned(), "array".to_owned(), t)))
            },
        }
    }

    fn delete_child(parent: Value, last: &PathSegment) -> (r: (Value, Result<Value, TreeError>))
        ensures
            match delete_in(parent@, last@) {
                Ok((np, old)) => r.0@ == np && result_view(r.1) == Ok::<Val, TreeErr>(old),
                Err(e) => r.0@ == parent@ && result_view(r.1) == Err::<Val, TreeErr>(e),
            },
    {
        proof {
            lemma_value_view(parent);
        }
        match (last, parent) {
            (PathSegment::Key(k), Value::Object(mut map)) => {
                proof {
                    lemma_key_index(map@, k@);
                }
                match map.shift_remove(k.as_str()) {
                    Some(old) => {
                        let np = Value::Object(map);
                        proof {
                            lemma_value_view(np);
                        }
                        (np, Ok(old))
                    },
                    None => {
                        let np = Value::Object(map);
                        proof {
                            lemma_value_view(np);
                        }
                        (np, Err(TreeError::PathNotFound))
                    },
                }
            },
            (PathSegment::Index(i), Value::Array(mut arr)) => {
                let ghost a0 = arr@;
                proof {
                    lemma_items_view(a0);
                }
                if *i < arr.len() {
                    let old = arr.remove(*i);
                    proof {
                        lemma_items_view(arr@);
                        assert(items_view(arr@) =~= items_view(a0).remove(*i as int));
                    }
                    let np = Value::Array(arr);
                    proof {
                        lemma_value_view(np);
                    }
                    (np, Ok(old))
                } else {
                    let np = Value::Array(arr);
                    proof {
                        lemma_value_view(np);
                    }
                    (np, Err(TreeError::IndexOutOfBounds(*i)))
                }
            },
            (PathSegment::Key(_), actual) => {
                let t = actual.type_label().to_owned();
                (actual, Err(TreeError::WrongType("delete".to_owned(), "object".to_owned(), t)))
            },
            (PathSegment::Index(_), actual) => {
                let t = actual.type_label().to_owned();
                (actual, Err(TreeError::WrongType("delete".to_owned(), "array".to_owned(), t)))
            },
        }
    }

    fn rename_child(parent: Value, old_key: &String, new_key: &str) -> (r: (Value, Result<(), TreeError>))
        ensures
            match rename_in(parent@, old_key@, new_key@) {
                Ok(np) => r.0@ == np && r.1 is Ok,
                Err(e) => r.0@ == parent@ && unit_result_view(r.1) == Err::<(), TreeErr>(e),
            },
    {
        proof {
            lemma_value_view(parent);
        }
        match parent {
            Value::Object(mut map) => {
                proof {
                    lemma_key_index(map@, old_key@);
                    lemma_key_index(map@, new_key@);
                }
                if !map.contains_key(old_key.as_str()) {
                    let np = Value::Object(map);
                    proof {
                        lemma_value_view(np);
                    }
                    return (np, Err(TreeError::PathNotFound));
                }
                if map.contains_key(new_key) {
                    let np = Value::Object(map);
                    proof {
                        lemma_value_view(np);
                    }
                    return (np, Err(TreeError::KeyAlreadyExists(new_key.to_owned())));
                }
                let ghost m0 = map@;
                let ghost i = key_index(m0, old_key@)->0;
                let val = map.shift_remove(old_key.as_str());
                match val {
                    Some(v) => {
                        let ghost m1 = map@;
                        proof {
                            assert(m1 == m0.remove(i));
                            assert forall|j: int| 0 <= j < m1.len() implies m1[j].0 != new_key@ by {
                                if j < i {
                                    assert(m1[j] == m0[j]);
                                } else {
                                    assert(m1[j] == m0[j + 1]);
                                }
                            }
                            lemma_key_index(m1, new_key@);
                        }
                        let _ = map.insert(new_key.to_owned(), v);
                        let np = Value::Object(map);
                        proof {
                            lemma_value_view(np);
                        }
                        (np, Ok(()))
                    },
                    None => {
                        let np = Value::Object(map);
                        proof {
                            lemma_value_view(np);
                        }
                        (np, Err(TreeError::PathNotFound))
                    },
                }
            },
            other => {
                let t = other.type_label().to_owned();
                (
                    other,
                    Err(TreeError::WrongType("rename_key".to_owned(), "object".to_owned(), t)),
                )
            },
        }
    }

    // ── whole-tree operations ───────────────────────────────────────

    /// Replace the value at `path` with `value`, returning the old value.
    ///
    /// Returns an error if the path does not exist or if a segment tries to
    /// index into the wrong node type; the tree is then left unchanged.
    pub fn set(&mut self, path: &Path, value: Value) -> (r: Result<Value, TreeError>)
        ensures
            (final(self)@, result_view(r)) == set_spec(old(self)@, path_view(path@), value@),
    {
        if path.len() == 0 {
            return Err(TreeError::RootOperation("set".to_owned()));
        }
        let end = path.len() - 1;
        let ghost orig = self@;
        let ghost q = path_view(path@).subrange(0, end as int);
        proof {
            lemma_split_path(path@);
        }
        let mut tree = Value::Null;
        std::mem::swap(self, &mut tree);
        let (holed, parent) = detach(tree, path, end);
        match parent {
            None => {
                *self = holed;
                Err(TreeError::PathNotFound)
            },
            Some(par) => {
                let ghost pv = par@;
                let (np, res) = Value::set_child(par, &path[end], value);
                *self = reattach(holed, path, end, np, Ghost(orig));
                proof {
                    if res is Err {
                        lemma_replace_same(orig, q);
                    }
                }
                res
            },
        }
    }

    /// Insert a new key or index at `path` with the given `value`.
    ///
    /// For objects, the parent must exist and be an object, and the key must
    /// not already exist (the new entry goes last). For arrays, the index must
    /// be within bounds or equal to the length (appending).
    pub fn insert(&mut self, path: &Path, value: Value) -> (r: Result<(), TreeError>)
        ensures
            (final(self)@, unit_result_view(r)) == insert_spec(old(self)@, path_view(path@), value@),
    {
        if path.len() == 0 {
            return Err(TreeError::RootOperation("insert".to_owned()));
        }
        let end = path.len() - 1;
        let ghost orig = self@;
        let ghost q = path_view(path@).subrange(0, end as int);
        proof {
            lemma_split_path(path@);
        }
        let mut tree = Value::Null;
        std::mem::swap(self, &mut tree);
        let (holed, parent) = detach(tree, path, end);
        match parent {
            None => {
                *self = holed;
                Err(TreeError::PathNotFound)
            },
            Some(par) => {
                let (np, res) = Value::insert_child(par, &path[end], value);
                *self = reattach(holed, path, end, np, Ghost(orig));
                proof {
                    if res is Err {
                        lemma_replace_same(orig, q);
                    }
                }
                res
            },
        }
    }

    /// Remove the value at `path`, returning it.
    ///
    /// Returns an error if the path does not exist or if a segment tries to
    /// index into the wrong node type; the tree is then left unchanged.
    pub fn delete(&mut self, path: &Path) -> (r: Result<Value, TreeError>)
        ensures
            (final(self)@, result_view(r)) == delete_spec(old(self)@, path_view(path@)),
    {
        if path.len() == 0 {
            return Err(TreeError::RootOperation("delete".to_owned()));
        }
        let end = path.len() - 1;
        let ghost orig = self@;
        let ghost q = path_view(path@).subrange(0, end as int);
        proof {
            lemma_split_path(path@);
        }
        let mut tree = Value::Null;
        std::mem::swap(self, &mut tree);
        let (holed, parent) = detach(tree, path, end);
        match parent {
            None => {
                *self = holed;
                Err(TreeError::PathNotFound)
            },
            Some(par) => {
                let (np, res) = Value::delete_child(par, &path[end]);
                *self = reattach(holed, path, end, np, Ghost(orig));
                proof {
                    if res is Err {
                        lemma_replace_same(orig, q);
                    }
                }
                res
            },
        }
    }

    /// Rename a key inside an object.
    ///
    /// The last segment of `path` is the key to rename; `new_key` replaces it
    /// and must not already exist. The renamed entry moves to the end of the
    /// object.
    pub fn rename_key(&mut self, path: &Path, new_key: &str) -> (r: Result<(), TreeError>)
        ensures
            (final(self)@, unit_result_view(r)) == rename_spec(
                old(self)@,
                path_view(path@),
                new_key@,
            ),
    {
        if path.len() == 0 {
            return Err(TreeError::RootOperation("rename_key".to_owned()));
        }
        let end = path.len() - 1;
        let ghost orig = self@;
        let ghost q = path_view(path@).subrange(0, end as int);
        proof {
            lemma_split_path(path@);
        }
        let old_key = match &path[end] {
            PathSegment::Key(k) => k,
            PathSegment::Index(_) => {
                return Err(
                    TreeError::WrongType(
                        "rename_key".to_owned(),
                        "object key".to_owned(),
                        "array index".to_owned(),
                    ),
                );
            },
        };
        let mut tree = Value::Null;
        std::mem::swap(self, &mut tree);
        let (holed, parent) = detach(tree, path, end);
        match parent {
            None => {
                *self = holed;
                Err(TreeError::PathNotFound)
            },
            Some(par) => {
                let (np, res) = Value::rename_child(par, old_key, new_key);
                *self = reattach(holed, path, end, np, Ghost(orig));
                proof {
                    if res is Err {
                        lemma_replace_same(orig, q);
                    }
                }
                res
            },
        }
    }

    /// Move a value from path `from` to path `to`.
    ///
    /// The source is removed first, then the value is inserted at the
    /// destination (if that insertion fails, the source stays removed).
    pub fn move_value(&mut self, from: &Path, to: &Path) -> (r: Result<(), TreeError>)
        ensures
            (final(self)@, unit_result_view(r)) == move_spec(
                old(self)@,
                path_view(from@),
                path_view(to@),
            ),
    {
        if crate::tree::path::paths_equal(from.as_slice(), to.as_slice()) {
            return Err(TreeError::SourceEqualsTarget);
        }
        let value = match self.delete(from) {
            Ok(v) => v,
            Err(e) => return Err(e),
        };
        self.insert(to, value)
    }

    // ── convenience constructors ────────────────────────────────────

    /// Create an empty object value.
    pub fn object() -> (r: Self)
        ensures
            r@ == Val::Object(Seq::empty()),
    {
        let r = Value::Object(ObjectMap::new());
        proof {
            lemma_value_view(r);
        }
        r
    }

    /// Create an empty array value.
    pub fn array() -> (r: Self)
        ensures
            r@ == Val::Array(Seq::empty()),
    {
        let r = Value::Array(Vec::new());
        proof {
            lemma_value_view(r);
            lemma_items_view(Seq::<Value>::empty());
        }
        r
    }

    /// Create a string value.
    pub fn string(s: &str) -> (r: Self)
        ensures
            r@ == Val::Str(s@),
    {
        let r = Value::String(s.to_owned());
        proof {
            lemma_value_view(r);
        }
        r
    }

    /// Create an integer value.
    pub fn integer(i: i64) -> (r: Self)
        ensures
            r@ == Val::Int(i),
    {
        proof {
            lemma_value_view(Value::Int(i));
        }
        Value::Int(i)
    }

    /// Create a float value from its IEEE-754 bit pattern.
    pub fn float(bits: u64) -> (r: Self)
        ensures
            r@ == Val::Float(bits),
    {
        proof {
            lemma_value_view(Value::Float(bits));
        }
        Value::Float(bits)
    }

    /// Create a boolean value.
    pub fn bool(b: bool) -> (r: Self)
        ensures
            r@ == Val::Bool(b),
    {
        proof {
            lemma_value_view(Value::Bool(b));
        }
        Value::Bool(b)
    }
}


// ── equality ────────────────────────────────────────────────────────

/// Float equality on bit patterns, as IEEE-754 compares: NaN equals
/// nothing, and the two zeros are equal.
pub open spec fn float_eq(a: u64, b: u64) -> bool {
    let nan_a = (a >> 52u64) & 0x7ffu64 == 0x7ffu64 && a & 0xf_ffff_ffff_ffffu64 != 0;
    let nan_b = (b >> 52u64) & 0x7ffu64 == 0x7ffu64 && b & 0xf_ffff_ffff_ffffu64 != 0;
    !nan_a && !nan_b && (a == b || (a & 0x7fff_ffff_ffff_ffffu64 == 0 && b & 0x7fff_ffff_ffff_ffffu64 == 0))
}

/// Value equality: objects are equal when they hold the same keys with
/// equal values (in any order), arrays when their items are equal in order,
/// floats as IEEE-754 compares them.
pub open spec fn val_eq(a: Val, b: Val) -> bool
    decreases a,
{
    match (a, b) {
        (Val::Object(x), Val::Object(y)) => x.len() == y.len() && forall|i: int|
            0 <= i < x.len() ==> match key_index(y, #[trigger] x[i].0) {
                Some(j) => val_eq(x[i].1, y[j].1),
                None => false,
            },
        (Val::Array(x), Val::Array(y)) => x.len() == y.len() && forall|i: int|
            0 <= i < x.len() ==> val_eq(#[trigger] x[i], y[i]),
        (Val::Str(s), Val::Str(t)) => s == t,
        (Val::Int(i), Val::Int(j)) => i == j,
        (Val::Float(f), Val::Float(g)) => float_eq(f, g),
        (Val::Bool(p), Val::Bool(q)) => p == q,
        (Val::Null, Val::Null) => true,
        _ => false,
    }
}

fn float_eq_exec(a: u64, b: u64) -> (r: bool)
    ensures
        r == float_eq(a, b),
{
    let nan_a = (a >> 52u64) & 0x7ffu64 == 0x7ffu64 && a & 0xf_ffff_ffff_ffffu64 != 0;
    let nan_b = (b >> 52u64) & 0x7ffu64 == 0x7ffu64 && b & 0xf_ffff_ffff_ffffu64 != 0;
    !nan_a && !nan_b && (a == b || (a & 0x7fff_ffff_ffff_ffffu64 == 0 && b & 0x7fff_ffff_ffff_ffffu64 == 0))
}

fn value_eq(a: &Value, b: &Value) -> (r: bool)
    ensures
        r == val_eq(a@, b@),
    decreases a@,
{
    proof {
        lemma_value_view(*a);
        lemma_value_view(*b);
    }
    match (a, b) {
        (Value::Object(x), Value::Object(y)) => {
            if x.len() != y.len() {
                return false;
            }
            let ghost xv = x@;
            let ghost yv = y@;
            let mut i: usize = 0;
            while i < x.len()
                invariant
                    i <= xv.len(),
                    xv == x@,
                    yv == y@,
                    xv.len() == yv.len(),
                    *a == Value::Object(*x),
                    *b == Value::Object(*y),
                    a@ == Val::Object(xv),
                    b@ == Val::Object(yv),
                    forall|k: int| 0 <= k < i ==> match key_index(yv, #[trigger] xv[k].0) {
                        Some(j) => val_eq(xv[k].1, yv[j].1),
                        None => false,
                    },
                decreases xv.len() - i,
            {
                let k = x.key_at(i);
                let v = x.value_at(i);
                proof {
                    assert(a@ == Val::Object(xv));
                    assert(decreases_to!(a@ => a@->Object_0));
                    assert(decreases_to!(xv => xv[i as int]));
                    assert(decreases_to!(xv[i as int] => xv[i as int].1));
                }
                match y.get(k.as_str()) {
                    Some(w) => {
                        if !value_eq(v, w) {
                            proof {
                                let j = key_index(yv, xv[i as int].0)->0;
                                assert(!val_eq(xv[i as int].1, yv[j].1));
                                assert(!(match key_index(yv, xv[i as int].0) {
                                    Some(j) => val_eq(xv[i as int].1, yv[j].1),
                                    None => false,
                                }));
                            }
                            return false;
                        }
                    },
                    None => {
                        proof {
                            assert(!(match key_index(yv, xv[i as int].0) {
                                Some(j) => val_eq(xv[i as int].1, yv[j].1),
                                None => false,
                            }));
                        }
                        return false;
                    },
                }
                i = i + 1;
            }
            true
        },
        (Value::Array(x), Value::Array(y)) => {
            if x.len() != y.len() {
                proof {
                    lemma_items_view(x@);
                    lemma_items_view(y@);
                }
                return false;
            }
            let ghost xv = items_view(x@);
            let ghost yv = items_view(y@);
            proof {
                lemma_items_view(x@);
                lemma_items_view(y@);
            }
            let mut i: usize = 0;
            while i < x.len()
                invariant
                    i <= x@.len(),
                    x@.len() == y@.len(),
                    xv == items_view(x@),
                    yv == items_view(y@),
                    xv.len() == x@.len(),
                    yv.len() == y@.len(),
                    forall|k: int| 0 <= k < x@.len() ==> #[trigger] xv[k] == x@[k]@,
                    forall|k: int| 0 <= k < y@.len() ==> #[trigger] yv[k] == y@[k]@,
                    *a == Value::Array(*x),
                    *b == Value::Array(*y),
                    a@ == Val::Array(xv),
                    b@ == Val::Array(yv),
                    forall|k: int| 0 <= k < i ==> val_eq(#[trigger] xv[k], yv[k]),
                decreases x@.len() - i,
            {
                proof {
                    assert(a@ == Val::Array(xv));
                    assert(decreases_to!(a@ => a@->Array_0));
                    assert(decreases_to!(xv => xv[i as int]));
                }
                if !value_eq(&x[i], &y[i]) {
                    proof {
                        assert(!val_eq(xv[i as int], yv[i as int]));
                    }
                    return false;
                }
                i = i + 1;
            }
            true
        },
        (Value::String(s), Value::String(t)) => s.eq(t),
        (Value::Int(i), Value::Int(j)) => *i == *j,
        (Value::Float(f), Value::Float(g)) => float_eq_exec(*f, *g),
        (Value::Bool(p), Value::Bool(q)) => *p == *q,
        (Value::Null, Value::Null) => true,
        _ => false,
    }
}

impl PartialEq for Value {
    fn eq(&self, other: &Self) -> (r: bool) {
        value_eq(self, other)
    }
}

impl vstd::std_specs::cmp::PartialEqSpecImpl for Value {
    open spec fn obeys_eq_spec() -> bool {
        true
    }

    open spec fn eq_spec(&self, other: &Self) -> bool {
        val_eq(self@, other@)
    }
}


// ── conversions ─────────────────────────────────────────────────────

impl From<String> for Value {
    fn from(s: String) -> (r: Self) {
        Value::String(s)
    }
}

impl vstd::std_specs::convert::FromSpecImpl<String> for Value {
    open spec fn obeys_from_spec() -> bool {
        true
    }

    open spec fn from_spec(s: String) -> Self {
        Value::String(s)
    }
}

impl From<&str> for Value {
    fn from(s: &str) -> (r: Self)
        ensures
            r@ == Val::Str(s@),
    {
        Value::String(s.to_owned())
    }
}

impl vstd::std_specs::convert::FromSpecImpl<&str> for Value {
    open spec fn obeys_from_spec() -> bool {
        false
    }

    open spec fn from_spec(s: &str) -> Self {
        arbitrary()
    }
}

impl From<i64> for Value {
    fn from(i: i64) -> (r: Self) {
        Value::Int(i)
    }
}

impl vstd::std_specs::convert::FromSpecImpl<i64> for Value {
    open spec fn obeys_from_spec() -> bool {
        true
    }

    open spec fn from_spec(i: i64) -> Self {
        Value::Int(i)
    }
}

impl From<bool> for Value {
    fn from(b: bool) -> (r: Self) {
        Value::Bool(b)
    }
}

impl vstd::std_specs::convert::FromSpecImpl<bool> for Value {
    open spec fn obeys_from_spec() -> bool {
        true
    }

    open spec fn from_spec(b: bool) -> Self {
        Value::Bool(b)
    }
}

impl From<Vec<Value>> for Value {
    fn from(arr: Vec<Value>) -> (r: Self) {
        Value::Array(arr)
    }
}

impl vstd::std_specs::convert::FromSpecImpl<Vec<Value>> for Value {
    open spec fn obeys_from_spec() -> bool {
        true
    }

    open spec fn from_spec(arr: Vec<Value>) -> Self {
        Value::Array(arr)
    }
}

} // verus!
