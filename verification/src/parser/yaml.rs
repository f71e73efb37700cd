//! YAML documents as the editor sees them, and the conversions between them
//! and value trees. Reading and writing YAML text is done on [`YamlNode`]s
//! outside the library.

use vstd::prelude::*;

use super::json::{nan_bits, JsonNumber};
use super::toml::{object_of, put};
use crate::text::owned;
use crate::tree::value::{items_view, lemma_items_view, ObjectMap, Val, Value};

verus! {

broadcast use crate::tree::value::group_value_view;

/// A mapping key, as the editor reads it.
#[derive(Debug)]
pub enum YamlKey {
    Str(String),
    Bool(bool),
    /// A number, by its text.
    Number(String),
    Null,
    /// Any other key (a sequence, mapping or tagged value), by its debug text.
    Other(String),
}

/// A YAML value.
#[derive(Debug)]
pub enum YamlNode {
    Null,
    Bool(bool),
    Number(JsonNumber),
    String(String),
    Sequence(Vec<YamlNode>),
    Mapping(Vec<(YamlKey, YamlNode)>),
    Tagged(Box<YamlNode>),
}

/// The view of a mapping key: the text it reads as.
pub open spec fn key_text(k: YamlKey) -> Seq<char> {
    match k {
        YamlKey::Str(s) => s@,
        YamlKey::Bool(b) => if b { "true"@ } else { "false"@ },
        YamlKey::Number(t) => t@,
        YamlKey::Null => "null"@,
        YamlKey::Other(t) => t@,
    }
}

/// The view of a YAML value.
pub enum YVal {
    Null,
    Bool(bool),
    Number(JsonNumber),
    Str(Seq<char>),
    Sequence(Seq<YVal>),
    Mapping(Seq<(Seq<char>, YVal)>),
    Tagged(Box<YVal>),
}

/// The view of a YAML value (keys taken by their text).
pub open spec fn yval(y: YamlNode) -> YVal
    decreases y,
{
    match y {
        YamlNode::Null => YVal::Null,
        YamlNode::Bool(b) => YVal::Bool(b),
        YamlNode::Number(n) => YVal::Number(n),
        YamlNode::String(s) => YVal::Str(s@),
        YamlNode::Sequence(vs) => {
            proof {
                assert(decreases_to!(y => vs));
                assert(decreases_to!(vs => vs@));
            }
            YVal::Sequence(yvals(vs@))
        },
        YamlNode::Mapping(es) => {
            proof {
                assert(decreases_to!(y => es));
                assert(decreases_to!(es => es@));
            }
            YVal::Mapping(yentries(es@))
        },
        YamlNode::Tagged(b) => YVal::Tagged(Box::new(yval(*b))),
    }
}

/// The views of a sequence of YAML values.
pub open spec fn yvals(vs: Seq<YamlNode>) -> Seq<YVal>
    decreases vs,
{
    if vs.len() == 0 {
        seq![]
    } else {
        proof {
            assert(decreases_to!(vs => vs[vs.len() - 1]));
        }
        yvals(vs.drop_last()).push(yval(vs[vs.len() - 1]))
    }
}

/// The views of the entries of a mapping.
pub open spec fn yentries(es: Seq<(YamlKey, YamlNode)>) -> Seq<(Seq<char>, YVal)>
    decreases es,
{
    if es.len() == 0 {
        seq![]
    } else {
        proof {
            assert(decreases_to!(es => es[es.len() - 1]));
            assert(decreases_to!(es[es.len() - 1] => es[es.len() - 1].1));
        }
        yentries(es.drop_last()).push((key_text(es[es.len() - 1].0), yval(es[es.len() - 1].1)))
    }
}

proof fn lemma_yvals(vs: Seq<YamlNode>)
    ensures
        yvals(vs).len() == vs.len(),
        forall|i: int| 0 <= i < vs.len() ==> #[trigger] yvals(vs)[i] == yval(vs[i]),
    decreases vs.len(),
{
    if vs.len() > 0 {
        lemma_yvals(vs.drop_last());
    }
}

proof fn lemma_yentries(es: Seq<(YamlKey, YamlNode)>)
    ensures
        yentries(es).len() == es.len(),
        forall|i: int| 0 <= i < es.len() ==> #[trigger] yentries(es)[i] == (key_text(es[i].0), yval(es[i].1)),
    decreases es.len(),
{
    if es.len() > 0 {
        lemma_yentries(es.drop_last());
    }
}

/// The value a YAML value reads as: a number is an integer when it is one,
/// else a float; a tag is looked through.
pub open spec fn yval_to_val(y: YVal) -> Val
    decreases y,
{
    match y {
        YVal::Null => Val::Null,
        YVal::Bool(b) => Val::Bool(b),
        YVal::Number(n) => match n.int {
            Some(i) => Val::Int(i),
            None => match n.float_bits {
                Some(b) => Val::Float(b),
                None => Val::Float(nan_bits()),
            },
        },
        YVal::Str(s) => Val::Str(s),
        YVal::Sequence(vs) => Val::Array(yvals_to_vals(vs)),
        YVal::Mapping(es) => Val::Object(object_of(ypairs(es))),
        YVal::Tagged(b) => yval_to_val(*b),
    }
}

/// The values of a sequence of YAML values.
pub open spec fn yvals_to_vals(vs: Seq<YVal>) -> Seq<Val>
    decreases vs,
{
    if vs.len() == 0 {
        seq![]
    } else {
        proof {
            assert(decreases_to!(vs => vs[vs.len() - 1]));
        }
        yvals_to_vals(vs.drop_last()).push(yval_to_val(vs[vs.len() - 1]))
    }
}

/// The (key, value) pairs of a mapping.
pub open spec fn ypairs(es: Seq<(Seq<char>, YVal)>) -> Seq<(Seq<char>, Val)>
    decreases es,
{
    if es.len() == 0 {
        seq![]
    } else {
        proof {
            assert(decreases_to!(es => es[es.len() - 1]));
            assert(decreases_to!(es[es.len() - 1] => es[es.len() - 1].1));
        }
        ypairs(es.drop_last()).push((es[es.len() - 1].0, yval_to_val(es[es.len() - 1].1)))
    }
}

/// The YAML value a value is written as.
pub open spec fn val_to_yval(v: Val) -> YVal
    decreases v,
{
    match v {
        Val::Null => YVal::Null,
        Val::Bool(b) => YVal::Bool(b),
        Val::Int(i) => YVal::Number(JsonNumber { int: Some(i), float_bits: None }),
        Val::Float(b) => YVal::Number(JsonNumber { int: None, float_bits: Some(b) }),
        Val::Str(s) => YVal::Str(s),
        Val::Array(a) => YVal::Sequence(vals_to_yvals(a)),
        Val::Object(es) => YVal::Mapping(ymembers(es)),
    }
}

/// The YAML values of a sequence of values.
pub open spec fn vals_to_yvals(a: Seq<Val>) -> Seq<YVal>
    decreases a,
{
    if a.len() == 0 {
        seq![]
    } else {
        proof {
            assert(decreases_to!(a => a[a.len() - 1]));
        }
        vals_to_yvals(a.drop_last()).push(val_to_yval(a[a.len() - 1]))
    }
}

/// The entries of the mapping an object is written as (string keys,
/// inserted in order).
pub open spec fn ymembers(es: Seq<(Seq<char>, Val)>) -> Seq<(Seq<char>, YVal)>
    decreases es,
{
    if es.len() == 0 {
        seq![]
    } else {
        proof {
            assert(decreases_to!(es => es[es.len() - 1]));
            assert(decreases_to!(es[es.len() - 1] => es[es.len() - 1].1));
        }
        put(ymembers(es.drop_last()), es[es.len() - 1].0, val_to_yval(es[es.len() - 1].1))
    }
}

/// The text a mapping key reads as.
pub fn yaml_key_to_string(key: &YamlKey) -> (r: String)
    ensures
        r@ == key_text(*key),
{
    match key {
        YamlKey::Str(s) => owned(s.as_str()),
        YamlKey::Bool(b) => if *b { owned("true") } else { owned("false") },
        YamlKey::Number(t) => owned(t.as_str()),
        YamlKey::Null => owned("null"),
        YamlKey::Other(t) => owned(t.as_str()),
    }
}

/// Read a YAML value as a value tree.
pub fn yaml_to_value(y: &YamlNode) -> (r: Value)
    ensures
        r@ == yval_to_val(yval(*y)),
    decreases y,
{
    match y {
        YamlNode::Null => Value::Null,
        YamlNode::Bool(b) => Value::Bool(*b),
        YamlNode::Number(n) => match n.int {
            Some(i) => Value::Int(i),
            None => match n.float_bits {
                Some(b) => Value::Float(b),
                None => Value::Float(0x7ff8_0000_0000_0000u64),
            },
        },
        YamlNode::String(s) => Value::String(owned(s.as_str())),
        YamlNode::Tagged(b) => yaml_to_value(b),
        YamlNode::Sequence(vs) => {
            let mut out: Vec<Value> = Vec::new();
            let mut i: usize = 0;
            proof {
                lemma_yvals(vs@);
            }
            while i < vs.len()
                invariant
                    i <= vs@.len(),
                    *y == YamlNode::Sequence(*vs),
                    out@.len() == i,
                    yvals(vs@).len() == vs@.len(),
                    forall|k: int| 0 <= k < vs@.len() ==> #[trigger] yvals(vs@)[k] == yval(vs@[k]),
                    items_view(out@) == yvals_to_vals(yvals(vs@).take(i as int)),
                decreases vs@.len() - i,
            {
                proof {
                    assert(decreases_to!(*y => y->Sequence_0));
                    assert(decreases_to!(y->Sequence_0 => y->Sequence_0@));
                    assert(decreases_to!(y->Sequence_0@ => y->Sequence_0@[i as int]));
                }
                let c = yaml_to_value(&vs[i]);
                let ghost before = out@;
                out.push(c);
                proof {
                    lemma_items_view(out@);
                    lemma_items_view(before);
                    let s = yvals(vs@);
                    assert(s.take(i + 1).drop_last() =~= s.take(i as int));
                    assert(items_view(out@) =~= items_view(before).push(c@));
                }
                i = i + 1;
            }
            proof {
                assert(yvals(vs@).take(vs@.len() as int) =~= yvals(vs@));
            }
            Value::Array(out)
        },
        YamlNode::Mapping(es) => {
            let mut map = ObjectMap::new();
            let mut i: usize = 0;
            proof {
                lemma_yentries(es@);
            }
            while i < es.len()
                invariant
                    i <= es@.len(),
                    *y == YamlNode::Mapping(*es),
                    yentries(es@).len() == es@.len(),
                    forall|k: int| 0 <= k < es@.len() ==> #[trigger] yentries(es@)[k] == (key_text(es@[k].0), yval(es@[k].1)),
                    map@ == object_of(ypairs(yentries(es@).take(i as int))),
                decreases es@.len() - i,
            {
                proof {
                    assert(decreases_to!(*y => y->Mapping_0));
                    assert(decreases_to!(y->Mapping_0 => y->Mapping_0@));
                    assert(decreases_to!(y->Mapping_0@ => y->Mapping_0@[i as int]));
                    assert(decreases_to!(y->Mapping_0@[i as int] => y->Mapping_0@[i as int].1));
                }
                let c = yaml_to_value(&es[i].1);
                let k = yaml_key_to_string(&es[i].0);
                super::toml::put_pair(&mut map, k, c);
                proof {
                    let te = yentries(es@);
                    assert(te.take(i + 1).drop_last() =~= te.take(i as int));
                    let ps = ypairs(te.take(i + 1));
                    assert(ps.drop_last() == ypairs(te.take(i as int)));
                }
                i = i + 1;
            }
            proof {
                assert(yentries(es@).take(es@.len() as int) =~= yentries(es@));
            }
            Value::Object(map)
        },
    }
}

/// Insert an entry with a string key into a mapping's entries.
fn put_entry(ms: &mut Vec<(YamlKey, YamlNode)>, k: &str, v: YamlNode)
    requires
        forall|j: int| 0 <= j < old(ms)@.len() ==> old(ms)@[j].0 is Str,
    ensures
        yentries(final(ms)@) == put(yentries(old(ms)@), k@, yval(v)),
        forall|j: int| 0 <= j < final(ms)@.len() ==> final(ms)@[j].0 is Str,
{
    proof {
        lemma_yentries(ms@);
    }
    let mut i: usize = 0;
    while i < ms.len()
        invariant
            i <= ms@.len(),
            ms@ == old(ms)@,
            forall|j: int| 0 <= j < ms@.len() ==> ms@[j].0 is Str,
            yentries(ms@).len() == ms@.len(),
            forall|j: int| 0 <= j < ms@.len() ==> #[trigger] yentries(ms@)[j] == (key_text(ms@[j].0), yval(ms@[j].1)),
            forall|j: int| 0 <= j < i ==> key_text(ms@[j].0) != k@,
        decreases ms@.len() - i,
    {
        let same = match &ms[i].0 {
            YamlKey::Str(s) => crate::text::str_eq(s.as_str(), k),
            _ => false,
        };
        if same {
            let ghost before = ms@;
            proof {
                assert(super::toml::first_at(yentries(before), k@, i as int));
                super::toml::lemma_first_at_unique(yentries(before), k@, i as int);
            }
            ms.set(i, (YamlKey::Str(owned(k)), v));
            proof {
                lemma_yentries(ms@);
                assert(yentries(ms@) =~= yentries(before).update(i as int, (k@, yval(v))));
            }
            return;
        }
        i = i + 1;
    }
    let ghost before = ms@;
    proof {
        super::toml::lemma_absent(yentries(before), k@);
    }
    ms.push((YamlKey::Str(owned(k)), v));
    proof {
        lemma_yentries(ms@);
        assert(yentries(ms@) =~= yentries(before).push((k@, yval(v))));
    }
}

/// Write a value tree as a YAML value (see [`val_to_yval`]); mapping keys
/// are strings.
pub fn value_to_yaml(value: &Value) -> (r: YamlNode)
    ensures
        yval(r) == val_to_yval(value@),
    decreases value@,
{
    match value {
        Value::Null => YamlNode::Null,
        Value::Bool(b) => YamlNode::Bool(*b),
        Value::Int(i) => YamlNode::Number(JsonNumber { int: Some(*i), float_bits: None }),
        Value::Float(b) => YamlNode::Number(JsonNumber { int: None, float_bits: Some(*b) }),
        Value::String(s) => YamlNode::String(owned(s.as_str())),
        Value::Array(arr) => {
            let ghost a = items_view(arr@);
            let mut out: Vec<YamlNode> = Vec::new();
            let mut i: usize = 0;
            proof {
                lemma_items_view(arr@);
                assert(a.take(0) =~= Seq::<Val>::empty());
                assert(yvals(out@) =~= Seq::<YVal>::empty());
            }
            while i < arr.len()
                invariant
                    i <= arr@.len(),
                    a == items_view(arr@),
                    a.len() == arr@.len(),
                    value@ == Val::Array(a),
                    forall|k: int| 0 <= k < arr@.len() ==> #[trigger] a[k] == arr@[k]@,
                    yvals(out@) == vals_to_yvals(a.take(i as int)),
                decreases arr@.len() - i,
            {
                proof {
                    assert(decreases_to!(value@ => value@->Array_0));
                    assert(decreases_to!(a => a[i as int]));
                    assert(a.take(i + 1).drop_last() =~= a.take(i as int));
                }
                let c = value_to_yaml(&arr[i]);
                let ghost before = out@;
                out.push(c);
                proof {
                    assert(out@.drop_last() =~= before);
                }
                i = i + 1;
            }
            proof {
                assert(a.take(a.len() as int) =~= a);
            }
            YamlNode::Sequence(out)
        },
        Value::Object(map) => {
            let ghost es = map@;
            let mut ms: Vec<(YamlKey, YamlNode)> = Vec::new();
            let mut i: usize = 0;
            proof {
                assert(es.take(0) =~= Seq::<(Seq<char>, Val)>::empty());
                assert(yentries(ms@) =~= Seq::<(Seq<char>, YVal)>::empty());
            }
            while i < map.len()
                invariant
                    i <= es.len(),
                    es == map@,
                    value@ == Val::Object(es),
                    forall|j: int| 0 <= j < ms@.len() ==> ms@[j].0 is Str,
                    yentries(ms@) == ymembers(es.take(i as int)),
                decreases es.len() - i,
            {
                proof {
                    assert(decreases_to!(value@ => value@->Object_0));
                    assert(decreases_to!(es => es[i as int]));
                    assert(es.take(i + 1).drop_last() =~= es.take(i as int));
                }
                let c = value_to_yaml(map.value_at(i));
                put_entry(&mut ms, map.key_at(i).as_str(), c);
                i = i + 1;
            }
            proof {
                assert(es.take(es.len() as int) =~= es);
            }
            YamlNode::Mapping(ms)
        },
    }
}

// ── laws ────────────────────────────────────────────────────────────

/// A YAML number that reads as an integer becomes that integer, whatever
/// its float reading; one that does not becomes its float (NaN when it has
/// no float reading either). A tag does not change what a value reads as.
pub proof fn law_yaml_numbers(n: JsonNumber, inner: YVal)
    ensures
        n.int matches Some(i) ==> yval_to_val(YVal::Number(n)) == Val::Int(i),
        n.int is None ==> (n.float_bits matches Some(b) ==> yval_to_val(YVal::Number(n)) == Val::Float(b)),
        n.int is None && n.float_bits is None ==> yval_to_val(YVal::Number(n)) == Val::Float(0x7ff8_0000_0000_0000u64),
        yval_to_val(YVal::Tagged(Box::new(inner))) == yval_to_val(inner),
{
}

} // verus!
