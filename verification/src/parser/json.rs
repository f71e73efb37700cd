//! JSON documents as the editor sees them, and the conversions between them
//! and value trees. Reading and writing JSON text is done on [`JsonNode`]s
//! outside the library.

use vstd::prelude::*;

use super::toml::{object_of, put};
use crate::text::owned;
use crate::tree::value::{items_view, lemma_items_view, ObjectMap, Val, Value};

verus! {

broadcast use crate::tree::value::group_value_view;

/// A JSON number, as the readings that JSON parsers offer: as a signed
/// 64-bit integer (when it is one) and as a float (by its IEEE-754 bits).
#[derive(Debug, Clone, Copy, PartialEq, Eq, Structural)]
pub struct JsonNumber {
    pub int: Option<i64>,
    pub float_bits: Option<u64>,
}

/// A JSON value.
#[derive(Debug)]
pub enum JsonNode {
    Null,
    Bool(bool),
    Number(JsonNumber),
    String(String),
    Array(Vec<JsonNode>),
    Object(Vec<(String, JsonNode)>),
}

/// The view of a JSON value.
pub enum JVal {
    Null,
    Bool(bool),
    Number(JsonNumber),
    Str(Seq<char>),
    Array(Seq<JVal>),
    Object(Seq<(Seq<char>, JVal)>),
}

/// The view of a JSON value.
pub open spec fn jval(j: JsonNode) -> JVal
    decreases j,
{
    match j {
        JsonNode::Null => JVal::Null,
        JsonNode::Bool(b) => JVal::Bool(b),
        JsonNode::Number(n) => JVal::Number(n),
        JsonNode::String(s) => JVal::Str(s@),
        JsonNode::Array(vs) => {
            proof {
                assert(decreases_to!(j => vs));
                assert(decreases_to!(vs => vs@));
            }
            JVal::Array(jvals(vs@))
        },
        JsonNode::Object(es) => {
            proof {
                assert(decreases_to!(j => es));
                assert(decreases_to!(es => es@));
            }
            JVal::Object(jentries(es@))
        },
    }
}

/// The views of a sequence of JSON values.
pub open spec fn jvals(vs: Seq<JsonNode>) -> Seq<JVal>
    decreases vs,
{
    if vs.len() == 0 {
        seq![]
    } else {
        proof {
            assert(decreases_to!(vs => vs[vs.len() - 1]));
        }
        jvals(vs.drop_last()).push(jval(vs[vs.len() - 1]))
    }
}

/// The views of the members of a JSON object.
pub open spec fn jentries(es: Seq<(String, JsonNode)>) -> Seq<(Seq<char>, JVal)>
    decreases es,
{
    if es.len() == 0 {
        seq![]
    } else {
        proof {
            assert(decreases_to!(es => es[es.len() - 1]));
            assert(decreases_to!(es[es.len() - 1] => es[es.len() - 1].1));
        }
        jentries(es.drop_last()).push((es[es.len() - 1].0@, jval(es[es.len() - 1].1)))
    }
}

proof fn lemma_jvals(vs: Seq<JsonNode>)
    ensures
        jvals(vs).len() == vs.len(),
        forall|i: int| 0 <= i < vs.len() ==> #[trigger] jvals(vs)[i] == jval(vs[i]),
    decreases vs.len(),
{
    if vs.len() > 0 {
        lemma_jvals(vs.drop_last());
    }
}

proof fn lemma_jentries(es: Seq<(String, JsonNode)>)
    ensures
        jentries(es).len() == es.len(),
        forall|i: int| 0 <= i < es.len() ==> #[trigger] jentries(es)[i] == (es[i].0@, jval(es[i].1)),
    decreases es.len(),
{
    if es.len() > 0 {
        lemma_jentries(es.drop_last());
    }
}

/// The bits of the quiet NaN that std names `f64::NAN`.
pub open spec fn nan_bits() -> u64 {
    0x7ff8_0000_0000_0000u64
}

/// The value a JSON number reads as: an integer when it is one, else a float.
pub open spec fn number_to_val(n: JsonNumber) -> Val {
    match n.int {
        Some(i) => Val::Int(i),
        None => match n.float_bits {
            Some(b) => Val::Float(b),
            None => Val::Float(nan_bits()),
        },
    }
}

/// The value a JSON value reads as.
pub open spec fn jval_to_val(j: JVal) -> Val
    decreases j,
{
    match j {
        JVal::Null => Val::Null,
        JVal::Bool(b) => Val::Bool(b),
        JVal::Number(n) => number_to_val(n),
        JVal::Str(s) => Val::Str(s),
        JVal::Array(vs) => Val::Array(jvals_to_vals(vs)),
        JVal::Object(es) => Val::Object(object_of(jpairs(es))),
    }
}

/// The values of a sequence of JSON values.
pub open spec fn jvals_to_vals(vs: Seq<JVal>) -> Seq<Val>
    decreases vs,
{
    if vs.len() == 0 {
        seq![]
    } else {
        proof {
            assert(decreases_to!(vs => vs[vs.len() - 1]));
        }
        jvals_to_vals(vs.drop_last()).push(jval_to_val(vs[vs.len() - 1]))
    }
}

/// The (key, value) pairs of a JSON object.
pub open spec fn jpairs(es: Seq<(Seq<char>, JVal)>) -> Seq<(Seq<char>, Val)>
    decreases es,
{
    if es.len() == 0 {
        seq![]
    } else {
        proof {
            assert(decreases_to!(es => es[es.len() - 1]));
            assert(decreases_to!(es[es.len() - 1] => es[es.len() - 1].1));
        }
        jpairs(es.drop_last()).push((es[es.len() - 1].0, jval_to_val(es[es.len() - 1].1)))
    }
}

/// Is the float with these bits finite?
pub open spec fn bits_finite(b: u64) -> bool {
    (b >> 52u64) & 0x7ffu64 != 0x7ffu64
}

/// The JSON value a value is written as: a float that JSON cannot hold
/// (NaN, infinite) is written as 0.
pub open spec fn val_to_jval(v: Val) -> JVal
    decreases v,
{
    match v {
        Val::Null => JVal::Null,
        Val::Bool(b) => JVal::Bool(b),
        Val::Int(i) => JVal::Number(JsonNumber { int: Some(i), float_bits: None }),
        Val::Float(b) => JVal::Number(
            JsonNumber { int: None, float_bits: Some(if bits_finite(b) { b } else { 0 }) },
        ),
        Val::Str(s) => JVal::Str(s),
        Val::Array(a) => JVal::Array(vals_to_jvals(a)),
        Val::Object(es) => JVal::Object(jmembers(es)),
    }
}

/// The JSON values of a sequence of values.
pub open spec fn vals_to_jvals(a: Seq<Val>) -> Seq<JVal>
    decreases a,
{
    if a.len() == 0 {
        seq![]
    } else {
        proof {
            assert(decreases_to!(a => a[a.len() - 1]));
        }
        vals_to_jvals(a.drop_last()).push(val_to_jval(a[a.len() - 1]))
    }
}

/// The members of the JSON object an object is written as (inserted in order).
pub open spec fn jmembers(es: Seq<(Seq<char>, Val)>) -> Seq<(Seq<char>, JVal)>
    decreases es,
{
    if es.len() == 0 {
        seq![]
    } else {
        proof {
            assert(decreases_to!(es => es[es.len() - 1]));
            assert(decreases_to!(es[es.len() - 1] => es[es.len() - 1].1));
        }
        put(jmembers(es.drop_last()), es[es.len() - 1].0, val_to_jval(es[es.len() - 1].1))
    }
}

/// Read a JSON value as a value tree.
pub fn json_to_value(j: &JsonNode) -> (r: Value)
    ensures
        r@ == jval_to_val(jval(*j)),
    decreases j,
{
    match j {
        JsonNode::Null => Value::Null,
        JsonNode::Bool(b) => Value::Bool(*b),
        JsonNode::Number(n) => match n.int {
            Some(i) => Value::Int(i),
            None => match n.float_bits {
                Some(b) => Value::Float(b),
                None => Value::Float(0x7ff8_0000_0000_0000u64),
            },
        },
        JsonNode::String(s) => Value::String(owned(s.as_str())),
        JsonNode::Array(vs) => {
            let mut out: Vec<Value> = Vec::new();
            let mut i: usize = 0;
            proof {
                lemma_jvals(vs@);
            }
            while i < vs.len()
                invariant
                    i <= vs@.len(),
                    *j == JsonNode::Array(*vs),
                    out@.len() == i,
                    jvals(vs@).len() == vs@.len(),
                    forall|k: int| 0 <= k < vs@.len() ==> #[trigger] jvals(vs@)[k] == jval(vs@[k]),
                    items_view(out@) == jvals_to_vals(jvals(vs@).take(i as int)),
                decreases vs@.len() - i,
            {
                proof {
                    assert(decreases_to!(*j => j->Array_0));
                    assert(decreases_to!(j->Array_0 => j->Array_0@));
                    assert(decreases_to!(j->Array_0@ => j->Array_0@[i as int]));
                }
                let c = json_to_value(&vs[i]);
                let ghost before = out@;
                out.push(c);
                proof {
                    lemma_items_view(out@);
                    lemma_items_view(before);
                    let s = jvals(vs@);
                    assert(s.take(i + 1).drop_last() =~= s.take(i as int));
                    assert(items_view(out@) =~= items_view(before).push(c@));
                }
                i = i + 1;
            }
            proof {
                assert(jvals(vs@).take(vs@.len() as int) =~= jvals(vs@));
            }
            Value::Array(out)
        },
        JsonNode::Object(es) => {
            let mut map = ObjectMap::new();
            let mut i: usize = 0;
            proof {
                lemma_jentries(es@);
            }
            while i < es.len()
                invariant
                    i <= es@.len(),
                    *j == JsonNode::Object(*es),
                    jentries(es@).len() == es@.len(),
                    forall|k: int| 0 <= k < es@.len() ==> #[trigger] jentries(es@)[k] == (es@[k].0@, jval(es@[k].1)),
                    map@ == object_of(jpairs(jentries(es@).take(i as int))),
                decreases es@.len() - i,
            {
                proof {
                    assert(decreases_to!(*j => j->Object_0));
                    assert(decreases_to!(j->Object_0 => j->Object_0@));
                    assert(decreases_to!(j->Object_0@ => j->Object_0@[i as int]));
                    assert(decreases_to!(j->Object_0@[i as int] => j->Object_0@[i as int].1));
                }
                let c = json_to_value(&es[i].1);
                super::toml::put_pair(&mut map, owned(es[i].0.as_str()), c);
                proof {
                    let te = jentries(es@);
                    assert(te.take(i + 1).drop_last() =~= te.take(i as int));
                    let ps = jpairs(te.take(i + 1));
                    assert(ps.drop_last() == jpairs(te.take(i as int)));
                }
                i = i + 1;
            }
            proof {
                assert(jentries(es@).take(es@.len() as int) =~= jentries(es@));
            }
            Value::Object(map)
        },
    }
}

/// Insert a member into a JSON object's members.
fn put_member(ms: &mut Vec<(String, JsonNode)>, k: &str, v: JsonNode)
    ensures
        jentries(final(ms)@) == put(jentries(old(ms)@), k@, jval(v)),
{
    proof {
        lemma_jentries(ms@);
    }
    let mut i: usize = 0;
    while i < ms.len()
        invariant
            i <= ms@.len(),
            ms@ == old(ms)@,
            jentries(ms@).len() == ms@.len(),
            forall|j: int| 0 <= j < ms@.len() ==> #[trigger] jentries(ms@)[j] == (ms@[j].0@, jval(ms@[j].1)),
            forall|j: int| 0 <= j < i ==> ms@[j].0@ != k@,
        decreases ms@.len() - i,
    {
        if crate::text::str_eq(ms[i].0.as_str(), k) {
            let ghost before = ms@;
            proof {
                assert(super::toml::first_at(jentries(before), k@, i as int));
                super::toml::lemma_first_at_unique(jentries(before), k@, i as int);
            }
            ms.set(i, (owned(k), v));
            proof {
                lemma_jentries(ms@);
                assert(jentries(ms@) =~= jentries(before).update(i as int, (k@, jval(v))));
            }
            return;
        }
        i = i + 1;
    }
    let ghost before = ms@;
    proof {
        super::toml::lemma_absent(jentries(before), k@);
    }
    ms.push((owned(k), v));
    proof {
        lemma_jentries(ms@);
        assert(jentries(ms@) =~= jentries(before).push((k@, jval(v))));
    }
}

/// Write a value tree as a JSON value (see [`val_to_jval`]).
pub fn value_to_json(value: &Value) -> (r: JsonNode)
    ensures
        jval(r) == val_to_jval(value@),
    decreases value@,
{
    match value {
        Value::Null => JsonNode::Null,
        Value::Bool(b) => JsonNode::Bool(*b),
        Value::Int(i) => JsonNode::Number(JsonNumber { int: Some(*i), float_bits: None }),
        Value::Float(b) => {
            let finite = (*b >> 52u64) & 0x7ffu64 != 0x7ffu64;
            JsonNode::Number(JsonNumber { int: None, float_bits: Some(if finite { *b } else { 0 }) })
        },
        Value::String(s) => JsonNode::String(owned(s.as_str())),
        Value::Array(arr) => {
            let ghost a = items_view(arr@);
            let mut out: Vec<JsonNode> = Vec::new();
            let mut i: usize = 0;
            proof {
                lemma_items_view(arr@);
                assert(a.take(0) =~= Seq::<Val>::empty());
                assert(jvals(out@) =~= Seq::<JVal>::empty());
            }
            while i < arr.len()
                invariant
                    i <= arr@.len(),
                    a == items_view(arr@),
                    a.len() == arr@.len(),
                    value@ == Val::Array(a),
                    forall|k: int| 0 <= k < arr@.len() ==> #[trigger] a[k] == arr@[k]@,
                    jvals(out@) == vals_to_jvals(a.take(i as int)),
                decreases arr@.len() - i,
            {
                proof {
                    assert(decreases_to!(value@ => value@->Array_0));
                    assert(decreases_to!(a => a[i as int]));
                    assert(a.take(i + 1).drop_last() =~= a.take(i as int));
                }
                let c = value_to_json(&arr[i]);
                let ghost before = out@;
                out.push(c);
                proof {
                    assert(out@.drop_last() =~= before);
                }
                i = i + 1;
            }
            proof {
                assert(a.take(a.len() as int) =~= a);
            }
            JsonNode::Array(out)
        },
        Value::Object(map) => {
            let ghost es = map@;
            let mut ms: Vec<(String, JsonNode)> = Vec::new();
            let mut i: usize = 0;
            proof {
                assert(es.take(0) =~= Seq::<(Seq<char>, Val)>::empty());
                assert(jentries(ms@) =~= Seq::<(Seq<char>, JVal)>::empty());
            }
            while i < map.len()
                invariant
                    i <= es.len(),
                    es == map@,
                    value@ == Val::Object(es),
                    jentries(ms@) == jmembers(es.take(i as int)),
                decreases es.len() - i,
            {
                proof {
                    assert(decreases_to!(value@ => value@->Object_0));
                    assert(decreases_to!(es => es[i as int]));
                    assert(es.take(i + 1).drop_last() =~= es.take(i as int));
                }
                let c = value_to_json(map.value_at(i));
                put_member(&mut ms, map.key_at(i).as_str(), c);
                i = i + 1;
            }
            proof {
                assert(es.take(es.len() as int) =~= es);
            }
            JsonNode::Object(ms)
        },
    }
}

// ── laws ────────────────────────────────────────────────────────────

/// A JSON number that reads as an integer becomes that integer, whatever
/// its float reading; one that does not becomes its float (NaN when it has
/// no float reading either).
pub proof fn law_json_numbers(n: JsonNumber)
    ensures
        n.int matches Some(i) ==> jval_to_val(JVal::Number(n)) == Val::Int(i),
        n.int is None ==> (n.float_bits matches Some(b) ==> jval_to_val(JVal::Number(n)) == Val::Float(b)),
        n.int is None && n.float_bits is None ==> jval_to_val(JVal::Number(n)) == Val::Float(0x7ff8_0000_0000_0000u64),
{
}

} // verus!
