//! TOML documents as the editor sees them, and the conversions between them
//! and value trees.
//!
//! [`TomlItem`] and [`TomlValue`] mirror the items of a TOML document (plain
//! and array values, tables, arrays of tables); reading and writing TOML text
//! is done on them outside the library. Converting a value tree into items
//! decides the layout of the written file: which objects become `[tables]`,
//! which become `{ inline tables }`, which arrays become `[[arrays of
//! tables]]`, and what TOML cannot hold (null).

use vstd::prelude::*;

use crate::text::owned;
use crate::tree::model::is_leaf_of;
use crate::tree::value::{
    items_view, key_index, lemma_items_view, ObjectMap, Val, Value,
};

verus! {

broadcast use crate::tree::value::group_value_view;

/// A TOML value (what can stand on the right of `=`).
#[derive(Debug)]
pub enum TomlValue {
    String(String),
    Integer(i64),
    /// A float, by its IEEE-754 bits.
    Float(u64),
    Boolean(bool),
    /// A date-time, by its TOML text.
    Datetime(String),
    Array(Vec<TomlValue>),
    InlineTable(Vec<(String, TomlValue)>),
}

/// A TOML item: nothing, a value, a table, or an array of tables.
#[derive(Debug)]
pub enum TomlItem {
    Absent,
    Value(TomlValue),
    Table(Vec<(String, TomlItem)>),
    ArrayOfTables(Vec<Vec<(String, TomlItem)>>),
}

/// The view of a TOML value.
pub enum TVal {
    Str(Seq<char>),
    Int(i64),
    Float(u64),
    Bool(bool),
    Datetime(Seq<char>),
    Array(Seq<TVal>),
    Inline(Seq<(Seq<char>, TVal)>),
}

/// The view of a TOML item.
pub enum TItem {
    Absent,
    Value(TVal),
    Table(Seq<(Seq<char>, TItem)>),
    Tables(Seq<Seq<(Seq<char>, TItem)>>),
}

/// The view of a TOML value.
pub open spec fn tval(v: TomlValue) -> TVal
    decreases v,
{
    match v {
        TomlValue::String(s) => TVal::Str(s@),
        TomlValue::Integer(i) => TVal::Int(i),
        TomlValue::Float(b) => TVal::Float(b),
        TomlValue::Boolean(b) => TVal::Bool(b),
        TomlValue::Datetime(s) => TVal::Datetime(s@),
        TomlValue::Array(vs) => {
            proof {
                assert(decreases_to!(v => vs));
                assert(decreases_to!(vs => vs@));
            }
            TVal::Array(tvals(vs@))
        },
        TomlValue::InlineTable(es) => {
            proof {
                assert(decreases_to!(v => es));
                assert(decreases_to!(es => es@));
            }
            TVal::Inline(tval_entries(es@))
        },
    }
}

/// The views of a sequence of TOML values.
pub open spec fn tvals(vs: Seq<TomlValue>) -> Seq<TVal>
    decreases vs,
{
    if vs.len() == 0 {
        seq![]
    } else {
        proof {
            assert(decreases_to!(vs => vs.drop_last()));
            assert(decreases_to!(vs => vs[vs.len() - 1]));
        }
        tvals(vs.drop_last()).push(tval(vs[vs.len() - 1]))
    }
}

/// The views of the entries of an inline table.
pub open spec fn tval_entries(es: Seq<(String, TomlValue)>) -> Seq<(Seq<char>, TVal)>
    decreases es,
{
    if es.len() == 0 {
        seq![]
    } else {
        proof {
            assert(decreases_to!(es => es.drop_last()));
            assert(decreases_to!(es => es[es.len() - 1]));
            assert(decreases_to!(es[es.len() - 1] => es[es.len() - 1].1));
        }
        tval_entries(es.drop_last()).push((es[es.len() - 1].0@, tval(es[es.len() - 1].1)))
    }
}

/// The view of a TOML item.
pub open spec fn titem(it: TomlItem) -> TItem
    decreases it,
{
    match it {
        TomlItem::Absent => TItem::Absent,
        TomlItem::Value(v) => TItem::Value(tval(v)),
        TomlItem::Table(es) => {
            proof {
                assert(decreases_to!(it => es));
                assert(decreases_to!(es => es@));
            }
            TItem::Table(table_view(es@))
        },
        TomlItem::ArrayOfTables(ts) => {
            proof {
                assert(decreases_to!(it => ts));
                assert(decreases_to!(ts => ts@));
            }
            TItem::Tables(tables_view(ts@))
        },
    }
}

/// The view of a table's entries.
pub open spec fn table_view(es: Seq<(String, TomlItem)>) -> Seq<(Seq<char>, TItem)>
    decreases es,
{
    if es.len() == 0 {
        seq![]
    } else {
        proof {
            assert(decreases_to!(es => es.drop_last()));
            assert(decreases_to!(es => es[es.len() - 1]));
            assert(decreases_to!(es[es.len() - 1] => es[es.len() - 1].1));
        }
        table_view(es.drop_last()).push((es[es.len() - 1].0@, titem(es[es.len() - 1].1)))
    }
}

/// The views of the tables of an array of tables.
pub open spec fn tables_view(ts: Seq<Vec<(String, TomlItem)>>) -> Seq<Seq<(Seq<char>, TItem)>>
    decreases ts,
{
    if ts.len() == 0 {
        seq![]
    } else {
        proof {
            assert(decreases_to!(ts => ts.drop_last()));
            assert(decreases_to!(ts => ts[ts.len() - 1]));
            assert(decreases_to!(ts[ts.len() - 1] => ts[ts.len() - 1]@));
        }
        tables_view(ts.drop_last()).push(table_view(ts[ts.len() - 1]@))
    }
}

pub(crate) proof fn lemma_tvals(vs: Seq<TomlValue>)
    ensures
        tvals(vs).len() == vs.len(),
        forall|i: int| 0 <= i < vs.len() ==> #[trigger] tvals(vs)[i] == tval(vs[i]),
    decreases vs.len(),
{
    if vs.len() > 0 {
        lemma_tvals(vs.drop_last());
    }
}

pub(crate) proof fn lemma_tval_entries(es: Seq<(String, TomlValue)>)
    ensures
        tval_entries(es).len() == es.len(),
        forall|i: int| 0 <= i < es.len() ==> #[trigger] tval_entries(es)[i] == (es[i].0@, tval(es[i].1)),
    decreases es.len(),
{
    if es.len() > 0 {
        lemma_tval_entries(es.drop_last());
    }
}

pub(crate) proof fn lemma_table_view(es: Seq<(String, TomlItem)>)
    ensures
        table_view(es).len() == es.len(),
        forall|i: int| 0 <= i < es.len() ==> #[trigger] table_view(es)[i] == (es[i].0@, titem(es[i].1)),
    decreases es.len(),
{
    if es.len() > 0 {
        lemma_table_view(es.drop_last());
    }
}

pub(crate) proof fn lemma_tables_view(ts: Seq<Vec<(String, TomlItem)>>)
    ensures
        tables_view(ts).len() == ts.len(),
        forall|i: int| 0 <= i < ts.len() ==> #[trigger] tables_view(ts)[i] == table_view(ts[i]@),
    decreases ts.len(),
{
    if ts.len() > 0 {
        lemma_tables_view(ts.drop_last());
    }
}


// ── keyed entries ───────────────────────────────────────────────────

/// `i` is the first position of key `k`.
pub open spec fn first_at<V>(es: Seq<(Seq<char>, V)>, k: Seq<char>, i: int) -> bool {
    0 <= i < es.len() && es[i].0 == k && forall|j: int| 0 <= j < i ==> es[j].0 != k
}

/// The first position of key `k` among the entries, if present.
pub open spec fn pos_of<V>(es: Seq<(Seq<char>, V)>, k: Seq<char>) -> Option<int> {
    if exists|i: int| first_at(es, k, i) {
        Some(choose|i: int| first_at(es, k, i))
    } else {
        None
    }
}

/// The entries after inserting `(k, v)` the way an insertion-ordered map
/// does: an existing key keeps its place and takes the new value, a new key
/// goes last.
pub open spec fn put<V>(es: Seq<(Seq<char>, V)>, k: Seq<char>, v: V) -> Seq<(Seq<char>, V)> {
    match pos_of(es, k) {
        Some(i) => es.update(i, (k, v)),
        None => es.push((k, v)),
    }
}

pub(crate) proof fn lemma_first_at_unique<V>(es: Seq<(Seq<char>, V)>, k: Seq<char>, i: int)
    requires
        first_at(es, k, i),
    ensures
        pos_of(es, k) == Some(i),
{
    let c = choose|j: int| first_at(es, k, j);
    assert(first_at(es, k, c));
    if c < i {
        assert(es[c].0 != k);
    }
    if i < c {
        assert(es[i].0 != k);
    }
}

pub(crate) proof fn lemma_absent<V>(es: Seq<(Seq<char>, V)>, k: Seq<char>)
    requires
        forall|j: int| 0 <= j < es.len() ==> es[j].0 != k,
    ensures
        pos_of(es, k) is None,
{
    if exists|i: int| first_at(es, k, i) {
        let c = choose|i: int| first_at(es, k, i);
        assert(es[c].0 != k);
    }
}

/// Insert into an inline table.
fn put_value(tbl: &mut Vec<(String, TomlValue)>, k: &str, v: TomlValue)
    ensures
        tval_entries(final(tbl)@) == put(tval_entries(old(tbl)@), k@, tval(v)),
{
    proof {
        lemma_tval_entries(tbl@);
    }
    let mut i: usize = 0;
    while i < tbl.len()
        invariant
            i <= tbl@.len(),
            tbl@ == old(tbl)@,
            tval_entries(tbl@).len() == tbl@.len(),
            forall|j: int| 0 <= j < tbl@.len() ==> #[trigger] tval_entries(tbl@)[j] == (tbl@[j].0@, tval(tbl@[j].1)),
            forall|j: int| 0 <= j < i ==> tbl@[j].0@ != k@,
        decreases tbl@.len() - i,
    {
        if crate::text::str_eq(tbl[i].0.as_str(), k) {
            let ghost before = tbl@;
            proof {
                assert(first_at(tval_entries(before), k@, i as int));
                lemma_first_at_unique(tval_entries(before), k@, i as int);
            }
            let key = owned(k);
            tbl.set(i, (key, v));
            proof {
                lemma_tval_entries(tbl@);
                assert(tval_entries(tbl@) =~= tval_entries(before).update(i as int, (k@, tval(v))));
            }
            return;
        }
        i = i + 1;
    }
    let ghost before = tbl@;
    proof {
        lemma_absent(tval_entries(before), k@);
    }
    tbl.push((owned(k), v));
    proof {
        lemma_tval_entries(tbl@);
        assert(tval_entries(tbl@) =~= tval_entries(before).push((k@, tval(v))));
    }
}

/// Insert into a table.
fn put_item(tbl: &mut Vec<(String, TomlItem)>, k: &str, v: TomlItem)
    ensures
        table_view(final(tbl)@) == put(table_view(old(tbl)@), k@, titem(v)),
{
    proof {
        lemma_table_view(tbl@);
    }
    let mut i: usize = 0;
    while i < tbl.len()
        invariant
            i <= tbl@.len(),
            tbl@ == old(tbl)@,
            table_view(tbl@).len() == tbl@.len(),
            forall|j: int| 0 <= j < tbl@.len() ==> #[trigger] table_view(tbl@)[j] == (tbl@[j].0@, titem(tbl@[j].1)),
            forall|j: int| 0 <= j < i ==> tbl@[j].0@ != k@,
        decreases tbl@.len() - i,
    {
        if crate::text::str_eq(tbl[i].0.as_str(), k) {
            let ghost before = tbl@;
            proof {
                assert(first_at(table_view(before), k@, i as int));
                lemma_first_at_unique(table_view(before), k@, i as int);
            }
            let key = owned(k);
            tbl.set(i, (key, v));
            proof {
                lemma_table_view(tbl@);
                assert(table_view(tbl@) =~= table_view(before).update(i as int, (k@, titem(v))));
            }
            return;
        }
        i = i + 1;
    }
    let ghost before = tbl@;
    proof {
        lemma_absent(table_view(before), k@);
    }
    tbl.push((owned(k), v));
    proof {
        lemma_table_view(tbl@);
        assert(table_view(tbl@) =~= table_view(before).push((k@, titem(v))));
    }
}


// ── reading ─────────────────────────────────────────────────────────

/// The object made by inserting the pairs in order into an empty map.
pub open spec fn object_of(ps: Seq<(Seq<char>, Val)>) -> Seq<(Seq<char>, Val)>
    decreases ps.len(),
{
    if ps.len() == 0 {
        seq![]
    } else {
        put(object_of(ps.drop_last()), ps.last().0, ps.last().1)
    }
}

/// The value a TOML value reads as (a date-time reads as its text).
pub open spec fn tval_to_val(t: TVal) -> Val
    decreases t,
{
    match t {
        TVal::Str(s) => Val::Str(s),
        TVal::Int(i) => Val::Int(i),
        TVal::Float(b) => Val::Float(b),
        TVal::Bool(b) => Val::Bool(b),
        TVal::Datetime(s) => Val::Str(s),
        TVal::Array(vs) => Val::Array(tvals_to_vals(vs)),
        TVal::Inline(es) => Val::Object(object_of(tentries_to_pairs(es))),
    }
}

/// The values of a sequence of TOML values.
pub open spec fn tvals_to_vals(vs: Seq<TVal>) -> Seq<Val>
    decreases vs,
{
    if vs.len() == 0 {
        seq![]
    } else {
        proof {
            assert(decreases_to!(vs => vs[vs.len() - 1]));
        }
        tvals_to_vals(vs.drop_last()).push(tval_to_val(vs[vs.len() - 1]))
    }
}

/// The (key, value) pairs of an inline table.
pub open spec fn tentries_to_pairs(es: Seq<(Seq<char>, TVal)>) -> Seq<(Seq<char>, Val)>
    decreases es,
{
    if es.len() == 0 {
        seq![]
    } else {
        proof {
            assert(decreases_to!(es => es[es.len() - 1]));
            assert(decreases_to!(es[es.len() - 1] => es[es.len() - 1].1));
        }
        tentries_to_pairs(es.drop_last()).push((es[es.len() - 1].0, tval_to_val(es[es.len() - 1].1)))
    }
}

/// The value a TOML item reads as (a missing item reads as null).
pub open spec fn titem_to_val(it: TItem) -> Val
    decreases it,
{
    match it {
        TItem::Absent => Val::Null,
        TItem::Value(v) => tval_to_val(v),
        TItem::Table(es) => Val::Object(object_of(titems_to_pairs(es))),
        TItem::Tables(ts) => Val::Array(tables_to_vals(ts)),
    }
}

/// The (key, value) pairs of a table.
pub open spec fn titems_to_pairs(es: Seq<(Seq<char>, TItem)>) -> Seq<(Seq<char>, Val)>
    decreases es,
{
    if es.len() == 0 {
        seq![]
    } else {
        proof {
            assert(decreases_to!(es => es[es.len() - 1]));
            assert(decreases_to!(es[es.len() - 1] => es[es.len() - 1].1));
        }
        titems_to_pairs(es.drop_last()).push((es[es.len() - 1].0, titem_to_val(es[es.len() - 1].1)))
    }
}

/// The objects of an array of tables.
pub open spec fn tables_to_vals(ts: Seq<Seq<(Seq<char>, TItem)>>) -> Seq<Val>
    decreases ts,
{
    if ts.len() == 0 {
        seq![]
    } else {
        proof {
            assert(decreases_to!(ts => ts[ts.len() - 1]));
        }
        tables_to_vals(ts.drop_last()).push(Val::Object(object_of(titems_to_pairs(ts[ts.len() - 1]))))
    }
}

proof fn lemma_put_is_insert(es: Seq<(Seq<char>, Val)>, k: Seq<char>)
    ensures
        key_index(es, k) == pos_of(es, k),
{
    crate::tree::value::lemma_key_index(es, k);
    match key_index(es, k) {
        Some(i) => {
            assert(first_at(es, k, i));
            lemma_first_at_unique(es, k, i);
        },
        None => {
            lemma_absent(es, k);
        },
    }
}

/// Insert a pair into an object map, as `object_of` does.
pub(crate) fn put_pair(map: &mut ObjectMap, k: String, v: Value)
    ensures
        final(map)@ == put(old(map)@, k@, v@),
{
    proof {
        lemma_put_is_insert(map@, k@);
    }
    let _ = map.insert(k, v);
}

/// Read a TOML value as a value tree.
pub fn toml_value_to_value(tv: &TomlValue) -> (r: Value)
    ensures
        r@ == tval_to_val(tval(*tv)),
    decreases tv,
{
    match tv {
        TomlValue::String(s) => Value::String(owned(s.as_str())),
        TomlValue::Integer(i) => Value::Int(*i),
        TomlValue::Float(b) => Value::Float(*b),
        TomlValue::Boolean(b) => Value::Bool(*b),
        TomlValue::Datetime(s) => Value::String(owned(s.as_str())),
        TomlValue::Array(vs) => {
            let mut out: Vec<Value> = Vec::new();
            let mut i: usize = 0;
            proof {
                lemma_tvals(vs@);
            }
            while i < vs.len()
                invariant
                    i <= vs@.len(),
                    *tv == TomlValue::Array(*vs),
                    out@.len() == i,
                    tvals(vs@).len() == vs@.len(),
                    forall|j: int| 0 <= j < vs@.len() ==> #[trigger] tvals(vs@)[j] == tval(vs@[j]),
                    items_view(out@) == tvals_to_vals(tvals(vs@).take(i as int)),
                decreases vs@.len() - i,
            {
                proof {
                    assert(decreases_to!(*tv => tv->Array_0));
                    assert(decreases_to!(tv->Array_0 => tv->Array_0@));
                    assert(decreases_to!(tv->Array_0@ => tv->Array_0@[i as int]));
                }
                let c = toml_value_to_value(&vs[i]);
                let ghost before = out@;
                out.push(c);
                proof {
                    lemma_items_view(out@);
                    lemma_items_view(before);
                    let tv_s = tvals(vs@);
                    assert(tv_s.take(i + 1).drop_last() =~= tv_s.take(i as int));
                    assert(items_view(out@) =~= items_view(before).push(c@));
                }
                i = i + 1;
            }
            proof {
                assert(tvals(vs@).take(vs@.len() as int) =~= tvals(vs@));
            }
            Value::Array(out)
        },
        TomlValue::InlineTable(es) => {
            let mut map = ObjectMap::new();
            let mut i: usize = 0;
            proof {
                lemma_tval_entries(es@);
            }
            while i < es.len()
                invariant
                    i <= es@.len(),
                    *tv == TomlValue::InlineTable(*es),
                    tval_entries(es@).len() == es@.len(),
                    forall|j: int| 0 <= j < es@.len() ==> #[trigger] tval_entries(es@)[j] == (es@[j].0@, tval(es@[j].1)),
                    map@ == object_of(tentries_to_pairs(tval_entries(es@).take(i as int))),
                decreases es@.len() - i,
            {
                proof {
                    assert(decreases_to!(*tv => tv->InlineTable_0));
                    assert(decreases_to!(tv->InlineTable_0 => tv->InlineTable_0@));
                    assert(decreases_to!(tv->InlineTable_0@ => tv->InlineTable_0@[i as int]));
                    assert(decreases_to!(tv->InlineTable_0@[i as int] => tv->InlineTable_0@[i as int].1));
                }
                let c = toml_value_to_value(&es[i].1);
                let ghost before = map@;
                put_pair(&mut map, owned(es[i].0.as_str()), c);
                proof {
                    let te = tval_entries(es@);
                    assert(te.take(i + 1).drop_last() =~= te.take(i as int));
                    let ps = tentries_to_pairs(te.take(i + 1));
                    assert(ps.drop_last() == tentries_to_pairs(te.take(i as int)));
                }
                i = i + 1;
            }
            proof {
                assert(tval_entries(es@).take(es@.len() as int) =~= tval_entries(es@));
            }
            Value::Object(map)
        },
    }
}

/// Read a TOML table as an object.
pub fn table_to_value(tbl: &Vec<(String, TomlItem)>) -> (r: Value)
    ensures
        r@ == Val::Object(object_of(titems_to_pairs(table_view(tbl@)))),
    decreases tbl@,
{
    let mut map = ObjectMap::new();
    let mut i: usize = 0;
    proof {
        lemma_table_view(tbl@);
    }
    while i < tbl.len()
        invariant
            i <= tbl@.len(),
            table_view(tbl@).len() == tbl@.len(),
            forall|j: int| 0 <= j < tbl@.len() ==> #[trigger] table_view(tbl@)[j] == (tbl@[j].0@, titem(tbl@[j].1)),
            map@ == object_of(titems_to_pairs(table_view(tbl@).take(i as int))),
        decreases tbl@.len() - i,
    {
        proof {
            assert(decreases_to!(tbl@ => tbl@[i as int]));
            assert(decreases_to!(tbl@[i as int] => tbl@[i as int].1));
        }
        let c = item_to_value(&tbl[i].1);
        put_pair(&mut map, owned(tbl[i].0.as_str()), c);
        proof {
            let te = table_view(tbl@);
            assert(te.take(i + 1).drop_last() =~= te.take(i as int));
            let ps = titems_to_pairs(te.take(i + 1));
            assert(ps.drop_last() == titems_to_pairs(te.take(i as int)));
            assert(te.take(i + 1)[i as int] == (tbl@[i as int].0@, titem(tbl@[i as int].1)));
        }
        i = i + 1;
    }
    proof {
        assert(table_view(tbl@).take(tbl@.len() as int) =~= table_view(tbl@));
    }
    Value::Object(map)
}

/// Read a TOML item as a value tree.
pub fn item_to_value(item: &TomlItem) -> (r: Value)
    ensures
        r@ == titem_to_val(titem(*item)),
    decreases item,
{
    match item {
        TomlItem::Absent => Value::Null,
        TomlItem::Value(tv) => toml_value_to_value(tv),
        TomlItem::Table(es) => {
            proof {
                assert(decreases_to!(*item => item->Table_0));
                assert(decreases_to!(item->Table_0 => item->Table_0@));
            }
            table_to_value(es)
        },
        TomlItem::ArrayOfTables(ts) => {
            let mut out: Vec<Value> = Vec::new();
            let mut i: usize = 0;
            proof {
                lemma_tables_view(ts@);
            }
            while i < ts.len()
                invariant
                    i <= ts@.len(),
                    *item == TomlItem::ArrayOfTables(*ts),
                    out@.len() == i,
                    tables_view(ts@).len() == ts@.len(),
                    forall|j: int| 0 <= j < ts@.len() ==> #[trigger] tables_view(ts@)[j] == table_view(ts@[j]@),
                    items_view(out@) == tables_to_vals(tables_view(ts@).take(i as int)),
                decreases ts@.len() - i,
            {
                proof {
                    assert(decreases_to!(*item => item->ArrayOfTables_0));
                    assert(decreases_to!(item->ArrayOfTables_0 => item->ArrayOfTables_0@));
                    assert(decreases_to!(item->ArrayOfTables_0@ => item->ArrayOfTables_0@[i as int]));
                    assert(decreases_to!(item->ArrayOfTables_0@[i as int] => item->ArrayOfTables_0@[i as int]@));
                }
                let c = table_to_value(&ts[i]);
                let ghost before = out@;
                out.push(c);
                proof {
                    lemma_items_view(out@);
                    lemma_items_view(before);
                    let tv_s = tables_view(ts@);
                    assert(tv_s.take(i + 1).drop_last() =~= tv_s.take(i as int));
                    assert(items_view(out@) =~= items_view(before).push(c@));
                }
                i = i + 1;
            }
            proof {
                assert(tables_view(ts@).take(ts@.len() as int) =~= tables_view(ts@));
            }
            Value::Array(out)
        },
    }
}


// ── writing ─────────────────────────────────────────────────────────

/// An object whose values are all leaves or arrays, written as an inline table.
pub open spec fn simple_object(es: Seq<(Seq<char>, Val)>) -> bool {
    forall|i: int| 0 <= i < es.len() ==> is_leaf_of(#[trigger] es[i].1) || es[i].1 is Array
}

/// An array holding an object, written as an array of tables.
pub open spec fn holds_object(a: Seq<Val>) -> bool {
    exists|i: int| 0 <= i < a.len() && #[trigger] a[i] is Object
}

/// The TOML value a value becomes inside an array or inline table; null and
/// objects too deep for an inline table are dropped.
pub open spec fn leaf_tval(v: Val) -> Option<TVal>
    decreases v,
{
    match v {
        Val::Null => None,
        Val::Bool(b) => Some(TVal::Bool(b)),
        Val::Int(i) => Some(TVal::Int(i)),
        Val::Float(b) => Some(TVal::Float(b)),
        Val::Str(s) => Some(TVal::Str(s)),
        Val::Array(a) => Some(TVal::Array(leaf_tvals(a))),
        Val::Object(es) => if simple_object(es) {
            Some(TVal::Inline(leaf_inline(es)))
        } else {
            None
        },
    }
}

/// The TOML values of the items that can be written inline, in order.
pub open spec fn leaf_tvals(a: Seq<Val>) -> Seq<TVal>
    decreases a,
{
    if a.len() == 0 {
        seq![]
    } else {
        proof {
            assert(decreases_to!(a => a[a.len() - 1]));
        }
        let r = leaf_tvals(a.drop_last());
        match leaf_tval(a[a.len() - 1]) {
            Some(t) => r.push(t),
            None => r,
        }
    }
}

/// The inline table of an object's entries that can be written inline.
pub open spec fn leaf_inline(es: Seq<(Seq<char>, Val)>) -> Seq<(Seq<char>, TVal)>
    decreases es,
{
    if es.len() == 0 {
        seq![]
    } else {
        proof {
            assert(decreases_to!(es => es[es.len() - 1]));
            assert(decreases_to!(es[es.len() - 1] => es[es.len() - 1].1));
        }
        let r = leaf_inline(es.drop_last());
        match leaf_tval(es[es.len() - 1].1) {
            Some(t) => put(r, es[es.len() - 1].0, t),
            None => r,
        }
    }
}

/// The table after setting key `k` to value `v`: null is left out, an empty
/// array or object is written inline, an array holding objects becomes an
/// array of tables (its other items dropped), an object of leaves and arrays
/// becomes an inline table, any other object a sub-table.
pub open spec fn set_item_spec(tbl: Seq<(Seq<char>, TItem)>, k: Seq<char>, v: Val) -> Seq<(Seq<char>, TItem)>
    decreases v,
{
    match v {
        Val::Null => tbl,
        Val::Bool(b) => put(tbl, k, TItem::Value(TVal::Bool(b))),
        Val::Int(i) => put(tbl, k, TItem::Value(TVal::Int(i))),
        Val::Float(b) => put(tbl, k, TItem::Value(TVal::Float(b))),
        Val::Str(s) => put(tbl, k, TItem::Value(TVal::Str(s))),
        Val::Array(a) => if a.len() == 0 {
            put(tbl, k, TItem::Value(TVal::Array(seq![])))
        } else if holds_object(a) {
            put(tbl, k, TItem::Tables(tables_of(a)))
        } else {
            put(tbl, k, TItem::Value(TVal::Array(leaf_tvals(a))))
        },
        Val::Object(es) => if es.len() == 0 {
            put(tbl, k, TItem::Value(TVal::Inline(seq![])))
        } else if simple_object(es) {
            put(tbl, k, TItem::Value(TVal::Inline(leaf_inline(es))))
        } else {
            put(tbl, k, TItem::Table(set_items(seq![], es)))
        },
    }
}

/// The table after setting each entry in order.
pub open spec fn set_items(tbl: Seq<(Seq<char>, TItem)>, es: Seq<(Seq<char>, Val)>) -> Seq<(Seq<char>, TItem)>
    decreases es,
{
    if es.len() == 0 {
        tbl
    } else {
        proof {
            assert(decreases_to!(es => es[es.len() - 1]));
            assert(decreases_to!(es[es.len() - 1] => es[es.len() - 1].1));
        }
        set_item_spec(set_items(tbl, es.drop_last()), es[es.len() - 1].0, es[es.len() - 1].1)
    }
}

/// The tables of the objects of an array, in order.
pub open spec fn tables_of(a: Seq<Val>) -> Seq<Seq<(Seq<char>, TItem)>>
    decreases a,
{
    if a.len() == 0 {
        seq![]
    } else {
        proof {
            assert(decreases_to!(a => a[a.len() - 1]));
        }
        let r = tables_of(a.drop_last());
        match a[a.len() - 1] {
            Val::Object(es) => r.push(set_items(seq![], es)),
            _ => r,
        }
    }
}

/// The document a value tree is written as: an object's entries become the
/// top-level table, any other value is written under the key `value`.
pub open spec fn document_of(v: Val) -> Seq<(Seq<char>, TItem)> {
    match v {
        Val::Object(es) => set_items(seq![], es),
        _ => set_item_spec(seq![], "value"@, v),
    }
}

fn is_simple_table(map: &ObjectMap) -> (r: bool)
    ensures
        r == simple_object(map@),
{
    let mut i: usize = 0;
    while i < map.len()
        invariant
            i <= map@.len(),
            forall|j: int| 0 <= j < i ==> is_leaf_of(#[trigger] map@[j].1) || map@[j].1 is Array,
        decreases map@.len() - i,
    {
        let v = map.value_at(i);
        let ok = match v {
            Value::Array(_) => true,
            _ => v.is_leaf(),
        };
        if !ok {
            assert(!(is_leaf_of(map@[i as int].1) || map@[i as int].1 is Array));
            return false;
        }
        i = i + 1;
    }
    true
}

fn is_array_of_tables(arr: &Vec<Value>) -> (r: bool)
    ensures
        r == holds_object(items_view(arr@)),
{
    proof {
        lemma_items_view(arr@);
    }
    let mut i: usize = 0;
    while i < arr.len()
        invariant
            i <= arr@.len(),
            items_view(arr@).len() == arr@.len(),
            forall|j: int| 0 <= j < arr@.len() ==> #[trigger] items_view(arr@)[j] == arr@[j]@,
            forall|j: int| 0 <= j < i ==> !(#[trigger] items_view(arr@)[j] is Object),
        decreases arr@.len() - i,
    {
        match &arr[i] {
            Value::Object(_) => {
                assert(items_view(arr@)[i as int] is Object);
                return true;
            },
            _ => {},
        }
        i = i + 1;
    }
    false
}

/// The TOML value a value becomes inside an array or inline table
/// (see [`leaf_tval`]).
pub fn leaf_to_toml_value(value: &Value) -> (r: Option<TomlValue>)
    ensures
        match r {
            Some(t) => leaf_tval(value@) == Some(tval(t)),
            None => leaf_tval(value@) is None,
        },
    decreases value@,
{
    match value {
        Value::Null => None,
        Value::Bool(b) => Some(TomlValue::Boolean(*b)),
        Value::Int(i) => Some(TomlValue::Integer(*i)),
        Value::Float(b) => Some(TomlValue::Float(*b)),
        Value::String(s) => Some(TomlValue::String(owned(s.as_str()))),
        Value::Array(arr) => {
            let ghost a = items_view(arr@);
            let mut out: Vec<TomlValue> = Vec::new();
            let mut i: usize = 0;
            proof {
                lemma_items_view(arr@);
                assert(a.take(0) =~= Seq::<Val>::empty());
            }
            while i < arr.len()
                invariant
                    i <= arr@.len(),
                    a == items_view(arr@),
                    a.len() == arr@.len(),
                    value@ == Val::Array(a),
                    forall|j: int| 0 <= j < arr@.len() ==> #[trigger] a[j] == arr@[j]@,
                    tvals(out@) == leaf_tvals(a.take(i as int)),
                decreases arr@.len() - i,
            {
                proof {
                    assert(decreases_to!(value@ => value@->Array_0));
                    assert(decreases_to!(a => a[i as int]));
                    assert(a.take(i + 1).drop_last() =~= a.take(i as int));
                }
                let ghost before = out@;
                match leaf_to_toml_value(&arr[i]) {
                    Some(t) => {
                        out.push(t);
                        proof {
                            assert(out@.drop_last() =~= before);
                        }
                    },
                    None => {},
                }
                i = i + 1;
            }
            proof {
                assert(a.take(a.len() as int) =~= a);
            }
            Some(TomlValue::Array(out))
        },
        Value::Object(map) => {
            if !is_simple_table(map) {
                return None;
            }
            let ghost es = map@;
            let mut tbl: Vec<(String, TomlValue)> = Vec::new();
            let mut i: usize = 0;
            proof {
                assert(es.take(0) =~= Seq::<(Seq<char>, Val)>::empty());
                assert(tval_entries(tbl@) =~= Seq::<(Seq<char>, TVal)>::empty());
            }
            while i < map.len()
                invariant
                    i <= es.len(),
                    es == map@,
                    value@ == Val::Object(es),
                    tval_entries(tbl@) == leaf_inline(es.take(i as int)),
                decreases es.len() - i,
            {
                proof {
                    assert(decreases_to!(value@ => value@->Object_0));
                    assert(decreases_to!(es => es[i as int]));
                    assert(es.take(i + 1).drop_last() =~= es.take(i as int));
                }
                let k = map.key_at(i);
                match leaf_to_toml_value(map.value_at(i)) {
                    Some(t) => put_value(&mut tbl, k.as_str(), t),
                    None => {},
                }
                i = i + 1;
            }
            proof {
                assert(es.take(es.len() as int) =~= es);
            }
            Some(TomlValue::InlineTable(tbl))
        },
    }
}

/// Set key `key` of a table to `value` (see [`set_item_spec`]).
fn set_item(table: &mut Vec<(String, TomlItem)>, key: &str, value: &Value)
    ensures
        table_view(final(table)@) == set_item_spec(table_view(old(table)@), key@, value@),
    decreases value@,
{
    match value {
        Value::Null => {},
        Value::Bool(b) => put_item(table, key, TomlItem::Value(TomlValue::Boolean(*b))),
        Value::Int(i) => put_item(table, key, TomlItem::Value(TomlValue::Integer(*i))),
        Value::Float(b) => put_item(table, key, TomlItem::Value(TomlValue::Float(*b))),
        Value::String(s) => put_item(table, key, TomlItem::Value(TomlValue::String(owned(s.as_str())))),
        Value::Array(arr) => {
            let ghost a = items_view(arr@);
            proof {
                lemma_items_view(arr@);
            }
            if arr.len() == 0 {
                let empty: Vec<TomlValue> = Vec::new();
                proof {
                    assert(tvals(empty@) =~= Seq::<TVal>::empty());
                }
                put_item(table, key, TomlItem::Value(TomlValue::Array(empty)));
            } else if is_array_of_tables(arr) {
                let mut tables: Vec<Vec<(String, TomlItem)>> = Vec::new();
                let mut i: usize = 0;
                proof {
                    assert(a.take(0) =~= Seq::<Val>::empty());
                    assert(tables_view(tables@) =~= Seq::<Seq<(Seq<char>, TItem)>>::empty());
                }
                while i < arr.len()
                    invariant
                        i <= arr@.len(),
                        a == items_view(arr@),
                        a.len() == arr@.len(),
                        value@ == Val::Array(a),
                        forall|j: int| 0 <= j < arr@.len() ==> #[trigger] a[j] == arr@[j]@,
                        tables_view(tables@) == tables_of(a.take(i as int)),
                    decreases arr@.len() - i,
                {
                    proof {
                        assert(a.take(i + 1).drop_last() =~= a.take(i as int));
                    }
                    match &arr[i] {
                        Value::Object(map) => {
                            let ghost es = map@;
                            let mut tbl: Vec<(String, TomlItem)> = Vec::new();
                            let mut j: usize = 0;
                            proof {
                                assert(es.take(0) =~= Seq::<(Seq<char>, Val)>::empty());
                                assert(table_view(tbl@) =~= Seq::<(Seq<char>, TItem)>::empty());
                            }
                            while j < map.len()
                                invariant
                                    j <= es.len(),
                                    es == map@,
                                    a[i as int] == Val::Object(es),
                                    value@ == Val::Array(a),
                                    i < a.len(),
                                    table_view(tbl@) == set_items(seq![], es.take(j as int)),
                                decreases es.len() - j,
                            {
                                proof {
                                    assert(decreases_to!(value@ => value@->Array_0));
                                    assert(decreases_to!(a => a[i as int]));
                                    assert(decreases_to!(a[i as int] => a[i as int]->Object_0));
                                    assert(decreases_to!(es => es[j as int]));
                                    assert(es.take(j + 1).drop_last() =~= es.take(j as int));
                                }
                                set_item(&mut tbl, map.key_at(j).as_str(), map.value_at(j));
                                j = j + 1;
                            }
                            proof {
                                assert(es.take(es.len() as int) =~= es);
                            }
                            let ghost before = tables@;
                            tables.push(tbl);
                            proof {
                                assert(tables@.drop_last() =~= before);
                            }
                        },
                        _ => {},
                    }
                    i = i + 1;
                }
                proof {
                    assert(a.take(a.len() as int) =~= a);
                }
                put_item(table, key, TomlItem::ArrayOfTables(tables));
            } else {
                let mut out: Vec<TomlValue> = Vec::new();
                let mut i: usize = 0;
                proof {
                    assert(a.take(0) =~= Seq::<Val>::empty());
                    assert(tvals(out@) =~= Seq::<TVal>::empty());
                }
                while i < arr.len()
                    invariant
                        i <= arr@.len(),
                        a == items_view(arr@),
                        a.len() == arr@.len(),
                        forall|j: int| 0 <= j < arr@.len() ==> #[trigger] a[j] == arr@[j]@,
                        tvals(out@) == leaf_tvals(a.take(i as int)),
                    decreases arr@.len() - i,
                {
                    proof {
                        assert(a.take(i + 1).drop_last() =~= a.take(i as int));
                    }
                    let ghost before = out@;
                    match leaf_to_toml_value(&arr[i]) {
                        Some(t) => {
                            out.push(t);
                            proof {
                                assert(out@.drop_last() =~= before);
                            }
                        },
                        None => {},
                    }
                    i = i + 1;
                }
                proof {
                    assert(a.take(a.len() as int) =~= a);
                }
                put_item(table, key, TomlItem::Value(TomlValue::Array(out)));
            }
        },
        Value::Object(map) => {
            let ghost es = map@;
            if map.len() == 0 {
                let empty: Vec<(String, TomlValue)> = Vec::new();
                proof {
                    assert(tval_entries(empty@) =~= Seq::<(Seq<char>, TVal)>::empty());
                }
                put_item(table, key, TomlItem::Value(TomlValue::InlineTable(empty)));
            } else if is_simple_table(map) {
                let mut tbl: Vec<(String, TomlValue)> = Vec::new();
                let mut i: usize = 0;
                proof {
                    assert(es.take(0) =~= Seq::<(Seq<char>, Val)>::empty());
                    assert(tval_entries(tbl@) =~= Seq::<(Seq<char>, TVal)>::empty());
                }
                while i < map.len()
                    invariant
                        i <= es.len(),
                        es == map@,
                        tval_entries(tbl@) == leaf_inline(es.take(i as int)),
                    decreases es.len() - i,
                {
                    proof {
                        assert(es.take(i + 1).drop_last() =~= es.take(i as int));
                    }
                    let k = map.key_at(i);
                    match leaf_to_toml_value(map.value_at(i)) {
                        Some(t) => put_value(&mut tbl, k.as_str(), t),
                        None => {},
                    }
                    i = i + 1;
                }
                proof {
                    assert(es.take(es.len() as int) =~= es);
                }
                put_item(table, key, TomlItem::Value(TomlValue::InlineTable(tbl)));
            } else {
                let mut sub: Vec<(String, TomlItem)> = Vec::new();
                let mut i: usize = 0;
                proof {
                    assert(es.take(0) =~= Seq::<(Seq<char>, Val)>::empty());
                    assert(table_view(sub@) =~= Seq::<(Seq<char>, TItem)>::empty());
                }
                while i < map.len()
                    invariant
                        i <= es.len(),
                        es == map@,
                        value@ == Val::Object(es),
                        table_view(sub@) == set_items(seq![], es.take(i as int)),
                    decreases es.len() - i,
                {
                    proof {
                        assert(decreases_to!(value@ => value@->Object_0));
                        assert(decreases_to!(es => es[i as int]));
                        assert(es.take(i + 1).drop_last() =~= es.take(i as int));
                    }
                    set_item(&mut sub, map.key_at(i).as_str(), map.value_at(i));
                    i = i + 1;
                }
                proof {
                    assert(es.take(es.len() as int) =~= es);
                }
                put_item(table, key, TomlItem::Table(sub));
            }
        },
    }
}

/// The top-level table a value tree is written as (see [`document_of`]).
pub fn populate_table(value: &Value) -> (r: Vec<(String, TomlItem)>)
    ensures
        table_view(r@) == document_of(value@),
{
    let mut tbl: Vec<(String, TomlItem)> = Vec::new();
    proof {
        assert(table_view(tbl@) =~= Seq::<(Seq<char>, TItem)>::empty());
    }
    match value {
        Value::Object(map) => {
            let ghost es = map@;
            let mut i: usize = 0;
            proof {
                assert(es.take(0) =~= Seq::<(Seq<char>, Val)>::empty());
            }
            while i < map.len()
                invariant
                    i <= es.len(),
                    es == map@,
                    table_view(tbl@) == set_items(seq![], es.take(i as int)),
                decreases es.len() - i,
            {
                proof {
                    assert(es.take(i + 1).drop_last() =~= es.take(i as int));
                }
                set_item(&mut tbl, map.key_at(i).as_str(), map.value_at(i));
                i = i + 1;
            }
            proof {
                assert(es.take(es.len() as int) =~= es);
            }
        },
        _ => {
            set_item(&mut tbl, "value", value);
        },
    }
    tbl
}

} // verus!
