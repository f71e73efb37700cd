//! Laws of the format conversions: writing a tree as JSON, YAML or TOML and
//! reading it back gives the same tree.

use vstd::prelude::*;

use super::json::{
    bits_finite, jmembers, jpairs, jval_to_val, jvals_to_vals, val_to_jval, vals_to_jvals, JVal,
};
use super::toml::{
    document_of, holds_object, leaf_inline, leaf_tval, leaf_tvals, lemma_absent, object_of, put,
    set_item_spec, set_items, simple_object, tables_of, tables_to_vals, tentries_to_pairs,
    titem_to_val, titems_to_pairs, tval_to_val, tvals_to_vals, TItem, TVal,
};
use super::yaml::{
    val_to_yval, vals_to_yvals, ymembers, ypairs, yval_to_val, yvals_to_vals, YVal,
};
use crate::tree::laws::well_formed;
use crate::tree::value::{keys_unique, Val};

verus! {

/// Every float in the tree is finite (neither NaN nor infinite).
pub open spec fn floats_finite(v: Val) -> bool
    decreases v,
{
    match v {
        Val::Float(b) => bits_finite(b),
        Val::Object(es) => forall|i: int| 0 <= i < es.len() ==> floats_finite(#[trigger] es[i].1),
        Val::Array(a) => forall|i: int| 0 <= i < a.len() ==> floats_finite(#[trigger] a[i]),
        _ => true,
    }
}

/// Entries with distinct keys read back as themselves.
proof fn lemma_object_of_unique(es: Seq<(Seq<char>, Val)>)
    requires
        keys_unique(es),
    ensures
        object_of(es) == es,
    decreases es.len(),
{
    if es.len() > 0 {
        let init = es.drop_last();
        assert(keys_unique(init));
        lemma_object_of_unique(init);
        assert forall|j: int| 0 <= j < init.len() implies init[j].0 != es.last().0 by {
            assert(es[j].0 != es[es.len() - 1].0);
        }
        lemma_absent(init, es.last().0);
        assert(put(init, es.last().0, es.last().1) =~= es);
    }
}

// ── JSON ────────────────────────────────────────────────────────────

proof fn lemma_vals_to_jvals(a: Seq<Val>)
    ensures
        vals_to_jvals(a).len() == a.len(),
        forall|i: int| 0 <= i < a.len() ==> #[trigger] vals_to_jvals(a)[i] == val_to_jval(a[i]),
    decreases a.len(),
{
    if a.len() > 0 {
        lemma_vals_to_jvals(a.drop_last());
    }
}

proof fn lemma_jvals_to_vals(vs: Seq<JVal>)
    ensures
        jvals_to_vals(vs).len() == vs.len(),
        forall|i: int| 0 <= i < vs.len() ==> #[trigger] jvals_to_vals(vs)[i] == jval_to_val(vs[i]),
    decreases vs.len(),
{
    if vs.len() > 0 {
        lemma_jvals_to_vals(vs.drop_last());
    }
}

proof fn lemma_jpairs(es: Seq<(Seq<char>, JVal)>)
    ensures
        jpairs(es).len() == es.len(),
        forall|i: int|
            0 <= i < es.len() ==> #[trigger] jpairs(es)[i] == (es[i].0, jval_to_val(es[i].1)),
    decreases es.len(),
{
    if es.len() > 0 {
        lemma_jpairs(es.drop_last());
    }
}

proof fn lemma_jmembers(es: Seq<(Seq<char>, Val)>)
    requires
        keys_unique(es),
    ensures
        jmembers(es).len() == es.len(),
        forall|i: int|
            0 <= i < es.len() ==> #[trigger] jmembers(es)[i] == (es[i].0, val_to_jval(es[i].1)),
    decreases es.len(),
{
    if es.len() > 0 {
        let init = es.drop_last();
        assert(keys_unique(init));
        lemma_jmembers(init);
        assert forall|j: int| 0 <= j < jmembers(init).len() implies jmembers(init)[j].0
            != es.last().0 by {
            assert(es[j].0 != es[es.len() - 1].0);
        }
        lemma_absent(jmembers(init), es.last().0);
    }
}

/// Writing a tree as JSON and reading it back gives the same tree, for every
/// tree whose floats JSON can hold.
pub proof fn law_json_round_trip(v: Val)
    requires
        well_formed(v),
        floats_finite(v),
    ensures
        jval_to_val(val_to_jval(v)) == v,
    decreases v,
{
    match v {
        Val::Array(a) => {
            assert forall|i: int| 0 <= i < a.len() implies #[trigger] jval_to_val(
                val_to_jval(a[i]),
            ) == a[i] by {
                assert(decreases_to!(v => a));
                assert(decreases_to!(a => a[i]));
                law_json_round_trip(a[i]);
            }
            lemma_vals_to_jvals(a);
            lemma_jvals_to_vals(vals_to_jvals(a));
            assert(jvals_to_vals(vals_to_jvals(a)) =~= a);
        },
        Val::Object(es) => {
            assert forall|i: int| 0 <= i < es.len() implies #[trigger] jval_to_val(
                val_to_jval(es[i].1),
            ) == es[i].1 by {
                assert(decreases_to!(v => es));
                assert(decreases_to!(es => es[i]));
                assert(decreases_to!(es[i] => es[i].1));
                law_json_round_trip(es[i].1);
            }
            lemma_jmembers(es);
            lemma_jpairs(jmembers(es));
            assert(jpairs(jmembers(es)) =~= es);
            lemma_object_of_unique(es);
        },
        _ => {},
    }
}

// ── YAML ────────────────────────────────────────────────────────────

proof fn lemma_vals_to_yvals(a: Seq<Val>)
    ensures
        vals_to_yvals(a).len() == a.len(),
        forall|i: int| 0 <= i < a.len() ==> #[trigger] vals_to_yvals(a)[i] == val_to_yval(a[i]),
    decreases a.len(),
{
    if a.len() > 0 {
        lemma_vals_to_yvals(a.drop_last());
    }
}

proof fn lemma_yvals_to_vals(vs: Seq<YVal>)
    ensures
        yvals_to_vals(vs).len() == vs.len(),
        forall|i: int| 0 <= i < vs.len() ==> #[trigger] yvals_to_vals(vs)[i] == yval_to_val(vs[i]),
    decreases vs.len(),
{
    if vs.len() > 0 {
        lemma_yvals_to_vals(vs.drop_last());
    }
}

proof fn lemma_ypairs(es: Seq<(Seq<char>, YVal)>)
    ensures
        ypairs(es).len() == es.len(),
        forall|i: int|
            0 <= i < es.len() ==> #[trigger] ypairs(es)[i] == (es[i].0, yval_to_val(es[i].1)),
    decreases es.len(),
{
    if es.len() > 0 {
        lemma_ypairs(es.drop_last());
    }
}

proof fn lemma_ymembers(es: Seq<(Seq<char>, Val)>)
    requires
        keys_unique(es),
    ensures
        ymembers(es).len() == es.len(),
        forall|i: int|
            0 <= i < es.len() ==> #[trigger] ymembers(es)[i] == (es[i].0, val_to_yval(es[i].1)),
    decreases es.len(),
{
    if es.len() > 0 {
        let init = es.drop_last();
        assert(keys_unique(init));
        lemma_ymembers(init);
        assert forall|j: int| 0 <= j < ymembers(init).len() implies ymembers(init)[j].0
            != es.last().0 by {
            assert(es[j].0 != es[es.len() - 1].0);
        }
        lemma_absent(ymembers(init), es.last().0);
    }
}

/// Writing a tree as YAML and reading it back gives the same tree
/// (YAML holds every float, NaN and the infinities included).
pub proof fn law_yaml_round_trip(v: Val)
    requires
        well_formed(v),
    ensures
        yval_to_val(val_to_yval(v)) == v,
    decreases v,
{
    match v {
        Val::Array(a) => {
            assert forall|i: int| 0 <= i < a.len() implies #[trigger] yval_to_val(
                val_to_yval(a[i]),
            ) == a[i] by {
                assert(decreases_to!(v => a));
                assert(decreases_to!(a => a[i]));
                law_yaml_round_trip(a[i]);
            }
            lemma_vals_to_yvals(a);
            lemma_yvals_to_vals(vals_to_yvals(a));
            assert(yvals_to_vals(vals_to_yvals(a)) =~= a);
        },
        Val::Object(es) => {
            assert forall|i: int| 0 <= i < es.len() implies #[trigger] yval_to_val(
                val_to_yval(es[i].1),
            ) == es[i].1 by {
                assert(decreases_to!(v => es));
                assert(decreases_to!(es => es[i]));
                assert(decreases_to!(es[i] => es[i].1));
                law_yaml_round_trip(es[i].1);
            }
            lemma_ymembers(es);
            lemma_ypairs(ymembers(es));
            assert(ypairs(ymembers(es)) =~= es);
            lemma_object_of_unique(es);
        },
        _ => {},
    }
}

// ── TOML ────────────────────────────────────────────────────────────

/// A value that can be written inside an array or inline table and read
/// back: no null, and objects only of leaves and arrays.
pub open spec fn inline_ok(v: Val) -> bool
    decreases v,
{
    match v {
        Val::Null => false,
        Val::Array(a) => forall|i: int| 0 <= i < a.len() ==> inline_ok(#[trigger] a[i]),
        Val::Object(es) => keys_unique(es) && simple_object(es) && forall|i: int|
            0 <= i < es.len() ==> inline_ok(#[trigger] es[i].1),
        _ => true,
    }
}

/// A value that can be written under a key of a table and read back: no
/// null; an array holds either only tables or no table; an object of leaves
/// and arrays is written inline, any other object as a table.
pub open spec fn toml_ok(v: Val) -> bool
    decreases v, 1int,
{
    match v {
        Val::Null => false,
        Val::Array(a) => a.len() == 0 || (holds_object(a) && forall|i: int|
            0 <= i < a.len() ==> toml_table(#[trigger] a[i])) || (!holds_object(a) && forall|i: int|
            0 <= i < a.len() ==> inline_ok(#[trigger] a[i])),
        Val::Object(es) => es.len() == 0 || (simple_object(es) && inline_ok(v)) || (!simple_object(es)
            && toml_table(v)),
        _ => true,
    }
}

/// An object that can be written as a table and read back: distinct keys,
/// every value writable under its key.
pub open spec fn toml_table(v: Val) -> bool
    decreases v, 0int,
{
    match v {
        Val::Object(es) => keys_unique(es) && forall|i: int|
            0 <= i < es.len() ==> toml_ok(#[trigger] es[i].1),
        _ => false,
    }
}

/// The item a value is written as under a key (see `set_item_spec`).
spec fn item_of(v: Val) -> TItem {
    match v {
        Val::Null => TItem::Absent,
        Val::Bool(b) => TItem::Value(TVal::Bool(b)),
        Val::Int(i) => TItem::Value(TVal::Int(i)),
        Val::Float(b) => TItem::Value(TVal::Float(b)),
        Val::Str(s) => TItem::Value(TVal::Str(s)),
        Val::Array(a) => if a.len() == 0 {
            TItem::Value(TVal::Array(seq![]))
        } else if holds_object(a) {
            TItem::Tables(tables_of(a))
        } else {
            TItem::Value(TVal::Array(leaf_tvals(a)))
        },
        Val::Object(es) => if es.len() == 0 {
            TItem::Value(TVal::Inline(seq![]))
        } else if simple_object(es) {
            TItem::Value(TVal::Inline(leaf_inline(es)))
        } else {
            TItem::Table(set_items(seq![], es))
        },
    }
}

proof fn lemma_set_item(t: Seq<(Seq<char>, TItem)>, k: Seq<char>, v: Val)
    requires
        !(v is Null),
    ensures
        set_item_spec(t, k, v) == put(t, k, item_of(v)),
{
}

/// Setting entries with distinct, non-null values pushes them in order.
proof fn lemma_set_items(es: Seq<(Seq<char>, Val)>)
    requires
        keys_unique(es),
        forall|i: int| 0 <= i < es.len() ==> !(#[trigger] es[i].1 is Null),
    ensures
        set_items(seq![], es).len() == es.len(),
        forall|i: int|
            0 <= i < es.len() ==> #[trigger] set_items(seq![], es)[i] == (es[i].0, item_of(es[i].1)),
    decreases es.len(),
{
    if es.len() > 0 {
        let init = es.drop_last();
        assert(keys_unique(init));
        assert forall|i: int| 0 <= i < init.len() implies !(#[trigger] init[i].1 is Null) by {
            assert(init[i] == es[i]);
        }
        lemma_set_items(init);
        let t = set_items(seq![], init);
        assert forall|j: int| 0 <= j < t.len() implies t[j].0 != es.last().0 by {
            assert(es[j].0 != es[es.len() - 1].0);
        }
        lemma_absent(t, es.last().0);
        assert(!(es[es.len() - 1].1 is Null));
        lemma_set_item(t, es.last().0, es.last().1);
    }
}

proof fn lemma_titems_to_pairs(es: Seq<(Seq<char>, TItem)>)
    ensures
        titems_to_pairs(es).len() == es.len(),
        forall|i: int|
            0 <= i < es.len() ==> #[trigger] titems_to_pairs(es)[i] == (es[i].0, titem_to_val(es[i].1)),
    decreases es.len(),
{
    if es.len() > 0 {
        lemma_titems_to_pairs(es.drop_last());
    }
}

proof fn lemma_tables_of(a: Seq<Val>)
    requires
        forall|i: int| 0 <= i < a.len() ==> #[trigger] a[i] is Object,
    ensures
        tables_of(a).len() == a.len(),
        forall|i: int|
            0 <= i < a.len() ==> #[trigger] tables_of(a)[i] == set_items(seq![], a[i]->Object_0),
    decreases a.len(),
{
    if a.len() > 0 {
        let init = a.drop_last();
        assert forall|i: int| 0 <= i < init.len() implies #[trigger] init[i] is Object by {
            assert(init[i] == a[i]);
        }
        lemma_tables_of(init);
        assert(a[a.len() - 1] is Object);
    }
}

proof fn lemma_tables_to_vals(ts: Seq<Seq<(Seq<char>, TItem)>>)
    ensures
        tables_to_vals(ts).len() == ts.len(),
        forall|i: int|
            0 <= i < ts.len() ==> #[trigger] tables_to_vals(ts)[i] == Val::Object(
                object_of(titems_to_pairs(ts[i])),
            ),
    decreases ts.len(),
{
    if ts.len() > 0 {
        lemma_tables_to_vals(ts.drop_last());
    }
}

proof fn lemma_leaf_tvals(a: Seq<Val>)
    requires
        forall|i: int| 0 <= i < a.len() ==> #[trigger] leaf_tval(a[i]) is Some,
    ensures
        leaf_tvals(a).len() == a.len(),
        forall|i: int| 0 <= i < a.len() ==> #[trigger] leaf_tvals(a)[i] == leaf_tval(a[i])->0,
    decreases a.len(),
{
    if a.len() > 0 {
        let init = a.drop_last();
        assert forall|i: int| 0 <= i < init.len() implies #[trigger] leaf_tval(init[i]) is Some by {
            assert(init[i] == a[i]);
        }
        lemma_leaf_tvals(init);
        assert(leaf_tval(a[a.len() - 1]) is Some);
    }
}

proof fn lemma_tvals_to_vals(vs: Seq<TVal>)
    ensures
        tvals_to_vals(vs).len() == vs.len(),
        forall|i: int| 0 <= i < vs.len() ==> #[trigger] tvals_to_vals(vs)[i] == tval_to_val(vs[i]),
    decreases vs.len(),
{
    if vs.len() > 0 {
        lemma_tvals_to_vals(vs.drop_last());
    }
}

proof fn lemma_leaf_inline(es: Seq<(Seq<char>, Val)>)
    requires
        keys_unique(es),
        forall|i: int| 0 <= i < es.len() ==> #[trigger] leaf_tval(es[i].1) is Some,
    ensures
        leaf_inline(es).len() == es.len(),
        forall|i: int|
            0 <= i < es.len() ==> #[trigger] leaf_inline(es)[i] == (es[i].0, leaf_tval(es[i].1)->0),
    decreases es.len(),
{
    if es.len() > 0 {
        let init = es.drop_last();
        assert(keys_unique(init));
        assert forall|i: int| 0 <= i < init.len() implies #[trigger] leaf_tval(init[i].1) is Some by {
            assert(init[i] == es[i]);
        }
        lemma_leaf_inline(init);
        let t = leaf_inline(init);
        assert forall|j: int| 0 <= j < t.len() implies t[j].0 != es.last().0 by {
            assert(es[j].0 != es[es.len() - 1].0);
        }
        lemma_absent(t, es.last().0);
        assert(leaf_tval(es[es.len() - 1].1) is Some);
    }
}

proof fn lemma_tentries_to_pairs(es: Seq<(Seq<char>, TVal)>)
    ensures
        tentries_to_pairs(es).len() == es.len(),
        forall|i: int|
            0 <= i < es.len() ==> #[trigger] tentries_to_pairs(es)[i] == (es[i].0, tval_to_val(es[i].1)),
    decreases es.len(),
{
    if es.len() > 0 {
        lemma_tentries_to_pairs(es.drop_last());
    }
}

/// A value written inline reads back as itself.
proof fn lemma_inline_round_trip(v: Val)
    requires
        inline_ok(v),
    ensures
        leaf_tval(v) is Some,
        tval_to_val(leaf_tval(v)->0) == v,
    decreases v,
{
    match v {
        Val::Array(a) => {
            assert forall|i: int| 0 <= i < a.len() implies #[trigger] leaf_tval(a[i]) is Some
                && tval_to_val(leaf_tval(a[i])->0) == a[i] by {
                assert(decreases_to!(v => a));
                assert(decreases_to!(a => a[i]));
                lemma_inline_round_trip(a[i]);
            }
            lemma_leaf_tvals(a);
            lemma_tvals_to_vals(leaf_tvals(a));
            assert(tvals_to_vals(leaf_tvals(a)) =~= a);
        },
        Val::Object(es) => {
            assert forall|i: int| 0 <= i < es.len() implies #[trigger] leaf_tval(es[i].1) is Some
                && tval_to_val(leaf_tval(es[i].1)->0) == es[i].1 by {
                assert(decreases_to!(v => es));
                assert(decreases_to!(es => es[i]));
                assert(decreases_to!(es[i] => es[i].1));
                lemma_inline_round_trip(es[i].1);
            }
            lemma_leaf_inline(es);
            lemma_tentries_to_pairs(leaf_inline(es));
            assert(tentries_to_pairs(leaf_inline(es)) =~= es);
            lemma_object_of_unique(es);
        },
        _ => {},
    }
}

/// A value written under a key reads back as itself.
proof fn lemma_item_round_trip(v: Val)
    requires
        toml_ok(v),
    ensures
        titem_to_val(item_of(v)) == v,
    decreases v, 1int,
{
    match v {
        Val::Array(a) => {
            if a.len() == 0 {
                assert(tvals_to_vals(seq![]) =~= a);
            } else if holds_object(a) {
                assert forall|i: int| 0 <= i < a.len() implies #[trigger] a[i] is Object by {
                    assert(toml_table(a[i]));
                }
                assert forall|i: int| 0 <= i < a.len() implies Val::Object(
                    object_of(titems_to_pairs(set_items(seq![], #[trigger] a[i]->Object_0))),
                ) == a[i] by {
                    assert(decreases_to!(v => a));
                    assert(decreases_to!(a => a[i]));
                    lemma_table_round_trip(a[i]);
                }
                lemma_tables_of(a);
                lemma_tables_to_vals(tables_of(a));
                assert(tables_to_vals(tables_of(a)) =~= a);
            } else {
                lemma_inline_round_trip(v);
                assert(leaf_tval(v) == Some(TVal::Array(leaf_tvals(a))));
            }
        },
        Val::Object(es) => {
            if es.len() == 0 {
                assert(object_of(tentries_to_pairs(seq![])) =~= es);
            } else if simple_object(es) {
                lemma_inline_round_trip(v);
            } else {
                lemma_table_round_trip(v);
            }
        },
        _ => {},
    }
}

/// An object written as a table reads back as itself.
proof fn lemma_table_round_trip(v: Val)
    requires
        toml_table(v),
    ensures
        Val::Object(object_of(titems_to_pairs(set_items(seq![], v->Object_0)))) == v,
    decreases v, 0int,
{
    let es = v->Object_0;
    assert forall|i: int| 0 <= i < es.len() implies titem_to_val(item_of(#[trigger] es[i].1))
        == es[i].1 && !(es[i].1 is Null) by {
        assert(decreases_to!(v => es));
        assert(decreases_to!(es => es[i]));
        assert(decreases_to!(es[i] => es[i].1));
        lemma_item_round_trip(es[i].1);
    }
    lemma_set_items(es);
    lemma_titems_to_pairs(set_items(seq![], es));
    assert(titems_to_pairs(set_items(seq![], es)) =~= es);
    lemma_object_of_unique(es);
}

/// Writing a tree as a TOML document and reading it back gives the same
/// tree, for every tree that TOML can hold as written (see [`toml_table`]):
/// an object at the root, no null, arrays of only tables or of no table.
pub proof fn law_toml_round_trip(v: Val)
    requires
        toml_table(v),
    ensures
        Val::Object(object_of(titems_to_pairs(document_of(v)))) == v,
{
    lemma_table_round_trip(v);
}

} // verus!
