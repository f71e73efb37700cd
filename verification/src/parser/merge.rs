//! Saving a TOML document with as little churn as possible: a plan of which
//! entries of the table as it was read to keep, replace, descend into or
//! remove, so that the saved table reads as the freshly written one while
//! every entry whose value did not change keeps its text.

use vstd::prelude::*;

use super::toml::{
    item_to_value, lemma_table_view, lemma_tables_view, lemma_tval_entries, lemma_tvals,
    object_of, pos_of, table_view, tables_view, titem, titem_to_val, titems_to_pairs, tval,
    tval_entries, tvals, first_at, lemma_absent, lemma_first_at_unique, TItem, TomlItem,
    TomlValue,
};
use crate::text::{owned, str_eq};
use crate::tree::value::{lemma_items_view, lemma_value_view, Val, Value};

verus! {

// ── copies ──────────────────────────────────────────────────────────

fn clone_str(s: &String) -> (r: String)
    ensures
        r@ == s@,
{
    owned(s.as_str())
}

/// A copy of a TOML value.
fn clone_tvalue(v: &TomlValue) -> (r: TomlValue)
    ensures
        tval(r) == tval(*v),
    decreases v,
{
    match v {
        TomlValue::String(s) => TomlValue::String(clone_str(s)),
        TomlValue::Integer(i) => TomlValue::Integer(*i),
        TomlValue::Float(b) => TomlValue::Float(*b),
        TomlValue::Boolean(b) => TomlValue::Boolean(*b),
        TomlValue::Datetime(s) => TomlValue::Datetime(clone_str(s)),
        TomlValue::Array(vs) => {
            let mut out: Vec<TomlValue> = Vec::new();
            let mut i: usize = 0;
            proof {
                lemma_tvals(vs@);
            }
            while i < vs.len()
                invariant
                    i <= vs@.len(),
                    *v == TomlValue::Array(*vs),
                    out@.len() == i,
                    tvals(vs@).len() == vs@.len(),
                    forall|j: int| 0 <= j < vs@.len() ==> #[trigger] tvals(vs@)[j] == tval(vs@[j]),
                    forall|j: int| 0 <= j < i ==> tval(#[trigger] out@[j]) == tval(vs@[j]),
                decreases vs@.len() - i,
            {
                proof {
                    assert(decreases_to!(*v => v->Array_0));
                    assert(decreases_to!(v->Array_0 => v->Array_0@));
                    assert(decreases_to!(v->Array_0@ => v->Array_0@[i as int]));
                }
                let c = clone_tvalue(&vs[i]);
                out.push(c);
                i = i + 1;
            }
            proof {
                lemma_tvals(out@);
                assert(tvals(out@) =~= tvals(vs@));
            }
            TomlValue::Array(out)
        },
        TomlValue::InlineTable(es) => {
            let mut out: Vec<(String, TomlValue)> = Vec::new();
            let mut i: usize = 0;
            proof {
                lemma_tval_entries(es@);
            }
            while i < es.len()
                invariant
                    i <= es@.len(),
                    *v == TomlValue::InlineTable(*es),
                    out@.len() == i,
                    tval_entries(es@).len() == es@.len(),
                    forall|j: int| 0 <= j < es@.len() ==> #[trigger] tval_entries(es@)[j] == (es@[j].0@, tval(es@[j].1)),
                    forall|j: int| 0 <= j < i ==> (#[trigger] out@[j]).0@ == es@[j].0@ && tval(out@[j].1) == tval(es@[j].1),
                decreases es@.len() - i,
            {
                proof {
                    assert(decreases_to!(*v => v->InlineTable_0));
                    assert(decreases_to!(v->InlineTable_0 => v->InlineTable_0@));
                    assert(decreases_to!(v->InlineTable_0@ => v->InlineTable_0@[i as int]));
                    assert(decreases_to!(v->InlineTable_0@[i as int] => v->InlineTable_0@[i as int].1));
                }
                let c = clone_tvalue(&es[i].1);
                out.push((clone_str(&es[i].0), c));
                i = i + 1;
            }
            proof {
                lemma_tval_entries(out@);
                assert(tval_entries(out@) =~= tval_entries(es@));
            }
            TomlValue::InlineTable(out)
        },
    }
}

/// A copy of a TOML table.
fn clone_table(t: &Vec<(String, TomlItem)>) -> (r: Vec<(String, TomlItem)>)
    ensures
        table_view(r@) == table_view(t@),
    decreases t@,
{
    let mut out: Vec<(String, TomlItem)> = Vec::new();
    let mut i: usize = 0;
    proof {
        lemma_table_view(t@);
    }
    while i < t.len()
        invariant
            i <= t@.len(),
            out@.len() == i,
            table_view(t@).len() == t@.len(),
            forall|j: int| 0 <= j < t@.len() ==> #[trigger] table_view(t@)[j] == (t@[j].0@, titem(t@[j].1)),
            forall|j: int| 0 <= j < i ==> (#[trigger] out@[j]).0@ == t@[j].0@ && titem(out@[j].1) == titem(t@[j].1),
        decreases t@.len() - i,
    {
        proof {
            assert(decreases_to!(t@ => t@[i as int]));
            assert(decreases_to!(t@[i as int] => t@[i as int].1));
        }
        let c = clone_item(&t[i].1);
        out.push((clone_str(&t[i].0), c));
        i = i + 1;
    }
    proof {
        lemma_table_view(out@);
        assert(table_view(out@) =~= table_view(t@));
    }
    out
}

/// A copy of a TOML item.
fn clone_item(it: &TomlItem) -> (r: TomlItem)
    ensures
        titem(r) == titem(*it),
    decreases it,
{
    match it {
        TomlItem::Absent => TomlItem::Absent,
        TomlItem::Value(v) => TomlItem::Value(clone_tvalue(v)),
        TomlItem::Table(es) => {
            proof {
                assert(decreases_to!(*it => it->Table_0));
                assert(decreases_to!(it->Table_0 => it->Table_0@));
            }
            TomlItem::Table(clone_table(es))
        },
        TomlItem::ArrayOfTables(ts) => {
            let mut out: Vec<Vec<(String, TomlItem)>> = Vec::new();
            let mut i: usize = 0;
            proof {
                lemma_tables_view(ts@);
            }
            while i < ts.len()
                invariant
                    i <= ts@.len(),
                    *it == TomlItem::ArrayOfTables(*ts),
                    out@.len() == i,
                    tables_view(ts@).len() == ts@.len(),
                    forall|j: int| 0 <= j < ts@.len() ==> #[trigger] tables_view(ts@)[j] == table_view(ts@[j]@),
                    forall|j: int| 0 <= j < i ==> table_view((#[trigger] out@[j])@) == table_view(ts@[j]@),
                decreases ts@.len() - i,
            {
                proof {
                    assert(decreases_to!(*it => it->ArrayOfTables_0));
                    assert(decreases_to!(it->ArrayOfTables_0 => it->ArrayOfTables_0@));
                    assert(decreases_to!(it->ArrayOfTables_0@ => it->ArrayOfTables_0@[i as int]));
                    assert(decreases_to!(it->ArrayOfTables_0@[i as int] => it->ArrayOfTables_0@[i as int]@));
                }
                let c = clone_table(&ts[i]);
                out.push(c);
                i = i + 1;
            }
            proof {
                lemma_tables_view(out@);
                assert(tables_view(out@) =~= tables_view(ts@));
            }
            TomlItem::ArrayOfTables(out)
        },
    }
}

// ── equal values ────────────────────────────────────────────────────

/// Whether two value trees are the same tree (same variants, same keys in
/// the same order, same float bits).
fn same_val(a: &Value, b: &Value) -> (r: bool)
    ensures
        r == (a@ == b@),
    decreases a@,
{
    proof {
        lemma_value_view(*a);
        lemma_value_view(*b);
    }
    match (a, b) {
        (Value::Null, Value::Null) => true,
        (Value::Bool(x), Value::Bool(y)) => *x == *y,
        (Value::Int(x), Value::Int(y)) => *x == *y,
        (Value::Float(x), Value::Float(y)) => *x == *y,
        (Value::String(x), Value::String(y)) => str_eq(x.as_str(), y.as_str()),
        (Value::Array(x), Value::Array(y)) => {
            proof {
                lemma_items_view(x@);
                lemma_items_view(y@);
            }
            if x.len() != y.len() {
                return false;
            }
            let mut i: usize = 0;
            while i < x.len()
                invariant
                    i <= x@.len(),
                    x@.len() == y@.len(),
                    a@ == Val::Array(crate::tree::value::items_view(x@)),
                    b@ == Val::Array(crate::tree::value::items_view(y@)),
                    crate::tree::value::items_view(x@).len() == x@.len(),
                    crate::tree::value::items_view(y@).len() == y@.len(),
                    forall|j: int| 0 <= j < x@.len() ==> #[trigger] crate::tree::value::items_view(x@)[j] == x@[j]@,
                    forall|j: int| 0 <= j < y@.len() ==> #[trigger] crate::tree::value::items_view(y@)[j] == y@[j]@,
                    forall|j: int| 0 <= j < i ==> (#[trigger] x@[j])@ == y@[j]@,
                decreases x@.len() - i,
            {
                proof {
                    assert(decreases_to!(a@ => a@->Array_0));
                    assert(decreases_to!(a@->Array_0 => a@->Array_0[i as int]));
                }
                if !same_val(&x[i], &y[i]) {
                    proof {
                        assert(crate::tree::value::items_view(x@)[i as int] != crate::tree::value::items_view(y@)[i as int]);
                    }
                    return false;
                }
                i = i + 1;
            }
            proof {
                assert(crate::tree::value::items_view(x@) =~= crate::tree::value::items_view(y@));
            }
            true
        },
        (Value::Object(x), Value::Object(y)) => {
            if x.len() != y.len() {
                return false;
            }
            let mut i: usize = 0;
            while i < x.len()
                invariant
                    i <= x@.len(),
                    x@.len() == y@.len(),
                    a@ == Val::Object(x@),
                    b@ == Val::Object(y@),
                    forall|j: int| 0 <= j < i ==> #[trigger] x@[j] == y@[j],
                decreases x@.len() - i,
            {
                let k1 = x.key_at(i);
                let k2 = y.key_at(i);
                if !str_eq(k1.as_str(), k2.as_str()) {
                    return false;
                }
                let v1 = x.value_at(i);
                let v2 = y.value_at(i);
                proof {
                    assert(decreases_to!(a@ => a@->Object_0));
                    assert(decreases_to!(a@->Object_0 => a@->Object_0[i as int]));
                    assert(decreases_to!(a@->Object_0[i as int] => a@->Object_0[i as int].1));
                }
                if !same_val(v1, v2) {
                    return false;
                }
                i = i + 1;
            }
            proof {
                assert(x@ =~= y@);
            }
            true
        },
        _ => false,
    }
}

// ── the plan ────────────────────────────────────────────────────────

/// One step of saving a table over the table as it was read.
#[derive(Debug)]
pub enum MergeStep {
    /// Drop the entry with this key.
    Remove(String),
    /// Keep the entry with this key as it was read.
    Keep(String),
    /// Write this item under the key, in place of what was there.
    Replace(String, TomlItem),
    /// Both sides hold a table under the key: apply these steps to it.
    Descend(String, Vec<MergeStep>),
}

/// The view of a merge step.
pub enum StepView {
    Remove(Seq<char>),
    Keep(Seq<char>),
    Replace(Seq<char>, TItem),
    Descend(Seq<char>, Seq<StepView>),
}

/// The view of a merge step.
pub open spec fn step_view(s: MergeStep) -> StepView
    decreases s,
{
    match s {
        MergeStep::Remove(k) => StepView::Remove(k@),
        MergeStep::Keep(k) => StepView::Keep(k@),
        MergeStep::Replace(k, it) => StepView::Replace(k@, titem(it)),
        MergeStep::Descend(k, sub) => {
            proof {
                assert(decreases_to!(s => sub));
                assert(decreases_to!(sub => sub@));
            }
            StepView::Descend(k@, steps_view(sub@))
        },
    }
}

/// The views of a sequence of merge steps.
pub open spec fn steps_view(ss: Seq<MergeStep>) -> Seq<StepView>
    decreases ss,
{
    if ss.len() == 0 {
        seq![]
    } else {
        proof {
            assert(decreases_to!(ss => ss.drop_last()));
            assert(decreases_to!(ss => ss[ss.len() - 1]));
        }
        steps_view(ss.drop_last()).push(step_view(ss[ss.len() - 1]))
    }
}

proof fn lemma_steps_view(ss: Seq<MergeStep>)
    ensures
        steps_view(ss).len() == ss.len(),
        forall|i: int| 0 <= i < ss.len() ==> #[trigger] steps_view(ss)[i] == step_view(ss[i]),
    decreases ss.len(),
{
    if ss.len() > 0 {
        lemma_steps_view(ss.drop_last());
    }
}

/// The item under key `k` (its first entry), if any.
pub open spec fn item_at(t: Seq<(Seq<char>, TItem)>, k: Seq<char>) -> Option<TItem> {
    match pos_of(t, k) {
        Some(i) => Some(t[i].1),
        None => None,
    }
}

/// The removals: one per entry read whose key the fresh table lacks.
pub open spec fn removals(old: Seq<(Seq<char>, TItem)>, fresh: Seq<(Seq<char>, TItem)>) -> Seq<StepView>
    decreases old.len(),
{
    if old.len() == 0 {
        seq![]
    } else {
        let r = removals(old.drop_last(), fresh);
        if pos_of(fresh, old.last().0) is None {
            r.push(StepView::Remove(old.last().0))
        } else {
            r
        }
    }
}

/// The step for fresh entry `(k, item)`: keep what was read when it reads
/// as the same value, descend when both are tables, replace otherwise.
pub open spec fn entry_step(old: Seq<(Seq<char>, TItem)>, k: Seq<char>, item: TItem) -> StepView
    decreases item,
{
    match item_at(old, k) {
        Some(o) => if titem_to_val(o) == titem_to_val(item) {
            StepView::Keep(k)
        } else {
            match (o, item) {
                (TItem::Table(os), TItem::Table(fs)) => {
                    proof {
                        assert(decreases_to!(item => fs));
                    }
                    StepView::Descend(k, removals(os, fs) + entry_steps(os, fs))
                },
                _ => StepView::Replace(k, item),
            }
        },
        None => StepView::Replace(k, item),
    }
}

/// The steps for the fresh entries, in order.
pub open spec fn entry_steps(old: Seq<(Seq<char>, TItem)>, fresh: Seq<(Seq<char>, TItem)>) -> Seq<StepView>
    decreases fresh,
{
    if fresh.len() == 0 {
        seq![]
    } else {
        proof {
            assert(decreases_to!(fresh => fresh.drop_last()));
            assert(decreases_to!(fresh => fresh[fresh.len() - 1]));
            assert(decreases_to!(fresh[fresh.len() - 1] => fresh[fresh.len() - 1].1));
        }
        entry_steps(old, fresh.drop_last()).push(entry_step(old, fresh.last().0, fresh.last().1))
    }
}

/// The plan: the removals, then one step per fresh entry.
pub open spec fn plan_of(old: Seq<(Seq<char>, TItem)>, fresh: Seq<(Seq<char>, TItem)>) -> Seq<StepView> {
    removals(old, fresh) + entry_steps(old, fresh)
}

/// `r` is the plan for saving `fresh` over `old`.
pub open spec fn merge_plan_ok(old: Seq<(String, TomlItem)>, fresh: Seq<(String, TomlItem)>, r: Seq<MergeStep>) -> bool {
    steps_view(r) == plan_of(table_view(old), table_view(fresh))
}

/// The entry that a step other than a removal gives.
pub open spec fn step_entry(old: Seq<(Seq<char>, TItem)>, step: StepView) -> (Seq<char>, TItem)
    decreases step,
{
    match step {
        StepView::Keep(k) => (k, match item_at(old, k) {
            Some(o) => o,
            None => TItem::Absent,
        }),
        StepView::Replace(k, it) => (k, it),
        StepView::Descend(k, sub) => (k, TItem::Table(apply_steps(match item_at(old, k) {
            Some(TItem::Table(os)) => os,
            _ => seq![],
        }, sub))),
        StepView::Remove(k) => (k, TItem::Absent),
    }
}

/// The table that applying the steps to `old` gives: removals drop entries,
/// and each other step gives one entry, in order.
pub open spec fn apply_steps(old: Seq<(Seq<char>, TItem)>, steps: Seq<StepView>) -> Seq<(Seq<char>, TItem)>
    decreases steps,
{
    if steps.len() == 0 {
        seq![]
    } else {
        proof {
            assert(decreases_to!(steps => steps.drop_last()));
            assert(decreases_to!(steps => steps[steps.len() - 1]));
        }
        let r = apply_steps(old, steps.drop_last());
        if steps.last() is Remove {
            r
        } else {
            r.push(step_entry(old, steps.last()))
        }
    }
}

// ── laws of the plan ────────────────────────────────────────────────

proof fn lemma_apply_concat(old: Seq<(Seq<char>, TItem)>, a: Seq<StepView>, b: Seq<StepView>)
    ensures
        apply_steps(old, a + b) == apply_steps(old, a) + apply_steps(old, b),
    decreases b.len(),
{
    if b.len() == 0 {
        assert(a + b =~= a);
        assert(apply_steps(old, a) + apply_steps(old, b) =~= apply_steps(old, a));
    } else {
        lemma_apply_concat(old, a, b.drop_last());
        assert((a + b).drop_last() =~= a + b.drop_last());
        assert((a + b).last() == b.last());
        if !(b.last() is Remove) {
            assert(apply_steps(old, a) + apply_steps(old, b.drop_last()).push(step_entry(old, b.last()))
                =~= (apply_steps(old, a) + apply_steps(old, b.drop_last())).push(step_entry(old, b.last())));
        }
    }
}

proof fn lemma_apply_removals(any: Seq<(Seq<char>, TItem)>, old: Seq<(Seq<char>, TItem)>, fresh: Seq<(Seq<char>, TItem)>)
    ensures
        apply_steps(any, removals(old, fresh)) == Seq::<(Seq<char>, TItem)>::empty(),
    decreases old.len(),
{
    if old.len() > 0 {
        lemma_apply_removals(any, old.drop_last(), fresh);
        let r = removals(old.drop_last(), fresh);
        if pos_of(fresh, old.last().0) is None {
            assert(r.push(StepView::Remove(old.last().0)).drop_last() =~= r);
        }
    }
}

proof fn lemma_pairs(es: Seq<(Seq<char>, TItem)>)
    ensures
        titems_to_pairs(es).len() == es.len(),
        forall|i: int|
            0 <= i < es.len() ==> #[trigger] titems_to_pairs(es)[i] == (es[i].0, titem_to_val(es[i].1)),
    decreases es.len(),
{
    if es.len() > 0 {
        lemma_pairs(es.drop_last());
    }
}

proof fn lemma_entry_steps(old: Seq<(Seq<char>, TItem)>, fresh: Seq<(Seq<char>, TItem)>)
    ensures
        entry_steps(old, fresh).len() == fresh.len(),
        forall|i: int|
            0 <= i < fresh.len() ==> #[trigger] entry_steps(old, fresh)[i] == entry_step(old, fresh[i].0, fresh[i].1),
    decreases fresh.len(),
{
    if fresh.len() > 0 {
        lemma_entry_steps(old, fresh.drop_last());
    }
}

/// The entry a fresh entry's step gives has its key and reads as its value.
proof fn lemma_entry_reads(old: Seq<(Seq<char>, TItem)>, k: Seq<char>, item: TItem)
    ensures
        !(entry_step(old, k, item) is Remove),
        step_entry(old, entry_step(old, k, item)).0 == k,
        titem_to_val(step_entry(old, entry_step(old, k, item)).1) == titem_to_val(item),
    decreases item, 0int,
{
    match item_at(old, k) {
        Some(o) => {
            if titem_to_val(o) != titem_to_val(item) {
                match (o, item) {
                    (TItem::Table(os), TItem::Table(fs)) => {
                        assert(decreases_to!(item => fs));
                        law_plan_reads_as_fresh(os, fs);
                    },
                    _ => {},
                }
            }
        },
        None => {},
    }
}

proof fn lemma_entry_steps_apply(old: Seq<(Seq<char>, TItem)>, fresh: Seq<(Seq<char>, TItem)>)
    ensures
        apply_steps(old, entry_steps(old, fresh)).len() == fresh.len(),
        forall|i: int| 0 <= i < fresh.len() ==> (#[trigger] apply_steps(old, entry_steps(old, fresh))[i]).0
            == fresh[i].0 && titem_to_val(apply_steps(old, entry_steps(old, fresh))[i].1)
            == titem_to_val(fresh[i].1),
    decreases fresh, 0int,
{
    if fresh.len() > 0 {
        let init = fresh.drop_last();
        assert(decreases_to!(fresh => init));
        lemma_entry_steps_apply(old, init);
        let steps = entry_steps(old, fresh);
        assert(steps.drop_last() =~= entry_steps(old, init));
        assert(decreases_to!(fresh => fresh[fresh.len() - 1]));
        assert(decreases_to!(fresh[fresh.len() - 1] => fresh[fresh.len() - 1].1));
        lemma_entry_reads(old, fresh.last().0, fresh.last().1);
        assert forall|i: int| 0 <= i < fresh.len() implies (#[trigger] apply_steps(old, steps)[i]).0
            == fresh[i].0 && titem_to_val(apply_steps(old, steps)[i].1) == titem_to_val(fresh[i].1) by {
            if i < init.len() {
                assert(init[i] == fresh[i]);
            }
        }
    }
}

/// Applying the plan to the table as it was read gives a table that reads,
/// key for key and in order, as the freshly written one.
pub proof fn law_plan_reads_as_fresh(old: Seq<(Seq<char>, TItem)>, fresh: Seq<(Seq<char>, TItem)>)
    ensures
        titems_to_pairs(apply_steps(old, plan_of(old, fresh))) == titems_to_pairs(fresh),
        titem_to_val(TItem::Table(apply_steps(old, plan_of(old, fresh))))
            == titem_to_val(TItem::Table(fresh)),
    decreases fresh, 1int,
{
    lemma_apply_concat(old, removals(old, fresh), entry_steps(old, fresh));
    lemma_apply_removals(old, old, fresh);
    assert(Seq::<(Seq<char>, TItem)>::empty() + apply_steps(old, entry_steps(old, fresh))
        =~= apply_steps(old, entry_steps(old, fresh)));
    lemma_entry_steps_apply(old, fresh);
    let a = apply_steps(old, plan_of(old, fresh));
    lemma_pairs(a);
    lemma_pairs(fresh);
    assert(titems_to_pairs(a) =~= titems_to_pairs(fresh));
}

/// Every fresh entry whose value reads as what was read under its key is
/// kept as it was read.
pub proof fn law_unchanged_entries_kept(old: Seq<(Seq<char>, TItem)>, fresh: Seq<(Seq<char>, TItem)>)
    ensures
        plan_of(old, fresh).len() == removals(old, fresh).len() + fresh.len(),
        forall|i: int|
            #![trigger fresh[i]]
            0 <= i < fresh.len() && (item_at(old, fresh[i].0) matches Some(o) && titem_to_val(o)
                == titem_to_val(fresh[i].1)) ==> plan_of(old, fresh)[removals(old, fresh).len() + i]
                == StepView::Keep(fresh[i].0),
{
    lemma_entry_steps(old, fresh);
}

// ── computing the plan ──────────────────────────────────────────────

/// The position of the first entry with key `k`.
fn find_key(t: &Vec<(String, TomlItem)>, k: &str) -> (r: Option<usize>)
    ensures
        r matches Some(i) ==> pos_of(table_view(t@), k@) == Some(i as int) && i < t@.len(),
        r is None ==> pos_of(table_view(t@), k@) is None,
{
    proof {
        lemma_table_view(t@);
    }
    let mut i: usize = 0;
    while i < t.len()
        invariant
            i <= t@.len(),
            table_view(t@).len() == t@.len(),
            forall|j: int| 0 <= j < t@.len() ==> #[trigger] table_view(t@)[j] == (t@[j].0@, titem(t@[j].1)),
            forall|j: int| 0 <= j < i ==> t@[j].0@ != k@,
        decreases t@.len() - i,
    {
        if str_eq(t[i].0.as_str(), k) {
            proof {
                assert(first_at(table_view(t@), k@, i as int));
                lemma_first_at_unique(table_view(t@), k@, i as int);
            }
            return Some(i);
        }
        i = i + 1;
    }
    proof {
        lemma_absent(table_view(t@), k@);
    }
    None
}

/// The step for the fresh entry `(k, item)` (see [`entry_step`]).
fn entry_step_exec(old: &Vec<(String, TomlItem)>, k: &String, item: &TomlItem) -> (r: MergeStep)
    ensures
        step_view(r) == entry_step(table_view(old@), k@, titem(*item)),
    decreases item,
{
    proof {
        lemma_table_view(old@);
    }
    match find_key(old, k.as_str()) {
        Some(i) => {
            proof {
                assert(table_view(old@)[i as int] == (old@[i as int].0@, titem(old@[i as int].1)));
            }
            let a = item_to_value(&old[i].1);
            let b = item_to_value(item);
            if same_val(&a, &b) {
                MergeStep::Keep(clone_str(k))
            } else {
                match (&old[i].1, item) {
                    (TomlItem::Table(os), TomlItem::Table(fs)) => {
                        proof {
                            assert(decreases_to!(*item => item->Table_0));
                            assert(decreases_to!(item->Table_0 => item->Table_0@));
                        }
                        let sub = merge_plan(os, fs);
                        proof {
                            assert(titem(old@[i as int].1) == TItem::Table(table_view(os@)));
                            assert(titem(*item) == TItem::Table(table_view(fs@)));
                        }
                        let r = MergeStep::Descend(clone_str(k), sub);
                        proof {
                            assert(step_view(r) == StepView::Descend(k@, steps_view(sub@)));
                        }
                        r
                    },
                    _ => {
                        proof {
                            assert(!(titem(old@[i as int].1) is Table && titem(*item) is Table));
                        }
                        MergeStep::Replace(clone_str(k), clone_item(item))
                    },
                }
            }
        },
        None => MergeStep::Replace(clone_str(k), clone_item(item)),
    }
}

/// The plan for saving the freshly written table `fresh` over the table
/// `old` as it was read (see [`plan_of`], [`law_plan_reads_as_fresh`] and
/// [`law_unchanged_entries_kept`]).
pub fn merge_plan(old: &Vec<(String, TomlItem)>, fresh: &Vec<(String, TomlItem)>) -> (r: Vec<MergeStep>)
    ensures
        merge_plan_ok(old@, fresh@, r@),
    decreases fresh@,
{
    let ghost ov = table_view(old@);
    let ghost fv = table_view(fresh@);
    let mut r: Vec<MergeStep> = Vec::new();
    proof {
        lemma_table_view(old@);
        lemma_table_view(fresh@);
        assert(steps_view(r@) =~= removals(ov.take(0), fv));
    }
    let mut i: usize = 0;
    while i < old.len()
        invariant
            i <= old@.len(),
            ov == table_view(old@),
            fv == table_view(fresh@),
            ov.len() == old@.len(),
            forall|j: int| 0 <= j < old@.len() ==> #[trigger] ov[j] == (old@[j].0@, titem(old@[j].1)),
            steps_view(r@) == removals(ov.take(i as int), fv),
        decreases old@.len() - i,
    {
        let ghost before = r@;
        proof {
            assert(ov.take(i + 1).drop_last() =~= ov.take(i as int));
        }
        if find_key(fresh, old[i].0.as_str()).is_none() {
            r.push(MergeStep::Remove(clone_str(&old[i].0)));
            proof {
                lemma_steps_view(r@);
                lemma_steps_view(before);
                assert(steps_view(r@) =~= steps_view(before).push(StepView::Remove(old@[i as int].0@)));
            }
        }
        i = i + 1;
    }
    proof {
        assert(ov.take(old@.len() as int) =~= ov);
        assert(steps_view(r@) =~= removals(ov, fv) + entry_steps(ov, fv.take(0)));
    }
    let mut j: usize = 0;
    while j < fresh.len()
        invariant
            j <= fresh@.len(),
            ov == table_view(old@),
            fv == table_view(fresh@),
            fv.len() == fresh@.len(),
            forall|x: int| 0 <= x < fresh@.len() ==> #[trigger] fv[x] == (fresh@[x].0@, titem(fresh@[x].1)),
            steps_view(r@) == removals(ov, fv) + entry_steps(ov, fv.take(j as int)),
        decreases fresh@.len() - j,
    {
        proof {
            assert(decreases_to!(fresh@ => fresh@[j as int]));
            assert(decreases_to!(fresh@[j as int] => fresh@[j as int].1));
        }
        let step = entry_step_exec(old, &fresh[j].0, &fresh[j].1);
        let ghost before = r@;
        r.push(step);
        proof {
            lemma_steps_view(r@);
            lemma_steps_view(before);
            assert(steps_view(r@) =~= steps_view(before).push(step_view(step)));
            assert(fv.take(j + 1).drop_last() =~= fv.take(j as int));
            assert(steps_view(r@) =~= removals(ov, fv) + entry_steps(ov, fv.take(j + 1)));
        }
        j = j + 1;
    }
    proof {
        assert(fv.take(fresh@.len() as int) =~= fv);
    }
    r
}

} // verus!
