//! Tree view logic: the visible lines of the tree sidebar and the text
//! previews of values (no terminal drawing here).
//!
//! Floating-point numbers are held by their bit patterns; their decimal text
//! (what `Display` prints for the float) is handed in by the caller as a
//! closure from bits to text.

use vstd::prelude::*;

use crate::text::{decimal, i64_text, int_text, owned, push_str, string_from_chars, chars_of, u64_text};
use crate::theme::{utf8_len, utf8_len_exec, utf8_total};
use crate::tree::model::is_leaf_of;
use crate::tree::path::{path_view, paths_view, Path, PathSegment, Seg};
use crate::tree::value::{Val, Value};

verus! {

broadcast use crate::tree::value::group_value_view;

// ── float text ──────────────────────────────────────────────────────

/// Is the float with these bits finite with no fractional part
/// (`f.is_finite() && f.fract() == 0.0`)? Read off the IEEE-754 fields: the
/// biased exponent `e` and the 52-bit mantissa `m`.
pub open spec fn float_is_whole(b: u64) -> bool {
    let e = (b >> 52u64) & 0x7ffu64;
    let m = b & 0xf_ffff_ffff_ffffu64;
    if e == 0x7ffu64 {
        false
    } else if e >= 1075u64 {
        true
    } else if e < 1023u64 {
        e == 0u64 && m == 0u64
    } else {
        m & (((1u64 << ((1075u64 - e) as u64)) - 1u64) as u64) == 0u64
    }
}

/// Whether the float with these bits is whole (see [`float_is_whole`]).
pub fn float_bits_whole(b: u64) -> (r: bool)
    ensures
        r == float_is_whole(b),
{
    let e = (b >> 52u64) & 0x7ffu64;
    let m = b & 0xf_ffff_ffff_ffffu64;
    if e == 0x7ffu64 {
        false
    } else if e >= 1075u64 {
        true
    } else if e < 1023u64 {
        e == 0u64 && m == 0u64
    } else {
        let s: u64 = 1075u64 - e;
        assert(1u64 <= (1u64 << s)) by (bit_vector)
            requires
                s <= 52,
        ;
        m & ((1u64 << s) - 1u64) == 0u64
    }
}

/// The preview of a float whose decimal text is `t`: whole numbers get a
/// trailing `.0`.
pub open spec fn float_preview(b: u64, t: Seq<char>) -> Seq<char> {
    if float_is_whole(b) {
        t + ".0"@
    } else {
        t
    }
}

/// `s` is a preview of the float with bits `b`, built on text that `f` gives for it.
pub open spec fn float_preview_ok<F: Fn(u64) -> String>(f: F, b: u64, s: Seq<char>) -> bool {
    exists|t: String| #[trigger] f.ensures((b,), t) && s == float_preview(b, t@)
}

// ── string previews ─────────────────────────────────────────────────

/// How many leading characters of `s` fit in `n` bytes of UTF-8.
pub open spec fn fit(s: Seq<char>, n: int) -> nat
    decreases s.len(),
{
    if s.len() == 0 || n < utf8_len(s[0]) {
        0
    } else {
        1 + fit(s.drop_first(), n - utf8_len(s[0]))
    }
}

/// How many bytes those leading characters take.
pub open spec fn fit_bytes(s: Seq<char>, n: int) -> int
    decreases s.len(),
{
    if s.len() == 0 || n < utf8_len(s[0]) {
        0
    } else {
        utf8_len(s[0]) + fit_bytes(s.drop_first(), n - utf8_len(s[0]))
    }
}

/// The preview of a string: quoted, and cut to its first 47 bytes with `...`
/// when it is longer than 50 bytes.
pub open spec fn str_preview(s: Seq<char>) -> Seq<char> {
    if utf8_total(s) > 50 {
        "\""@ + s.take(fit(s, 47) as int) + "\"..."@
    } else {
        "\""@ + s + "\""@
    }
}

/// Previewing the value does not cut a string in the middle of a character
/// (slicing a string at a byte that is not a character boundary panics).
pub open spec fn preview_safe(v: Val) -> bool {
    match v {
        Val::Str(s) => utf8_total(s) > 50 ==> fit_bytes(s, 47) == 47,
        _ => true,
    }
}

/// `s` is the tree preview of `v`, floats being written with `f`.
pub open spec fn leaf_preview_ok<F: Fn(u64) -> String>(f: F, v: Val, s: Seq<char>) -> bool {
    match v {
        Val::Null => s == "null"@,
        Val::Bool(b) => s == if b {
            "true"@
        } else {
            "false"@
        },
        Val::Int(i) => s == int_text(i as int),
        Val::Float(b) => float_preview_ok(f, b, s),
        Val::Str(st) => s == str_preview(st),
        Val::Object(_) => s == "{...}"@,
        Val::Array(_) => s == "[...]"@,
    }
}

/// The float text `f` gives for any bits, and the preview built on it.
fn float_preview_exec<F: Fn(u64) -> String>(b: u64, float_text: &F) -> (r: String)
    requires
        forall|x: u64| #[trigger] float_text.requires((x,)),
    ensures
        float_preview_ok(*float_text, b, r@),
{
    let t = float_text(b);
    let ghost tv = t;
    if float_bits_whole(b) {
        let mut s = t;
        push_str(&mut s, ".0");
        s
    } else {
        t
    }
}

/// The number of UTF-8 bytes of `cs`, or `None` once it is known to exceed `limit`.
fn utf8_total_upto(cs: &Vec<char>, limit: u64) -> (r: Option<u64>)
    ensures
        match r {
            Some(n) => n == utf8_total(cs@) && n <= limit,
            None => utf8_total(cs@) > limit,
        },
{
    let mut total: u64 = 0;
    let mut j: usize = 0;
    while j < cs.len()
        invariant
            j <= cs@.len(),
            total == utf8_total(cs@.subrange(0, j as int)),
            total <= limit,
        decreases cs@.len() - j,
    {
        proof {
            assert(cs@.subrange(0, j + 1).drop_last() =~= cs@.subrange(0, j as int));
        }
        let l = utf8_len_exec(cs[j]);
        if l > limit - total {
            proof {
                lemma_utf8_total_prefix(cs@, j + 1);
            }
            return None;
        }
        total = total + l;
        j = j + 1;
    }
    proof {
        assert(cs@.subrange(0, j as int) =~= cs@);
    }
    Some(total)
}

pub(crate) proof fn lemma_utf8_total_prefix(s: Seq<char>, j: int)
    requires
        0 <= j <= s.len(),
    ensures
        utf8_total(s.subrange(0, j)) <= utf8_total(s),
    decreases s.len(),
{
    if j < s.len() {
        assert(s.drop_last().subrange(0, j) =~= s.subrange(0, j));
        lemma_utf8_total_prefix(s.drop_last(), j);
    } else {
        assert(s.subrange(0, j) =~= s);
    }
}

/// The number of leading characters that fit in `n` bytes, and their bytes.
pub(crate) fn fit_exec(cs: &Vec<char>, n: u64) -> (r: (usize, u64))
    ensures
        r.0 == fit(cs@, n as int),
        r.1 == fit_bytes(cs@, n as int),
        r.0 <= cs@.len(),
{
    let mut i: usize = 0;
    let mut used: u64 = 0;
    proof {
        assert(cs@.skip(0) =~= cs@);
    }
    while i < cs.len() && utf8_len_exec(cs[i]) <= n - used
        invariant
            i <= cs@.len(),
            used <= n,
            fit(cs@, n as int) == i + fit(cs@.skip(i as int), n - used),
            fit_bytes(cs@, n as int) == used + fit_bytes(cs@.skip(i as int), n - used),
        decreases cs@.len() - i,
    {
        proof {
            let t = cs@.skip(i as int);
            assert(t[0] == cs@[i as int]);
            assert(t.drop_first() =~= cs@.skip(i + 1));
        }
        used = used + utf8_len_exec(cs[i]);
        i = i + 1;
    }
    proof {
        let t = cs@.skip(i as int);
        if i < cs@.len() {
            assert(t[0] == cs@[i as int]);
        }
    }
    (i, used)
}

fn str_preview_exec(s: &str) -> (r: String)
    requires
        utf8_total(s@) > 50 ==> fit_bytes(s@, 47) == 47,
    ensures
        r@ == str_preview(s@),
{
    let cs = chars_of(s);
    match utf8_total_upto(&cs, 50) {
        Some(_) => {
            let mut r = owned("\"");
            push_str(&mut r, s);
            push_str(&mut r, "\"");
            r
        },
        None => {
            let (k, _) = fit_exec(&cs, 47);
            let mut hv: Vec<char> = Vec::new();
            let mut j: usize = 0;
            while j < k
                invariant
                    j <= k <= cs@.len(),
                    hv@ == cs@.take(j as int),
                decreases k - j,
            {
                hv.push(cs[j]);
                proof {
                    assert(cs@.take(j + 1) =~= cs@.take(j as int).push(cs@[j as int]));
                }
                j = j + 1;
            }
            let head = string_from_chars(hv.as_slice());
            let mut r = owned("\"");
            push_str(&mut r, head.as_str());
            push_str(&mut r, "\"...");
            proof {
                assert(head@ =~= s@.take(k as int));
            }
            r
        },
    }
}

/// Format a leaf value for tree display (containers show `{...}` or `[...]`).
pub fn format_leaf_preview<F: Fn(u64) -> String>(value: &Value, float_text: &F) -> (r: String)
    requires
        preview_safe(value@),
        forall|x: u64| #[trigger] float_text.requires((x,)),
    ensures
        leaf_preview_ok(*float_text, value@, r@),
{
    match value {
        Value::Null => owned("null"),
        Value::Bool(b) => if *b {
            owned("true")
        } else {
            owned("false")
        },
        Value::Int(i) => i64_text(*i),
        Value::Float(b) => float_preview_exec(*b, float_text),
        Value::String(s) => str_preview_exec(s.as_str()),
        Value::Object(_) => owned("{...}"),
        Value::Array(_) => owned("[...]"),
    }
}


// ── visible lines ───────────────────────────────────────────────────

/// A single visible line in the tree sidebar.
#[derive(Debug)]
pub struct TreeLine {
    /// Indentation depth (0 = root).
    pub depth: usize,
    /// The key label (e.g., "server", "[0]").
    pub key: String,
    /// A short summary of the value (e.g., "8080", "\"hello\"", "(2 keys)").
    pub value_summary: String,
    /// Whether this node's children are currently shown.
    pub is_expanded: bool,
    /// Whether this is a leaf node (string, int, float, bool, null).
    pub is_leaf: bool,
    /// The full path to this node in the tree.
    pub path: Path,
}

/// What a visible line shows, apart from its summary text: its label, its
/// path, whether it is expanded and whether it is a leaf, and the node itself.
pub struct RowView {
    pub key: Seq<char>,
    pub path: Seq<Seg>,
    pub is_expanded: bool,
    pub is_leaf: bool,
    pub node: Val,
}

/// The label of an array item.
pub open spec fn index_label(i: int) -> Seq<char> {
    "["@ + decimal(i as nat) + "]"@
}

/// The rows of node `v` (labelled `key`, at `path`): its own row, then, when
/// its path is expanded, the rows of its children in order.
pub open spec fn node_rows(v: Val, key: Seq<char>, path: Seq<Seg>, exp: Seq<Seq<Seg>>) -> Seq<RowView>
    decreases v,
{
    let row = RowView {
        key,
        path,
        is_expanded: exp.contains(path),
        is_leaf: is_leaf_of(v),
        node: v,
    };
    if exp.contains(path) {
        match v {
            Val::Object(es) => seq![row] + entry_rows(es, path, exp),
            Val::Array(a) => seq![row] + item_rows(a, path, exp),
            _ => seq![row],
        }
    } else {
        seq![row]
    }
}

/// The rows of the entries of an object at `path`.
pub open spec fn entry_rows(es: Seq<(Seq<char>, Val)>, path: Seq<Seg>, exp: Seq<Seq<Seg>>) -> Seq<RowView>
    decreases es,
{
    if es.len() == 0 {
        seq![]
    } else {
        proof {
            assert(decreases_to!(es => es.drop_last()));
            assert(decreases_to!(es => es[es.len() - 1]));
            assert(decreases_to!(es[es.len() - 1] => es[es.len() - 1].1));
        }
        entry_rows(es.drop_last(), path, exp) + node_rows(
            es[es.len() - 1].1,
            es[es.len() - 1].0,
            path.push(Seg::Key(es[es.len() - 1].0)),
            exp,
        )
    }
}

/// The rows of the items of an array at `path`.
pub open spec fn item_rows(a: Seq<Val>, path: Seq<Seg>, exp: Seq<Seq<Seg>>) -> Seq<RowView>
    decreases a,
{
    if a.len() == 0 {
        seq![]
    } else {
        proof {
            assert(decreases_to!(a => a.drop_last()));
            assert(decreases_to!(a => a[a.len() - 1]));
        }
        item_rows(a.drop_last(), path, exp) + node_rows(
            a[a.len() - 1],
            index_label(a.len() - 1),
            path.push(Seg::Index((a.len() - 1) as usize)),
            exp,
        )
    }
}

/// The rows of the whole tree: the root line, labelled `root`, and below it
/// whatever the expanded paths reveal.
#[verifier::opaque]
pub open spec fn visible_rows(tree: Val, exp: Seq<Seq<Seg>>) -> Seq<RowView> {
    node_rows(tree, "root"@, Seq::empty(), exp)
}

/// No row's preview cuts a string inside a character.
pub open spec fn rows_safe(rows: Seq<RowView>) -> bool {
    forall|i: int| 0 <= i < rows.len() ==> preview_safe(#[trigger] rows[i].node)
}

/// `s` is the summary shown for node `v`: the number of keys or items of a
/// container, the preview of a leaf.
pub open spec fn summary_ok<F: Fn(u64) -> String>(f: F, v: Val, s: Seq<char>) -> bool {
    match v {
        Val::Object(es) => s == "("@ + decimal(es.len()) + " keys)"@,
        Val::Array(a) => s == "["@ + decimal(a.len()) + " items]"@,
        _ => leaf_preview_ok(f, v, s),
    }
}

/// A line shows the row: depth, label, path, flags and summary.
pub open spec fn line_ok<F: Fn(u64) -> String>(f: F, line: TreeLine, row: RowView) -> bool {
    &&& line.depth == row.path.len()
    &&& line.key@ == row.key
    &&& path_view(line.path@) == row.path
    &&& line.is_expanded == row.is_expanded
    &&& line.is_leaf == row.is_leaf
    &&& summary_ok(f, row.node, line.value_summary@)
}

/// `lines` shows `rows`, line for row.
pub open spec fn lines_ok<F: Fn(u64) -> String>(f: F, lines: Seq<TreeLine>, rows: Seq<RowView>) -> bool {
    lines.len() == rows.len() && forall|i: int| 0 <= i < rows.len() ==> line_ok(f, #[trigger] lines[i], rows[i])
}

proof fn lemma_rows_safe_split(a: Seq<RowView>, b: Seq<RowView>)
    requires
        rows_safe(a + b),
    ensures
        rows_safe(a),
        rows_safe(b),
{
    assert forall|i: int| 0 <= i < a.len() implies preview_safe(#[trigger] a[i].node) by {
        assert((a + b)[i] == a[i]);
    }
    assert forall|i: int| 0 <= i < b.len() implies preview_safe(#[trigger] b[i].node) by {
        assert((a + b)[a.len() + i] == b[i]);
    }
}

proof fn lemma_entry_rows_step(es: Seq<(Seq<char>, Val)>, i: int, path: Seq<Seg>, exp: Seq<Seq<Seg>>)
    requires
        0 <= i < es.len(),
    ensures
        entry_rows(es.take(i + 1), path, exp) == entry_rows(es.take(i), path, exp) + node_rows(
            es[i].1,
            es[i].0,
            path.push(Seg::Key(es[i].0)),
            exp,
        ),
{
    assert(es.take(i + 1).drop_last() =~= es.take(i));
}

proof fn lemma_item_rows_step(a: Seq<Val>, i: int, path: Seq<Seg>, exp: Seq<Seq<Seg>>)
    requires
        0 <= i < a.len(),
    ensures
        item_rows(a.take(i + 1), path, exp) == item_rows(a.take(i), path, exp) + node_rows(
            a[i],
            index_label(i),
            path.push(Seg::Index(i as usize)),
            exp,
        ),
{
    assert(a.take(i + 1).drop_last() =~= a.take(i));
}

proof fn lemma_entry_rows_prefix(es: Seq<(Seq<char>, Val)>, i: int, path: Seq<Seg>, exp: Seq<Seq<Seg>>)
    requires
        0 <= i <= es.len(),
        rows_safe(entry_rows(es, path, exp)),
    ensures
        rows_safe(entry_rows(es.take(i), path, exp)),
    decreases es.len(),
{
    if i < es.len() {
        lemma_rows_safe_split(
            entry_rows(es.drop_last(), path, exp),
            node_rows(es[es.len() - 1].1, es[es.len() - 1].0, path.push(Seg::Key(es[es.len() - 1].0)), exp),
        );
        assert(es.drop_last().take(i) =~= es.take(i));
        lemma_entry_rows_prefix(es.drop_last(), i, path, exp);
    } else {
        assert(es.take(i) =~= es);
    }
}

proof fn lemma_item_rows_prefix(a: Seq<Val>, i: int, path: Seq<Seg>, exp: Seq<Seq<Seg>>)
    requires
        0 <= i <= a.len(),
        rows_safe(item_rows(a, path, exp)),
    ensures
        rows_safe(item_rows(a.take(i), path, exp)),
    decreases a.len(),
{
    if i < a.len() {
        lemma_rows_safe_split(
            item_rows(a.drop_last(), path, exp),
            node_rows(a[a.len() - 1], index_label(a.len() - 1), path.push(Seg::Index((a.len() - 1) as usize)), exp),
        );
        assert(a.drop_last().take(i) =~= a.take(i));
        lemma_item_rows_prefix(a.drop_last(), i, path, exp);
    } else {
        assert(a.take(i) =~= a);
    }
}

fn summary_exec<F: Fn(u64) -> String>(value: &Value, float_text: &F) -> (r: String)
    requires
        preview_safe(value@),
        forall|x: u64| #[trigger] float_text.requires((x,)),
    ensures
        summary_ok(*float_text, value@, r@),
{
    match value {
        Value::Object(map) => {
            let mut s = owned("(");
            push_str(&mut s, u64_text(map.len() as u64).as_str());
            push_str(&mut s, " keys)");
            s
        },
        Value::Array(arr) => {
            let mut s = owned("[");
            push_str(&mut s, u64_text(arr.len() as u64).as_str());
            push_str(&mut s, " items]");
            s
        },
        _ => format_leaf_preview(value, float_text),
    }
}

fn index_label_exec(i: usize) -> (r: String)
    ensures
        r@ == index_label(i as int),
{
    let mut s = owned("[");
    push_str(&mut s, u64_text(i as u64).as_str());
    push_str(&mut s, "]");
    s
}

/// Append the lines of `value` (labelled `key`, at `path`) to `lines`.
fn append_children<F: Fn(u64) -> String>(
    lines: &mut Vec<TreeLine>,
    key: &str,
    value: &Value,
    path: &Path,
    expanded: &[Path],
    float_text: &F,
)
    requires
        rows_safe(node_rows(value@, key@, path_view(path@), paths_view(expanded@))),
        forall|x: u64| #[trigger] float_text.requires((x,)),
    ensures
        final(lines)@.len() == old(lines)@.len() + node_rows(value@, key@, path_view(path@), paths_view(expanded@)).len(),
        final(lines)@.take(old(lines)@.len() as int) == old(lines)@,
        lines_ok(
            *float_text,
            final(lines)@.skip(old(lines)@.len() as int),
            node_rows(value@, key@, path_view(path@), paths_view(expanded@)),
        ),
    decreases value@,
{
    let ghost exp = paths_view(expanded@);
    let ghost pv = path_view(path@);
    let ghost start: int = lines@.len() as int;
    let ghost rows = node_rows(value@, key@, pv, exp);
    let is_expanded = crate::tree::path::contains_path(expanded, path.as_slice());
    proof {
        assert(rows[0].node == value@);
    }
    let summary = summary_exec(value, float_text);
    let line = TreeLine {
        depth: path.len(),
        key: owned(key),
        value_summary: summary,
        is_expanded,
        is_leaf: value.is_leaf(),
        path: crate::tree::path::clone_path(path.as_slice()),
    };
    lines.push(line);
    proof {
        assert(lines@.skip(start as int) =~= seq![line]);
    }
    if is_expanded {
        match value {
            Value::Object(map) => {
                let ghost es = map@;
                proof {
                    lemma_rows_safe_split(seq![rows[0]], entry_rows(es, pv, exp));
                    assert(es.take(0) =~= Seq::<(Seq<char>, Val)>::empty());
                }
                let mut i: usize = 0;
                while i < map.len()
                    invariant
                        i <= es.len(),
                        es == map@,
                        value@ == Val::Object(es),
                        exp == paths_view(expanded@),
                        pv == path_view(path@),
                        rows_safe(entry_rows(es, pv, exp)),
                        forall|x: u64| #[trigger] float_text.requires((x,)),
                        0 <= start,
                        lines@.len() == start + 1 + entry_rows(es.take(i as int), pv, exp).len(),
                        forall|j: int| 0 <= j < start ==> lines@[j] == old(lines)@[j],
                        line_ok(*float_text, lines@[start as int], rows[0]),
                        lines_ok(*float_text, lines@.skip(start as int + 1), entry_rows(es.take(i as int), pv, exp)),
                    decreases es.len() - i,
                {
                    let k = map.key_at(i);
                    let child = map.value_at(i);
                    let mut child_path = crate::tree::path::clone_path(path.as_slice());
                    child_path.push(PathSegment::Key(owned(k.as_str())));
                    let ghost before = lines@;
                    proof {
                        lemma_entry_rows_step(es, i as int, pv, exp);
                        lemma_entry_rows_prefix(es, i + 1, pv, exp);
                        lemma_rows_safe_split(entry_rows(es.take(i as int), pv, exp), node_rows(es[i as int].1, es[i as int].0, pv.push(Seg::Key(es[i as int].0)), exp));
                        assert(path_view(child_path@) =~= pv.push(Seg::Key(es[i as int].0)));
                        assert(decreases_to!(value@ => value@->Object_0));
                        assert(decreases_to!(es => es[i as int]));
                    }
                    append_children(lines, k.as_str(), child, &child_path, expanded, float_text);
                    proof {
                        let crow = node_rows(es[i as int].1, es[i as int].0, pv.push(Seg::Key(es[i as int].0)), exp);
                        let prev = entry_rows(es.take(i as int), pv, exp);
                        assert(lines@.len() == before.len() + crow.len());
                        assert(start < before.len());
                        assert(lines@.take(before.len() as int) == before);
                        assert(lines@[start as int] == lines@.take(before.len() as int)[start as int]);
                        assert forall|j: int| 0 <= j < prev.len() + crow.len() implies line_ok(*float_text, #[trigger] lines@.skip(start as int + 1)[j], (prev + crow)[j]) by {
                            if j < prev.len() {
                                assert(lines@.skip(start as int + 1)[j] == before.skip(start as int + 1)[j]);
                            } else {
                                assert(lines@.skip(start as int + 1)[j] == lines@.skip(before.len() as int)[j - prev.len()]);
                            }
                        }
                    }
                    i = i + 1;
                }
                proof {
                    assert(es.take(es.len() as int) =~= es);
                }
            },
            Value::Array(arr) => {
                let ghost a = arr@;
                let ghost items = crate::tree::value::items_view(a);
                proof {
                    lemma_rows_safe_split(seq![rows[0]], item_rows(items, pv, exp));
                    assert(items.take(0) =~= Seq::<Val>::empty());
                }
                let mut i: usize = 0;
                while i < arr.len()
                    invariant
                        i <= a.len(),
                        a == arr@,
                        items.len() == a.len(),
                        items == crate::tree::value::items_view(a),
                        value@ == Val::Array(items),
                        exp == paths_view(expanded@),
                        pv == path_view(path@),
                        rows_safe(item_rows(items, pv, exp)),
                        forall|x: u64| #[trigger] float_text.requires((x,)),
                        0 <= start,
                        lines@.len() == start + 1 + item_rows(items.take(i as int), pv, exp).len(),
                        forall|j: int| 0 <= j < start ==> lines@[j] == old(lines)@[j],
                        line_ok(*float_text, lines@[start as int], rows[0]),
                        lines_ok(*float_text, lines@.skip(start as int + 1), item_rows(items.take(i as int), pv, exp)),
                    decreases a.len() - i,
                {
                    let child = &arr[i];
                    let label = index_label_exec(i);
                    let mut child_path = crate::tree::path::clone_path(path.as_slice());
                    child_path.push(PathSegment::Index(i));
                    let ghost before = lines@;
                    proof {
                        lemma_item_rows_step(items, i as int, pv, exp);
                        lemma_item_rows_prefix(items, i + 1, pv, exp);
                        lemma_rows_safe_split(item_rows(items.take(i as int), pv, exp), node_rows(items[i as int], index_label(i as int), pv.push(Seg::Index(i)), exp));
                        assert(path_view(child_path@) =~= pv.push(Seg::Index(i)));
                        assert(items[i as int] == child@);
                        assert(decreases_to!(value@ => value@->Array_0));
                        assert(decreases_to!(items => items[i as int]));
                    }
                    append_children(lines, label.as_str(), child, &child_path, expanded, float_text);
                    proof {
                        let crow = node_rows(items[i as int], index_label(i as int), pv.push(Seg::Index(i)), exp);
                        let prev = item_rows(items.take(i as int), pv, exp);
                        assert(lines@.take(before.len() as int) == before);
                        assert(lines@[start as int] == lines@.take(before.len() as int)[start as int]);
                        assert forall|j: int| 0 <= j < prev.len() + crow.len() implies line_ok(*float_text, #[trigger] lines@.skip(start as int + 1)[j], (prev + crow)[j]) by {
                            if j < prev.len() {
                                assert(lines@.skip(start as int + 1)[j] == before.skip(start as int + 1)[j]);
                            } else {
                                assert(lines@.skip(start as int + 1)[j] == lines@.skip(before.len() as int)[j - prev.len()]);
                            }
                        }
                    }
                    i = i + 1;
                }
                proof {
                    assert(items.take(items.len() as int) =~= items);
                }
            },
            _ => {},
        }
    }
    proof {
        let new = lines@.skip(start as int);
        assert forall|j: int| 0 <= j < rows.len() implies line_ok(*float_text, #[trigger] new[j], rows[j]) by {
            if j > 0 {
                assert(new[j] == lines@.skip(start as int + 1)[j - 1]);
            }
        }
    }
}

/// A (path, is-leaf) pair describes the row.
pub open spec fn row_path_ok(x: (Path, bool), row: RowView) -> bool {
    path_view(x.0@) == row.path && x.1 == row.is_leaf
}

/// The pairs describe the rows, one for one.
pub open spec fn rows_paths_ok(xs: Seq<(Path, bool)>, rows: Seq<RowView>) -> bool {
    xs.len() == rows.len() && forall|i: int| 0 <= i < rows.len() ==> row_path_ok(#[trigger] xs[i], rows[i])
}

/// Append the paths and leaf flags of the rows of `value` (at `path`) to `lines`.
fn append_rows(
    lines: &mut Vec<(Path, bool)>,
    key: &str,
    value: &Value,
    path: &Path,
    expanded: &[Path],
)
    requires
    ensures
        final(lines)@.len() == old(lines)@.len() + node_rows(value@, key@, path_view(path@), paths_view(expanded@)).len(),
        final(lines)@.take(old(lines)@.len() as int) == old(lines)@,
        rows_paths_ok(
            final(lines)@.skip(old(lines)@.len() as int),
            node_rows(value@, key@, path_view(path@), paths_view(expanded@)),
        ),
    decreases value@,
{
    let ghost exp = paths_view(expanded@);
    let ghost pv = path_view(path@);
    let ghost start: int = lines@.len() as int;
    let ghost rows = node_rows(value@, key@, pv, exp);
    let is_expanded = crate::tree::path::contains_path(expanded, path.as_slice());
    let line = (crate::tree::path::clone_path(path.as_slice()), value.is_leaf());
    lines.push(line);
    proof {
        assert(lines@.skip(start as int) =~= seq![line]);
    }
    if is_expanded {
        match value {
            Value::Object(map) => {
                let ghost es = map@;
                proof {
                    assert(es.take(0) =~= Seq::<(Seq<char>, Val)>::empty());
                }
                let mut i: usize = 0;
                while i < map.len()
                    invariant
                        i <= es.len(),
                        es == map@,
                        value@ == Val::Object(es),
                        exp == paths_view(expanded@),
                        pv == path_view(path@),
                                                                        0 <= start,
                        lines@.len() == start + 1 + entry_rows(es.take(i as int), pv, exp).len(),
                        forall|j: int| 0 <= j < start ==> lines@[j] == old(lines)@[j],
                        row_path_ok(lines@[start as int], rows[0]),
                        rows_paths_ok(lines@.skip(start as int + 1), entry_rows(es.take(i as int), pv, exp)),
                    decreases es.len() - i,
                {
                    let k = map.key_at(i);
                    let child = map.value_at(i);
                    let mut child_path = crate::tree::path::clone_path(path.as_slice());
                    child_path.push(PathSegment::Key(owned(k.as_str())));
                    let ghost before = lines@;
                    proof {
                        lemma_entry_rows_step(es, i as int, pv, exp);
                        assert(path_view(child_path@) =~= pv.push(Seg::Key(es[i as int].0)));
                        assert(decreases_to!(value@ => value@->Object_0));
                        assert(decreases_to!(es => es[i as int]));
                    }
                    append_rows(lines, k.as_str(), child, &child_path, expanded);
                    proof {
                        let crow = node_rows(es[i as int].1, es[i as int].0, pv.push(Seg::Key(es[i as int].0)), exp);
                        let prev = entry_rows(es.take(i as int), pv, exp);
                        assert(lines@.len() == before.len() + crow.len());
                        assert(start < before.len());
                        assert(lines@.take(before.len() as int) == before);
                        assert(lines@[start as int] == lines@.take(before.len() as int)[start as int]);
                        assert forall|j: int| 0 <= j < prev.len() + crow.len() implies row_path_ok(#[trigger] lines@.skip(start as int + 1)[j], (prev + crow)[j]) by {
                            if j < prev.len() {
                                assert(lines@.skip(start as int + 1)[j] == before.skip(start as int + 1)[j]);
                            } else {
                                assert(lines@.skip(start as int + 1)[j] == lines@.skip(before.len() as int)[j - prev.len()]);
                            }
                        }
                    }
                    i = i + 1;
                }
                proof {
                    assert(es.take(es.len() as int) =~= es);
                }
            },
            Value::Array(arr) => {
                let ghost a = arr@;
                let ghost items = crate::tree::value::items_view(a);
                proof {
                    assert(items.take(0) =~= Seq::<Val>::empty());
                }
                let mut i: usize = 0;
                while i < arr.len()
                    invariant
                        i <= a.len(),
                        a == arr@,
                        items.len() == a.len(),
                        items == crate::tree::value::items_view(a),
                        value@ == Val::Array(items),
                        exp == paths_view(expanded@),
                        pv == path_view(path@),
                                                                        0 <= start,
                        lines@.len() == start + 1 + item_rows(items.take(i as int), pv, exp).len(),
                        forall|j: int| 0 <= j < start ==> lines@[j] == old(lines)@[j],
                        row_path_ok(lines@[start as int], rows[0]),
                        rows_paths_ok(lines@.skip(start as int + 1), item_rows(items.take(i as int), pv, exp)),
                    decreases a.len() - i,
                {
                    let child = &arr[i];
                    let label = index_label_exec(i);
                    let mut child_path = crate::tree::path::clone_path(path.as_slice());
                    child_path.push(PathSegment::Index(i));
                    let ghost before = lines@;
                    proof {
                        lemma_item_rows_step(items, i as int, pv, exp);
                        assert(path_view(child_path@) =~= pv.push(Seg::Index(i)));
                        assert(items[i as int] == child@);
                        assert(decreases_to!(value@ => value@->Array_0));
                        assert(decreases_to!(items => items[i as int]));
                    }
                    append_rows(lines, label.as_str(), child, &child_path, expanded);
                    proof {
                        let crow = node_rows(items[i as int], index_label(i as int), pv.push(Seg::Index(i)), exp);
                        let prev = item_rows(items.take(i as int), pv, exp);
                        assert(lines@.take(before.len() as int) == before);
                        assert(lines@[start as int] == lines@.take(before.len() as int)[start as int]);
                        assert forall|j: int| 0 <= j < prev.len() + crow.len() implies row_path_ok(#[trigger] lines@.skip(start as int + 1)[j], (prev + crow)[j]) by {
                            if j < prev.len() {
                                assert(lines@.skip(start as int + 1)[j] == before.skip(start as int + 1)[j]);
                            } else {
                                assert(lines@.skip(start as int + 1)[j] == lines@.skip(before.len() as int)[j - prev.len()]);
                            }
                        }
                    }
                    i = i + 1;
                }
                proof {
                    assert(items.take(items.len() as int) =~= items);
                }
            },
            _ => {},
        }
    }
    proof {
        let new = lines@.skip(start as int);
        assert forall|j: int| 0 <= j < rows.len() implies row_path_ok(#[trigger] new[j], rows[j]) by {
            if j > 0 {
                assert(new[j] == lines@.skip(start as int + 1)[j - 1]);
            }
        }
    }
}

/// Whether previewing the value is safe (see [`preview_safe`]).
pub fn preview_safe_exec(value: &Value) -> (r: bool)
    ensures
        r == preview_safe(value@),
{
    match value {
        Value::String(s) => {
            let cs = chars_of(s.as_str());
            match utf8_total_upto(&cs, 50) {
                Some(_) => true,
                None => {
                    let (_, used) = fit_exec(&cs, 47);
                    used == 47
                },
            }
        },
        _ => true,
    }
}

/// Whether the children of a container can all be previewed safely (see
/// [`children_safe`]).
pub fn children_safe_exec(value: &Value) -> (r: bool)
    ensures
        r == children_safe(value@),
{
    match value {
        Value::Object(map) => {
            let mut i: usize = 0;
            while i < map.len()
                invariant
                    i <= map@.len(),
                    value@ == Val::Object(map@),
                    forall|j: int| 0 <= j < i ==> preview_safe(#[trigger] map@[j].1),
                decreases map@.len() - i,
            {
                if !preview_safe_exec(map.value_at(i)) {
                    assert(value@->Object_0[i as int].1 == map@[i as int].1);
                    assert(!preview_safe(value@->Object_0[i as int].1));
                    return false;
                }
                i = i + 1;
            }
            true
        },
        Value::Array(arr) => {
            let ghost a = crate::tree::value::items_view(arr@);
            proof {
                crate::tree::value::lemma_items_view(arr@);
            }
            let mut i: usize = 0;
            while i < arr.len()
                invariant
                    i <= arr@.len(),
                    a == crate::tree::value::items_view(arr@),
                    a.len() == arr@.len(),
                    value@ == Val::Array(a),
                    forall|j: int| 0 <= j < arr@.len() ==> #[trigger] a[j] == arr@[j]@,
                    forall|j: int| 0 <= j < i ==> preview_safe(#[trigger] a[j]),
                decreases arr@.len() - i,
            {
                if !preview_safe_exec(&arr[i]) {
                    assert(value@->Array_0[i as int] == a[i as int]);
                    assert(!preview_safe(value@->Array_0[i as int]));
                    return false;
                }
                i = i + 1;
            }
            true
        },
        _ => true,
    }
}

/// A flag says whether the row can be previewed safely.
pub open spec fn row_safety_ok(x: bool, row: RowView) -> bool {
    x == preview_safe(row.node)
}

/// The flags describe the rows, one for one.
pub open spec fn rows_safety_ok(xs: Seq<bool>, rows: Seq<RowView>) -> bool {
    xs.len() == rows.len() && forall|i: int| 0 <= i < rows.len() ==> row_safety_ok(#[trigger] xs[i], rows[i])
}

/// Append whether each row of `value` (at `path`) can be previewed safely.
fn append_safety(
    lines: &mut Vec<bool>,
    key: &str,
    value: &Value,
    path: &Path,
    expanded: &[Path],
)
    requires
    ensures
        final(lines)@.len() == old(lines)@.len() + node_rows(value@, key@, path_view(path@), paths_view(expanded@)).len(),
        final(lines)@.take(old(lines)@.len() as int) == old(lines)@,
        rows_safety_ok(
            final(lines)@.skip(old(lines)@.len() as int),
            node_rows(value@, key@, path_view(path@), paths_view(expanded@)),
        ),
    decreases value@,
{
    let ghost exp = paths_view(expanded@);
    let ghost pv = path_view(path@);
    let ghost start: int = lines@.len() as int;
    let ghost rows = node_rows(value@, key@, pv, exp);
    let is_expanded = crate::tree::path::contains_path(expanded, path.as_slice());
    let line = preview_safe_exec(value);
    lines.push(line);
    proof {
        assert(lines@.skip(start as int) =~= seq![line]);
    }
    if is_expanded {
        match value {
            Value::Object(map) => {
                let ghost es = map@;
                proof {
                    assert(es.take(0) =~= Seq::<(Seq<char>, Val)>::empty());
                }
                let mut i: usize = 0;
                while i < map.len()
                    invariant
                        i <= es.len(),
                        es == map@,
                        value@ == Val::Object(es),
                        exp == paths_view(expanded@),
                        pv == path_view(path@),
                                                                        0 <= start,
                        lines@.len() == start + 1 + entry_rows(es.take(i as int), pv, exp).len(),
                        forall|j: int| 0 <= j < start ==> lines@[j] == old(lines)@[j],
                        row_safety_ok(lines@[start as int], rows[0]),
                        rows_safety_ok(lines@.skip(start as int + 1), entry_rows(es.take(i as int), pv, exp)),
                    decreases es.len() - i,
                {
                    let k = map.key_at(i);
                    let child = map.value_at(i);
                    let mut child_path = crate::tree::path::clone_path(path.as_slice());
                    child_path.push(PathSegment::Key(owned(k.as_str())));
                    let ghost before = lines@;
                    proof {
                        lemma_entry_rows_step(es, i as int, pv, exp);
                        assert(path_view(child_path@) =~= pv.push(Seg::Key(es[i as int].0)));
                        assert(decreases_to!(value@ => value@->Object_0));
                        assert(decreases_to!(es => es[i as int]));
                    }
                    append_safety(lines, k.as_str(), child, &child_path, expanded);
                    proof {
                        let crow = node_rows(es[i as int].1, es[i as int].0, pv.push(Seg::Key(es[i as int].0)), exp);
                        let prev = entry_rows(es.take(i as int), pv, exp);
                        assert(lines@.len() == before.len() + crow.len());
                        assert(start < before.len());
                        assert(lines@.take(before.len() as int) == before);
                        assert(lines@[start as int] == lines@.take(before.len() as int)[start as int]);
                        assert forall|j: int| 0 <= j < prev.len() + crow.len() implies row_safety_ok(#[trigger] lines@.skip(start as int + 1)[j], (prev + crow)[j]) by {
                            if j < prev.len() {
                                assert(lines@.skip(start as int + 1)[j] == before.skip(start as int + 1)[j]);
                            } else {
                                assert(lines@.skip(start as int + 1)[j] == lines@.skip(before.len() as int)[j - prev.len()]);
                            }
                        }
                    }
                    i = i + 1;
                }
                proof {
                    assert(es.take(es.len() as int) =~= es);
                }
            },
            Value::Array(arr) => {
                let ghost a = arr@;
                let ghost items = crate::tree::value::items_view(a);
                proof {
                    assert(items.take(0) =~= Seq::<Val>::empty());
                }
                let mut i: usize = 0;
                while i < arr.len()
                    invariant
                        i <= a.len(),
                        a == arr@,
                        items.len() == a.len(),
                        items == crate::tree::value::items_view(a),
                        value@ == Val::Array(items),
                        exp == paths_view(expanded@),
                        pv == path_view(path@),
                                                                        0 <= start,
                        lines@.len() == start + 1 + item_rows(items.take(i as int), pv, exp).len(),
                        forall|j: int| 0 <= j < start ==> lines@[j] == old(lines)@[j],
                        row_safety_ok(lines@[start as int], rows[0]),
                        rows_safety_ok(lines@.skip(start as int + 1), item_rows(items.take(i as int), pv, exp)),
                    decreases a.len() - i,
                {
                    let child = &arr[i];
                    let label = index_label_exec(i);
                    let mut child_path = crate::tree::path::clone_path(path.as_slice());
                    child_path.push(PathSegment::Index(i));
                    let ghost before = lines@;
                    proof {
                        lemma_item_rows_step(items, i as int, pv, exp);
                        assert(path_view(child_path@) =~= pv.push(Seg::Index(i)));
                        assert(items[i as int] == child@);
                        assert(decreases_to!(value@ => value@->Array_0));
                        assert(decreases_to!(items => items[i as int]));
                    }
                    append_safety(lines, label.as_str(), child, &child_path, expanded);
                    proof {
                        let crow = node_rows(items[i as int], index_label(i as int), pv.push(Seg::Index(i)), exp);
                        let prev = item_rows(items.take(i as int), pv, exp);
                        assert(lines@.take(before.len() as int) == before);
                        assert(lines@[start as int] == lines@.take(before.len() as int)[start as int]);
                        assert forall|j: int| 0 <= j < prev.len() + crow.len() implies row_safety_ok(#[trigger] lines@.skip(start as int + 1)[j], (prev + crow)[j]) by {
                            if j < prev.len() {
                                assert(lines@.skip(start as int + 1)[j] == before.skip(start as int + 1)[j]);
                            } else {
                                assert(lines@.skip(start as int + 1)[j] == lines@.skip(before.len() as int)[j - prev.len()]);
                            }
                        }
                    }
                    i = i + 1;
                }
                proof {
                    assert(items.take(items.len() as int) =~= items);
                }
            },
            _ => {},
        }
    }
    proof {
        let new = lines@.skip(start as int);
        assert forall|j: int| 0 <= j < rows.len() implies row_safety_ok(#[trigger] new[j], rows[j]) by {
            if j > 0 {
                assert(new[j] == lines@.skip(start as int + 1)[j - 1]);
            }
        }
    }
}

/// Whether every visible row can be previewed safely (the condition of
/// [`visible_lines`]).
pub fn visible_previews_safe(tree: &Value, expanded: &[Path]) -> (r: bool)
    ensures
        r == rows_safe(visible_rows(tree@, paths_view(expanded@))),
{
    proof {
        reveal(visible_rows);
    }
    let mut flags: Vec<bool> = Vec::new();
    let root: Path = Vec::new();
    proof {
        assert(path_view(root@) =~= Seq::<Seg>::empty());
    }
    append_safety(&mut flags, "root", tree, &root, expanded);
    proof {
        assert(flags@.skip(0) =~= flags@);
    }
    let ghost rows = visible_rows(tree@, paths_view(expanded@));
    let mut i: usize = 0;
    while i < flags.len()
        invariant
            i <= flags@.len(),
            rows_safety_ok(flags@, rows),
            rows == visible_rows(tree@, paths_view(expanded@)),
            forall|j: int| 0 <= j < i ==> preview_safe(#[trigger] rows[j].node),
        decreases flags@.len() - i,
    {
        assert(row_safety_ok(flags@[i as int], rows[i as int]));
        if !flags[i] {
            return false;
        }
        i = i + 1;
    }
    true
}

/// The paths and leaf flags of the visible rows, in order (the structure of
/// [`visible_lines`] without the summary texts).
pub fn visible_row_paths(tree: &Value, expanded: &[Path]) -> (r: Vec<(Path, bool)>)
    ensures
        rows_paths_ok(r@, visible_rows(tree@, paths_view(expanded@))),
{
    proof {
        reveal(visible_rows);
    }
    let mut lines: Vec<(Path, bool)> = Vec::new();
    let root: Path = Vec::new();
    proof {
        assert(path_view(root@) =~= Seq::<Seg>::empty());
    }
    append_rows(&mut lines, "root", tree, &root, expanded);
    proof {
        assert(lines@.skip(0) =~= lines@);
    }
    lines
}

/// Generate the flat list of visible tree lines from a value tree.
///
/// The root is always shown, labelled `root`; a node's children are shown
/// when its path is in `expanded` (and so are those of its shown children,
/// recursively). Containers are summarized by their number of keys or items,
/// leaves by their preview; `float_text` gives the decimal text of a float.
pub fn visible_lines<F: Fn(u64) -> String>(tree: &Value, expanded: &[Path], float_text: &F) -> (r: Vec<TreeLine>)
    requires
        rows_safe(visible_rows(tree@, paths_view(expanded@))),
        forall|x: u64| #[trigger] float_text.requires((x,)),
    ensures
        lines_ok(*float_text, r@, visible_rows(tree@, paths_view(expanded@))),
{
    proof {
        reveal(visible_rows);
    }
    let mut lines: Vec<TreeLine> = Vec::new();
    let root: Path = Vec::new();
    proof {
        assert(path_view(root@) =~= Seq::<Seg>::empty());
    }
    append_children(&mut lines, "root", tree, &root, expanded, float_text);
    proof {
        assert(lines@.skip(0) =~= lines@);
    }
    lines
}


// ── detailed view ───────────────────────────────────────────────────

/// The concatenation of text pieces, in order.
pub open spec fn join(parts: Seq<Seq<char>>) -> Seq<char>
    decreases parts.len(),
{
    if parts.len() == 0 {
        Seq::empty()
    } else {
        join(parts.drop_last()) + parts.last()
    }
}

/// A line of the detailed view of an object: key and preview.
pub open spec fn object_line(k: Seq<char>, p: Seq<char>) -> Seq<char> {
    "  "@ + k + ": "@ + p + "\n"@
}

/// A line of the detailed view of an array: index and preview.
pub open spec fn array_line(i: int, p: Seq<char>) -> Seq<char> {
    "  ["@ + decimal(i as nat) + "]: "@ + p + "\n"@
}

/// The children of a container can all be previewed safely.
pub open spec fn children_safe(v: Val) -> bool {
    &&& v is Object ==> forall|i: int|
        0 <= i < v->Object_0.len() ==> preview_safe(#[trigger] v->Object_0[i].1)
    &&& v is Array ==> forall|i: int| 0 <= i < v->Array_0.len() ==> preview_safe(#[trigger] v->Array_0[i])
}

/// `s` is the detailed view of `v` for the property panel: a string shows its
/// text, a container one line per child with the child's preview, other
/// leaves as in the tree.
pub open spec fn detailed_ok<F: Fn(u64) -> String>(f: F, v: Val, s: Seq<char>) -> bool {
    match v {
        Val::Str(st) => s == st,
        Val::Object(es) => exists|ps: Seq<Seq<char>>|
            ps.len() == es.len() && (forall|i: int|
                0 <= i < es.len() ==> leaf_preview_ok(f, es[i].1, #[trigger] ps[i])) && s == "{\n"@
                + join(Seq::new(es.len(), |i: int| object_line(es[i].0, ps[i]))) + "}"@,
        Val::Array(a) => exists|ps: Seq<Seq<char>>|
            ps.len() == a.len() && (forall|i: int|
                0 <= i < a.len() ==> leaf_preview_ok(f, a[i], #[trigger] ps[i])) && s == "[\n"@
                + join(Seq::new(a.len(), |i: int| array_line(i, ps[i]))) + "]"@,
        _ => leaf_preview_ok(f, v, s),
    }
}

/// Format a value for the property panel display.
pub fn format_value_detailed<F: Fn(u64) -> String>(value: &Value, float_text: &F) -> (r: String)
    requires
        preview_safe(value@),
        children_safe(value@),
        forall|x: u64| #[trigger] float_text.requires((x,)),
    ensures
        detailed_ok(*float_text, value@, r@),
{
    match value {
        Value::String(s) => owned(s.as_str()),
        Value::Object(map) => {
            let ghost es = map@;
            let mut out = owned("{\n");
            let ghost mut ps: Seq<Seq<char>> = Seq::empty();
            let mut i: usize = 0;
            proof {
                assert(Seq::new(0, |j: int| object_line(es[j].0, ps[j])) =~= Seq::<Seq<char>>::empty());
                assert(value@ == Val::Object(es));
                assert(children_safe(Val::Object(es)));
                assert(children_safe(value@));
                assert(value@ is Object);
                assert(value@->Object_0 == es);
                assert forall|j: int| 0 <= j < es.len() implies preview_safe(#[trigger] es[j].1) by {
                    assert(preview_safe(value@->Object_0[j].1));
                }
            }
            while i < map.len()
                invariant
                    i <= es.len(),
                    es == map@,
                    value@ == Val::Object(es),
                    forall|j: int| 0 <= j < es.len() ==> preview_safe(#[trigger] es[j].1),
                    forall|x: u64| #[trigger] float_text.requires((x,)),
                    ps.len() == i,
                    forall|j: int| 0 <= j < i ==> leaf_preview_ok(*float_text, es[j].1, #[trigger] ps[j]),
                    out@ == "{\n"@ + join(Seq::new(i as nat, |j: int| object_line(es[j].0, ps[j]))),
                decreases es.len() - i,
            {
                let k = map.key_at(i);
                let v = map.value_at(i);
                assert(preview_safe(es[i as int].1));
                let p = format_leaf_preview(v, float_text);
                let ghost old_ps = ps;
                push_str(&mut out, "  ");
                push_str(&mut out, k.as_str());
                push_str(&mut out, ": ");
                push_str(&mut out, p.as_str());
                push_str(&mut out, "\n");
                proof {
                    ps = ps.push(p@);
                    let now = Seq::new((i + 1) as nat, |j: int| object_line(es[j].0, ps[j]));
                    assert(now.drop_last() =~= Seq::new(i as nat, |j: int| object_line(es[j].0, old_ps[j])));
                    assert(now.last() == object_line(es[i as int].0, p@));
                    assert(out@ =~= "{\n"@ + join(now));
                }
                i = i + 1;
            }
            push_str(&mut out, "}");
            out
        },
        Value::Array(arr) => {
            let ghost a = crate::tree::value::items_view(arr@);
            let mut out = owned("[\n");
            let ghost mut ps: Seq<Seq<char>> = Seq::empty();
            let mut i: usize = 0;
            proof {
                assert(Seq::new(0, |j: int| array_line(j, ps[j])) =~= Seq::<Seq<char>>::empty());
                assert(value@ == Val::Array(a));
                assert(children_safe(Val::Array(a)));
                assert(children_safe(value@));
                assert(value@->Array_0 == a);
                assert forall|j: int| 0 <= j < a.len() implies preview_safe(#[trigger] a[j]) by {
                    assert(preview_safe(value@->Array_0[j]));
                }
            }
            while i < arr.len()
                invariant
                    i <= a.len(),
                    a.len() == arr@.len(),
                    a == crate::tree::value::items_view(arr@),
                    value@ == Val::Array(a),
                    forall|j: int| 0 <= j < a.len() ==> preview_safe(#[trigger] a[j]),
                    forall|x: u64| #[trigger] float_text.requires((x,)),
                    ps.len() == i,
                    forall|j: int| 0 <= j < i ==> leaf_preview_ok(*float_text, a[j], #[trigger] ps[j]),
                    out@ == "[\n"@ + join(Seq::new(i as nat, |j: int| array_line(j, ps[j]))),
                decreases a.len() - i,
            {
                let v = &arr[i];
                assert(preview_safe(a[i as int]));
                let p = format_leaf_preview(v, float_text);
                let ghost old_ps = ps;
                push_str(&mut out, "  [");
                push_str(&mut out, u64_text(i as u64).as_str());
                push_str(&mut out, "]: ");
                push_str(&mut out, p.as_str());
                push_str(&mut out, "\n");
                proof {
                    ps = ps.push(p@);
                    let now = Seq::new((i + 1) as nat, |j: int| array_line(j, ps[j]));
                    assert(now.drop_last() =~= Seq::new(i as nat, |j: int| array_line(j, old_ps[j])));
                    assert(now.last() == array_line(i as int, p@));
                    assert(out@ =~= "[\n"@ + join(now));
                }
                i = i + 1;
            }
            push_str(&mut out, "]");
            out
        },
        _ => format_leaf_preview(value, float_text),
    }
}

/// The first visible line is always the root, labelled `root`; when the root
/// is not expanded it is the only line.
pub proof fn law_root_row_first(tree: Val, exp: Seq<Seq<Seg>>)
    ensures
        visible_rows(tree, exp).len() >= 1,
        visible_rows(tree, exp)[0] == (RowView {
            key: "root"@,
            path: Seq::empty(),
            is_expanded: exp.contains(Seq::empty()),
            is_leaf: is_leaf_of(tree),
            node: tree,
        }),
        !exp.contains(Seq::empty()) ==> visible_rows(tree, exp).len() == 1,
{
    reveal(visible_rows);
}

} // verus!
