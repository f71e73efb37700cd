//! The editor's state and the decisions it takes on each command and key.
//!
//! Everything here is pure state manipulation: reading and writing files,
//! drawing and reading keys from the terminal happen outside the library, which
//! hands key presses in as [`Key`] values and performs the [`Action`]s returned.

use vstd::prelude::*;

use crate::history::{History, HistoryView};
use crate::parser::Format;
use crate::text::{owned, push_str, str_eq};
use crate::theme::{preset, preset_colors, preset_name, theme_colors, Rgb, Theme, PRESET_COUNT};
use crate::tree::model::{get_at, is_leaf_of};
use crate::tree::path::{clone_path, contains_path, path_view, paths_view, Path, PathSegment, Seg};
use crate::tree::value::{Val, Value};
use crate::widgets::{fit, fit_bytes, fit_exec, visible_row_paths, visible_rows, RowView};
use crate::editbuf::{at_boundary, char_range, lemma_boundary, lemma_fit_of_prefix, lemma_total_concat, utf8_size};
use crate::text::{chars_of, i64_of_text, i64_text, int_text, parse_i64, str_len, string_from_chars, trim, trimmed_chars};
use crate::history::{record_spec, redo_spec, undo_spec, valid_history};
use crate::plugins::{Plugin, PluginRegistry};
use crate::plugins::cargo_toml::CargoTomlPlugin;
use crate::tree::model::{child, lemma_get_at_push, delete_spec, insert_spec, rename_spec, set_spec, type_name_of};
use crate::tree::error::message_of;
use crate::tree::path::{child_of, parent_of, path_prefix, paths_equal};
use crate::text::{contains, decimal, lowercase_of, str_contains, to_lowercase, u64_text};
use crate::tree::value::{key_index, unit_result_view};
use crate::tree::value::result_view;
use crate::theme::{utf8_len, utf8_len_exec, utf8_total};

verus! {

broadcast use crate::tree::value::group_value_view;

/// The number of lines that a page holds, for paging and scrolling.
pub const PAGE: usize = 20;

/// Application state for the editor.
pub struct App {
    /// The config value tree.
    pub tree: Value,
    /// The format of the open file.
    pub format: Format,
    /// The name of the open file (shown in the status line).
    pub file_name: String,
    /// Index into the visible tree lines for the cursor position.
    pub cursor_index: usize,
    /// Paths that are expanded (objects/arrays whose children are shown).
    pub expanded: Vec<Path>,
    /// Vertical scroll offset in the tree sidebar.
    pub scroll_offset: usize,
    /// Property panel scroll offset.
    pub property_scroll: usize,
    /// A message shown in the status bar.
    pub status: String,
    /// Whether the tree has been modified since the last save.
    pub modified: bool,
    /// Whether the application should exit.
    pub should_quit: bool,
    /// Undo/redo history.
    pub history: History,
    /// Whether a leaf value is being edited inline.
    pub editing: bool,
    /// The path of the node being edited.
    pub edit_path: Path,
    /// The edit buffer.
    pub edit_buffer: String,
    /// Cursor position (a byte index) within the edit buffer.
    pub edit_cursor: usize,
    /// Whether a delete waits for confirmation.
    pub confirming_delete: bool,
    /// The path of the node pending delete confirmation.
    pub confirm_delete_path: Path,
    /// Whether the type of a new node is being chosen.
    pub inserting: bool,
    /// The container (object/array) the new node will be inserted into.
    pub insert_container_path: Path,
    /// Whether an object key is being renamed.
    pub renaming: bool,
    /// The path of the node being renamed.
    pub rename_path: Path,
    /// The rename buffer.
    pub rename_buffer: String,
    /// The node most recently cut, with the path it was cut from.
    pub clipboard: Option<(Path, Value)>,
    /// The index of the current theme among the presets.
    pub theme_index: usize,
    /// The current theme.
    pub theme: Theme,
    /// The name of the plugin active for the open file, if any.
    pub active_plugin: Option<String>,
    /// Whether the search query is being typed.
    pub searching: bool,
    /// The current search query.
    pub search_query: String,
    /// Paths of nodes matching the current search query.
    pub search_results: Vec<Path>,
    /// Index into `search_results` for the current match.
    pub search_index: usize,
    /// The plugins the editor knows.
    pub plugins: PluginRegistry<CargoTomlPlugin>,
}

/// The mathematical state of the editor.
pub struct AppView {
    pub tree: Val,
    pub format: Format,
    pub file_name: Seq<char>,
    pub cursor_index: usize,
    pub expanded: Seq<Seq<Seg>>,
    pub scroll_offset: usize,
    pub property_scroll: usize,
    pub status: Seq<char>,
    pub modified: bool,
    pub should_quit: bool,
    pub history: HistoryView,
    pub editing: bool,
    pub edit_path: Seq<Seg>,
    pub edit_buffer: Seq<char>,
    pub edit_cursor: usize,
    pub confirming_delete: bool,
    pub confirm_delete_path: Seq<Seg>,
    pub inserting: bool,
    pub insert_container_path: Seq<Seg>,
    pub renaming: bool,
    pub rename_path: Seq<Seg>,
    pub rename_buffer: Seq<char>,
    pub clipboard: Option<(Seq<Seg>, Val)>,
    pub theme_index: usize,
    pub theme_name: Seq<char>,
    pub theme_colors: Seq<Rgb>,
    pub active_plugin: Option<Seq<char>>,
    pub searching: bool,
    pub search_query: Seq<char>,
    pub search_results: Seq<Seq<Seg>>,
    pub search_index: usize,
    pub plugins: Seq<CargoTomlPlugin>,
}

impl View for App {
    type V = AppView;

    open spec fn view(&self) -> AppView {
        AppView {
            tree: self.tree@,
            format: self.format,
            file_name: self.file_name@,
            cursor_index: self.cursor_index,
            expanded: paths_view(self.expanded@),
            scroll_offset: self.scroll_offset,
            property_scroll: self.property_scroll,
            status: self.status@,
            modified: self.modified,
            should_quit: self.should_quit,
            history: self.history.view(),
            editing: self.editing,
            edit_path: path_view(self.edit_path@),
            edit_buffer: self.edit_buffer@,
            edit_cursor: self.edit_cursor,
            confirming_delete: self.confirming_delete,
            confirm_delete_path: path_view(self.confirm_delete_path@),
            inserting: self.inserting,
            insert_container_path: path_view(self.insert_container_path@),
            renaming: self.renaming,
            rename_path: path_view(self.rename_path@),
            rename_buffer: self.rename_buffer@,
            clipboard: match self.clipboard {
                Some((p, v)) => Some((path_view(p@), v@)),
                None => None,
            },
            theme_index: self.theme_index,
            theme_name: self.theme.name@,
            theme_colors: theme_colors(self.theme),
            active_plugin: match self.active_plugin {
                Some(s) => Some(s@),
                None => None,
            },
            searching: self.searching,
            search_query: self.search_query@,
            search_results: paths_view(self.search_results@),
            search_index: self.search_index,
            plugins: self.plugins.plugins(),
        }
    }
}

// ── navigation ──────────────────────────────────────────────────────

/// The visible rows of the editor's tree.
pub open spec fn rows_of(s: AppView) -> Seq<RowView> {
    visible_rows(s.tree, s.expanded)
}

/// The scroll offset that keeps `cursor` on screen, starting from `scroll`.
pub open spec fn scrolled(cursor: usize, scroll: usize) -> usize {
    if cursor < scroll {
        cursor
    } else if cursor >= scroll + PAGE {
        ((if cursor >= PAGE { cursor - PAGE } else { 0 }) + 1) as usize
    } else {
        scroll
    }
}

/// The path under the cursor: that of the row it is on, or the root path
/// when it is past the last row.
pub open spec fn cursor_path_of(s: AppView) -> Seq<Seg> {
    if s.cursor_index < rows_of(s).len() {
        rows_of(s)[s.cursor_index as int].path
    } else {
        Seq::empty()
    }
}

/// The last row index (0 when there are none).
pub open spec fn last_row(s: AppView) -> usize {
    if rows_of(s).len() == 0 {
        0
    } else {
        (rows_of(s).len() - 1) as usize
    }
}

/// `paths` without every occurrence of `p`.
pub open spec fn without(paths: Seq<Seq<Seg>>, p: Seq<Seg>) -> Seq<Seq<Seg>> {
    paths.filter(|q: Seq<Seg>| q != p)
}

impl App {
    /// The scroll offset can be moved a page down without overflowing.
    pub open spec fn scroll_fits(&self) -> bool {
        self.scroll_offset <= usize::MAX - PAGE
    }

    fn ensure_cursor_visible(&mut self)
        requires
            old(self).scroll_fits(),
        ensures
            final(self)@ == (AppView {
                scroll_offset: scrolled(old(self).cursor_index, old(self).scroll_offset),
                ..old(self)@
            }),
    {
        if self.cursor_index < self.scroll_offset {
            self.scroll_offset = self.cursor_index;
        } else if self.cursor_index >= self.scroll_offset + PAGE {
            self.scroll_offset = self.cursor_index.saturating_sub(PAGE).saturating_add(1);
        }
    }

    /// The number of visible rows.
    fn row_count(&self) -> (r: usize)
        ensures
            r == rows_of(self@).len(),
    {
        let rows = visible_row_paths(&self.tree, self.expanded.as_slice());
        rows.len()
    }

    /// Move the cursor up one visible line.
    pub fn cursor_up(&mut self)
        requires
            old(self).scroll_fits(),
        ensures
            ({
                let c = if old(self).cursor_index > 0 {
                    (old(self).cursor_index - 1) as usize
                } else {
                    old(self).cursor_index
                };
                final(self)@ == AppView {
                    cursor_index: c,
                    scroll_offset: scrolled(c, old(self).scroll_offset),
                    ..old(self)@
                }
            }),
    {
        if self.cursor_index > 0 {
            self.cursor_index = self.cursor_index - 1;
        }
        self.ensure_cursor_visible();
    }

    /// Move the cursor down one visible line.
    pub fn cursor_down(&mut self)
        requires
            old(self).scroll_fits(),
        ensures
            ({
                let c = if old(self).cursor_index < last_row(old(self)@) {
                    (old(self).cursor_index + 1) as usize
                } else {
                    old(self).cursor_index
                };
                final(self)@ == AppView {
                    cursor_index: c,
                    scroll_offset: scrolled(c, old(self).scroll_offset),
                    ..old(self)@
                }
            }),
    {
        let n = self.row_count();
        let max = n.saturating_sub(1);
        if self.cursor_index < max {
            self.cursor_index = self.cursor_index + 1;
        }
        self.ensure_cursor_visible();
    }

    /// Move the cursor to the top of the tree.
    pub fn cursor_home(&mut self)
        ensures
            final(self)@ == (AppView { cursor_index: 0, scroll_offset: 0, ..old(self)@ }),
    {
        self.cursor_index = 0;
        self.scroll_offset = 0;
    }

    /// Move the cursor to the bottom of the tree.
    pub fn cursor_end(&mut self)
        requires
            old(self).scroll_fits(),
        ensures
            final(self)@ == (AppView {
                cursor_index: last_row(old(self)@),
                scroll_offset: scrolled(last_row(old(self)@), old(self).scroll_offset),
                ..old(self)@
            }),
    {
        let n = self.row_count();
        self.cursor_index = n.saturating_sub(1);
        self.ensure_cursor_visible();
    }

    /// Move the cursor up by one page.
    pub fn cursor_page_up(&mut self)
        requires
            old(self).scroll_fits(),
        ensures
            ({
                let c = if old(self).cursor_index >= PAGE {
                    (old(self).cursor_index - PAGE) as usize
                } else {
                    0
                };
                final(self)@ == AppView {
                    cursor_index: c,
                    scroll_offset: scrolled(c, old(self).scroll_offset),
                    ..old(self)@
                }
            }),
    {
        let mut k: usize = 0;
        let ghost c0 = self.cursor_index;
        let ghost s0 = self@;
        while k < PAGE
            invariant
                k <= PAGE,
                self.cursor_index == if c0 >= k { c0 - k } else { 0 },
                self@ == (AppView { cursor_index: self.cursor_index, ..s0 }),
                self.scroll_fits(),
            decreases PAGE - k,
        {
            if self.cursor_index > 0 {
                self.cursor_index = self.cursor_index - 1;
            }
            k = k + 1;
        }
        self.ensure_cursor_visible();
    }

    /// Move the cursor down by one page.
    pub fn cursor_page_down(&mut self)
        requires
            old(self).scroll_fits(),
        ensures
            ({
                let m = last_row(old(self)@);
                let c = if old(self).cursor_index >= m {
                    old(self).cursor_index
                } else if old(self).cursor_index + PAGE <= m {
                    (old(self).cursor_index + PAGE) as usize
                } else {
                    m
                };
                final(self)@ == AppView {
                    cursor_index: c,
                    scroll_offset: scrolled(c, old(self).scroll_offset),
                    ..old(self)@
                }
            }),
    {
        let n = self.row_count();
        let max = n.saturating_sub(1);
        let ghost c0 = self.cursor_index;
        let ghost s0 = self@;
        let mut k: usize = 0;
        while k < PAGE
            invariant
                k <= PAGE,
                max == last_row(s0),
                self.cursor_index == if c0 >= max {
                    c0
                } else if c0 + k <= max {
                    (c0 + k) as usize
                } else {
                    max
                },
                self@ == (AppView { cursor_index: self.cursor_index, ..s0 }),
                self.scroll_fits(),
            decreases PAGE - k,
        {
            if self.cursor_index < max {
                self.cursor_index = self.cursor_index + 1;
            }
            k = k + 1;
        }
        self.ensure_cursor_visible();
    }
}


// ── expansion ───────────────────────────────────────────────────────

/// Every path of the subtree `v` at `p`, in pre-order (a node before its
/// children, children in order).
pub open spec fn node_paths(v: Val, p: Seq<Seg>) -> Seq<Seq<Seg>>
    decreases v,
{
    match v {
        Val::Object(es) => seq![p] + entry_paths(es, p),
        Val::Array(a) => seq![p] + item_paths(a, p),
        _ => seq![p],
    }
}

/// The paths of the subtrees of an object's entries.
pub open spec fn entry_paths(es: Seq<(Seq<char>, Val)>, p: Seq<Seg>) -> Seq<Seq<Seg>>
    decreases es,
{
    if es.len() == 0 {
        seq![]
    } else {
        proof {
            assert(decreases_to!(es => es.drop_last()));
            assert(decreases_to!(es => es[es.len() - 1]));
            assert(decreases_to!(es[es.len() - 1] => es[es.len() - 1].1));
        }
        entry_paths(es.drop_last(), p) + node_paths(es[es.len() - 1].1, p.push(Seg::Key(es[es.len() - 1].0)))
    }
}

/// The paths of the subtrees of an array's items.
pub open spec fn item_paths(a: Seq<Val>, p: Seq<Seg>) -> Seq<Seq<Seg>>
    decreases a,
{
    if a.len() == 0 {
        seq![]
    } else {
        proof {
            assert(decreases_to!(a => a.drop_last()));
            assert(decreases_to!(a => a[a.len() - 1]));
        }
        item_paths(a.drop_last(), p) + node_paths(a[a.len() - 1], p.push(Seg::Index((a.len() - 1) as usize)))
    }
}

/// `paths` without `p`, keeping the order of the others.
pub open spec fn remove_path(paths: Seq<Seq<Seg>>, p: Seq<Seg>) -> Seq<Seq<Seg>>
    decreases paths.len(),
{
    if paths.len() == 0 {
        paths
    } else if paths.last() == p {
        remove_path(paths.drop_last(), p)
    } else {
        remove_path(paths.drop_last(), p).push(paths.last())
    }
}

/// The expanded paths after toggling the node under the cursor: an expanded
/// node collapses, a collapsed container expands, a leaf stays as it is.
pub open spec fn toggled(s: AppView) -> Seq<Seq<Seg>> {
    let rows = rows_of(s);
    if s.cursor_index < rows.len() {
        let row = rows[s.cursor_index as int];
        if s.expanded.contains(row.path) {
            remove_path(s.expanded, row.path)
        } else if !row.is_leaf {
            s.expanded.push(row.path)
        } else {
            s.expanded
        }
    } else {
        s.expanded
    }
}

/// Push the views of `path`'s pre-order subtree paths.
fn collect_all_paths(value: &Value, parent: &Path, paths: &mut Vec<Path>)
    ensures
        paths_view(final(paths)@) == paths_view(old(paths)@) + node_paths(value@, path_view(parent@)),
    decreases value@,
{
    let ghost pv = path_view(parent@);
    let ghost start = paths_view(paths@);
    paths.push(clone_path(parent.as_slice()));
    proof {
        assert(paths_view(paths@) =~= start.push(pv));
    }
    match value {
        Value::Object(map) => {
            let ghost es = map@;
            let mut i: usize = 0;
            proof {
                assert(es.take(0) =~= Seq::<(Seq<char>, Val)>::empty());
            }
            while i < map.len()
                invariant
                    i <= es.len(),
                    es == map@,
                    value@ == Val::Object(es),
                    pv == path_view(parent@),
                    paths_view(paths@) == start + seq![pv] + entry_paths(es.take(i as int), pv),
                decreases es.len() - i,
            {
                let k = map.key_at(i);
                let child = map.value_at(i);
                let mut child_path = clone_path(parent.as_slice());
                child_path.push(PathSegment::Key(owned(k.as_str())));
                proof {
                    assert(path_view(child_path@) =~= pv.push(Seg::Key(es[i as int].0)));
                    assert(es.take(i + 1).drop_last() =~= es.take(i as int));
                    assert(decreases_to!(value@ => value@->Object_0));
                    assert(decreases_to!(es => es[i as int]));
                }
                collect_all_paths(child, &child_path, paths);
                i = i + 1;
            }
            proof {
                assert(es.take(es.len() as int) =~= es);
            }
        },
        Value::Array(arr) => {
            let ghost items = crate::tree::value::items_view(arr@);
            let mut i: usize = 0;
            proof {
                assert(items.take(0) =~= Seq::<Val>::empty());
            }
            while i < arr.len()
                invariant
                    i <= items.len(),
                    items.len() == arr@.len(),
                    items == crate::tree::value::items_view(arr@),
                    value@ == Val::Array(items),
                    pv == path_view(parent@),
                    paths_view(paths@) == start + seq![pv] + item_paths(items.take(i as int), pv),
                decreases items.len() - i,
            {
                let child = &arr[i];
                let mut child_path = clone_path(parent.as_slice());
                child_path.push(PathSegment::Index(i));
                proof {
                    assert(path_view(child_path@) =~= pv.push(Seg::Index(i)));
                    assert(items.take(i + 1).drop_last() =~= items.take(i as int));
                    assert(items[i as int] == child@);
                    assert(decreases_to!(value@ => value@->Array_0));
                    assert(decreases_to!(items => items[i as int]));
                }
                collect_all_paths(child, &child_path, paths);
                i = i + 1;
            }
            proof {
                assert(items.take(items.len() as int) =~= items);
            }
        },
        _ => {},
    }
}

/// Remove every copy of `path` from `paths`.
fn remove_all(paths: &mut Vec<Path>, path: &Path)
    ensures
        paths_view(final(paths)@) == remove_path(paths_view(old(paths)@), path_view(path@)),
{
    let mut kept: Vec<Path> = Vec::new();
    let ghost all = paths_view(paths@);
    let ghost p = path_view(path@);
    let mut old_paths: Vec<Path> = Vec::new();
    std::mem::swap(paths, &mut old_paths);
    proof {
        assert(all.take(0) =~= Seq::<Seq<Seg>>::empty());
    }
    let mut i: usize = 0;
    while i < old_paths.len()
        invariant
            i <= old_paths@.len(),
            all == paths_view(old_paths@),
            p == path_view(path@),
            paths_view(kept@) == remove_path(all.take(i as int), p),
        decreases old_paths@.len() - i,
    {
        proof {
            assert(all.take(i + 1).drop_last() =~= all.take(i as int));
            assert(all.take(i + 1).last() == path_view(old_paths@[i as int]@));
        }
        if !crate::tree::path::paths_equal(old_paths[i].as_slice(), path.as_slice()) {
            let ghost before = kept@;
            kept.push(clone_path(old_paths[i].as_slice()));
            proof {
                assert(paths_view(kept@) =~= paths_view(before).push(path_view(old_paths@[i as int]@)));
            }
        }
        i = i + 1;
    }
    proof {
        assert(all.take(all.len() as int) =~= all);
    }
    *paths = kept;
}

impl App {
    /// Is `path` expanded?
    fn is_expanded(&self, path: &Path) -> (r: bool)
        ensures
            r == self@.expanded.contains(path_view(path@)),
    {
        contains_path(self.expanded.as_slice(), path.as_slice())
    }

    /// Expand the node under the cursor if it is a collapsed container.
    pub fn expand(&mut self)
        ensures
            ({
                let rows = rows_of(old(self)@);
                let c = old(self).cursor_index as int;
                if c < rows.len() && !rows[c].is_leaf && !old(self)@.expanded.contains(rows[c].path) {
                    final(self)@ == AppView { expanded: old(self)@.expanded.push(rows[c].path), ..old(self)@ }
                } else {
                    final(self)@ == old(self)@
                }
            }),
    {
        let rows = visible_row_paths(&self.tree, self.expanded.as_slice());
        if self.cursor_index < rows.len() {
            let (p, leaf) = (&rows[self.cursor_index].0, rows[self.cursor_index].1);
            if !leaf && !self.is_expanded(p) {
                let ghost before = self.expanded@;
                self.expanded.push(clone_path(p.as_slice()));
                proof {
                    assert(paths_view(self.expanded@) =~= paths_view(before).push(path_view(p@)));
                }
            }
        }
    }

    /// Collapse the node under the cursor if it is expanded.
    pub fn collapse(&mut self)
        ensures
            ({
                let rows = rows_of(old(self)@);
                let c = old(self).cursor_index as int;
                if c < rows.len() && old(self)@.expanded.contains(rows[c].path) {
                    final(self)@ == AppView { expanded: remove_path(old(self)@.expanded, rows[c].path), ..old(self)@ }
                } else {
                    final(self)@ == old(self)@
                }
            }),
    {
        let rows = visible_row_paths(&self.tree, self.expanded.as_slice());
        if self.cursor_index < rows.len() {
            let p = &rows[self.cursor_index].0;
            if self.is_expanded(p) {
                remove_all(&mut self.expanded, p);
            }
        }
    }

    /// Toggle expand/collapse for the node under the cursor.
    pub fn toggle_expand(&mut self)
        ensures
            final(self)@ == (AppView { expanded: toggled(old(self)@), ..old(self)@ }),
    {
        let rows = visible_row_paths(&self.tree, self.expanded.as_slice());
        if self.cursor_index < rows.len() {
            let (p, leaf) = (&rows[self.cursor_index].0, rows[self.cursor_index].1);
            if self.is_expanded(p) {
                remove_all(&mut self.expanded, p);
            } else if !leaf {
                let ghost before = self.expanded@;
                self.expanded.push(clone_path(p.as_slice()));
                proof {
                    assert(paths_view(self.expanded@) =~= paths_view(before).push(path_view(p@)));
                }
            }
        }
    }

    /// Expand all nodes: every path of the tree, in pre-order.
    pub fn expand_all(&mut self)
        ensures
            final(self)@ == (AppView { expanded: node_paths(old(self)@.tree, Seq::empty()), ..old(self)@ }),
    {
        let mut paths: Vec<Path> = Vec::new();
        let root: Path = Vec::new();
        collect_all_paths(&self.tree, &root, &mut paths);
        proof {
            assert(paths_view(Seq::<Path>::empty()) =~= Seq::<Seq<Seg>>::empty());
            assert(path_view(root@) =~= Seq::<Seg>::empty());
            assert(paths_view(paths@) =~= node_paths(self@.tree, Seq::empty()));
        }
        self.expanded = paths;
    }

    /// Collapse all nodes, keeping the root expanded.
    pub fn collapse_all(&mut self)
        ensures
            final(self)@ == (AppView { expanded: seq![Seq::<Seg>::empty()], ..old(self)@ }),
    {
        let mut paths: Vec<Path> = Vec::new();
        let root: Path = Vec::new();
        proof {
            assert(path_view(root@) =~= Seq::<Seg>::empty());
        }
        paths.push(root);
        proof {
            assert(paths_view(paths@)[0] == path_view(root@));
            assert(paths_view(paths@) =~= seq![Seq::<Seg>::empty()]);
        }
        self.expanded = paths;
    }

    /// The path under the cursor (the root path when the cursor is past the last line).
    pub fn cursor_path(&self) -> (r: Path)
        ensures
            path_view(r@) == cursor_path_of(self@),
    {
        let rows = visible_row_paths(&self.tree, self.expanded.as_slice());
        if self.cursor_index < rows.len() {
            clone_path(rows[self.cursor_index].0.as_slice())
        } else {
            proof {
                assert(path_view(Seq::<PathSegment>::empty()) =~= Seq::<Seg>::empty());
            }
            Vec::new()
        }
    }

    /// The visible lines of the tree sidebar; `float_text` gives the decimal
    /// text of a float.
    pub fn compute_visible_lines<F: Fn(u64) -> String>(&self, float_text: &F) -> (r: Vec<crate::widgets::TreeLine>)
        requires
            crate::widgets::rows_safe(rows_of(self@)),
            forall|x: u64| #[trigger] float_text.requires((x,)),
        ensures
            crate::widgets::lines_ok(*float_text, r@, rows_of(self@)),
    {
        crate::widgets::visible_lines(&self.tree, self.expanded.as_slice(), float_text)
    }
}


// ── the edit buffer ─────────────────────────────────────────────────

/// The edit cursor, moved back to the end of the buffer when past it.
pub open spec fn clamped_cursor(s: AppView) -> int {
    if s.edit_cursor > utf8_total(s.edit_buffer) {
        utf8_total(s.edit_buffer) as int
    } else {
        s.edit_cursor as int
    }
}

/// The number of characters before the (clamped) edit cursor.
pub open spec fn cursor_chars(s: AppView) -> int {
    fit(s.edit_buffer, clamped_cursor(s)) as int
}

/// The edit cursor sits between two characters of the buffer (or past its end).
pub open spec fn cursor_ok(s: AppView) -> bool {
    s.editing ==> at_boundary(s.edit_buffer, s.edit_cursor as int)
}

/// The size in bytes of the character before the clamped cursor (0 at the start).
pub open spec fn prev_char_len(s: AppView) -> int {
    if cursor_chars(s) > 0 {
        utf8_len(s.edit_buffer[cursor_chars(s) - 1]) as int
    } else {
        0
    }
}

impl App {
    /// Insert a character at the edit cursor.
    pub fn edit_insert_char(&mut self, c: char)
        requires
            cursor_ok(old(self)@),
            utf8_total(old(self)@.edit_buffer) + 4 <= usize::MAX,
        ensures
            cursor_ok(final(self)@),
            !old(self).editing ==> final(self)@ == old(self)@,
            old(self).editing ==> ({
                let s = old(self)@;
                let k = cursor_chars(s);
                final(self)@ == AppView {
                    edit_buffer: s.edit_buffer.take(k).push(c) + s.edit_buffer.skip(k),
                    edit_cursor: (clamped_cursor(s) + utf8_len(c)) as usize,
                    ..s
                }
            }),
    {
        if !self.editing {
            return;
        }
        let ghost s = self@;
        let cs = chars_of(self.edit_buffer.as_str());
        let (k, used) = fit_exec(&cs, self.edit_cursor as u64);
        proof {
            lemma_cursor_fit(cs@, self.edit_cursor as int);
        }
        self.edit_cursor = used as usize;
        let mut nv = char_range(&cs, 0, k);
        nv.push(c);
        let mut rest = char_range(&cs, k, cs.len());
        nv.append(&mut rest);
        let ghost head = cs@.take(k as int).push(c);
        proof {
            assert(cs@.subrange(0, k as int) =~= cs@.take(k as int));
            assert(cs@.subrange(k as int, cs@.len() as int) =~= cs@.skip(k as int));
            assert(nv@ =~= head + cs@.skip(k as int));
            assert(nv@.take(k + 1) =~= head);
            assert(head.drop_last() =~= cs@.take(k as int));
            lemma_fit_of_prefix(nv@, k + 1);
        }
        self.edit_buffer = string_from_chars(nv.as_slice());
        self.edit_cursor = self.edit_cursor + utf8_len_exec(c) as usize;
    }

    /// Delete the character before the edit cursor (Backspace).
    pub fn edit_delete_before_cursor(&mut self)
        requires
            cursor_ok(old(self)@),
        ensures
            cursor_ok(final(self)@),
            !old(self).editing || old(self).edit_cursor == 0 ==> final(self)@ == old(self)@,
            old(self).editing && old(self).edit_cursor != 0 ==> ({
                let s = old(self)@;
                let k = cursor_chars(s);
                final(self)@ == AppView {
                    edit_buffer: if k > 0 {
                        s.edit_buffer.take(k - 1) + s.edit_buffer.skip(k)
                    } else {
                        s.edit_buffer
                    },
                    edit_cursor: (clamped_cursor(s) - prev_char_len(s)) as usize,
                    ..s
                }
            }),
    {
        if !self.editing || self.edit_cursor == 0 {
            return;
        }
        let ghost s = self@;
        let cs = chars_of(self.edit_buffer.as_str());
        let (k, used) = fit_exec(&cs, self.edit_cursor as u64);
        proof {
            lemma_cursor_fit(cs@, self.edit_cursor as int);
        }
        self.edit_cursor = used as usize;
        if k > 0 {
            let prev = utf8_len_exec(cs[k - 1]) as usize;
            let mut nv = char_range(&cs, 0, k - 1);
            let mut rest = char_range(&cs, k, cs.len());
            nv.append(&mut rest);
            proof {
                assert(cs@.take(k as int).drop_last() =~= cs@.take(k - 1));
                assert(cs@.take(k as int).last() == cs@[k - 1]);
                assert(cs@.subrange(0, k - 1) =~= cs@.take(k - 1));
                assert(cs@.subrange(k as int, cs@.len() as int) =~= cs@.skip(k as int));
                assert(nv@.take(k - 1) =~= cs@.take(k - 1));
                lemma_fit_of_prefix(nv@, k - 1);
            }
            self.edit_buffer = string_from_chars(nv.as_slice());
            self.edit_cursor = self.edit_cursor - prev;
        } else {
            proof {
                assert(cs@.take(0) =~= Seq::<char>::empty());
            }
        }
    }

    /// Delete the character at the edit cursor (Delete).
    pub fn edit_delete_at_cursor(&mut self)
        requires
            cursor_ok(old(self)@),
        ensures
            cursor_ok(final(self)@),
            !old(self).editing || old(self).edit_cursor >= utf8_total(old(self)@.edit_buffer)
                ==> final(self)@ == old(self)@,
            old(self).editing && old(self).edit_cursor < utf8_total(old(self)@.edit_buffer) ==> ({
                let s = old(self)@;
                let k = cursor_chars(s);
                final(self)@ == AppView {
                    edit_buffer: s.edit_buffer.take(k) + s.edit_buffer.skip(k + 1),
                    ..s
                }
            }),
    {
        if !self.editing {
            return;
        }
        let cs = chars_of(self.edit_buffer.as_str());
        let (k, _) = fit_exec(&cs, self.edit_cursor as u64);
        proof {
            lemma_cursor_fit(cs@, self.edit_cursor as int);
        }
        if k >= cs.len() {
            return;
        }
        let mut nv = char_range(&cs, 0, k);
        let mut rest = char_range(&cs, k + 1, cs.len());
        nv.append(&mut rest);
        proof {
            assert(cs@.subrange(0, k as int) =~= cs@.take(k as int));
            assert(cs@.subrange(k + 1, cs@.len() as int) =~= cs@.skip(k + 1));
            assert(nv@.take(k as int) =~= cs@.take(k as int));
            lemma_fit_of_prefix(nv@, k as int);
        }
        self.edit_buffer = string_from_chars(nv.as_slice());
    }
}

/// Where a boundary cursor falls: the fitting characters take the clamped
/// cursor's bytes, and all characters fit exactly when the cursor is at or
/// past the end.
proof fn lemma_cursor_fit(s: Seq<char>, n: int)
    requires
        0 <= n,
        at_boundary(s, n),
    ensures
        fit_bytes(s, n) == if n > utf8_total(s) { utf8_total(s) as int } else { n },
        utf8_total(s.take(fit(s, n) as int)) == fit_bytes(s, n),
        fit(s, n) <= s.len(),
        (fit(s, n) == s.len()) == (n >= utf8_total(s)),
        fit(s, if n > utf8_total(s) { utf8_total(s) as int } else { n }) == fit(s, n),
{
    crate::editbuf::lemma_fit_bytes_prefix(s, n);
    lemma_fit_of_prefix(s, s.len() as int);
    assert(s.take(s.len() as int) =~= s);
    if n > utf8_total(s) {
        lemma_fit_monotone_all(s, utf8_total(s) as int, n);
    } else {
        let k = fit(s, n) as int;
        if k < s.len() {
            lemma_total_concat(s.take(k), s.skip(k));
            assert(s.take(k) + s.skip(k) =~= s);
            crate::editbuf::lemma_total_front(s.skip(k));
        }
    }
}

/// The fitting characters take at most the budget.
proof fn lemma_fit_bytes_le(s: Seq<char>, n: int)
    ensures
        fit_bytes(s, n) <= if n > 0 { n } else { 0 },
    decreases s.len(),
{
    if s.len() > 0 && n >= utf8_len(s[0]) {
        lemma_fit_bytes_le(s.drop_first(), n - utf8_len(s[0]));
    }
}

proof fn lemma_fit_monotone_all(s: Seq<char>, n: int, m: int)
    requires
        n <= m,
        fit(s, n) == s.len(),
    ensures
        fit(s, m) == s.len(),
        fit_bytes(s, m) == fit_bytes(s, n),
    decreases s.len(),
{
    if s.len() > 0 {
        lemma_fit_monotone_all(s.drop_first(), n - utf8_len(s[0]), m - utf8_len(s[0]));
    }
}

proof fn lemma_utf8_total_bound(s: Seq<char>)
    ensures
        utf8_total(s) <= 4 * s.len(),
    decreases s.len(),
{
    if s.len() > 0 {
        lemma_utf8_total_bound(s.drop_last());
    }
}


// ── inline editing ──────────────────────────────────────────────────

/// The bits of negative zero.
pub open spec fn neg_zero_bits() -> u64 {
    0x8000_0000_0000_0000u64
}

/// The edit text of a float whose decimal text is `t`. Whole numbers below
/// 10^12 are edited as the integer they equal, which is their decimal text
/// except for negative zero (edited as `0`).
pub open spec fn float_edit_text(b: u64, t: Seq<char>) -> Seq<char> {
    if b == neg_zero_bits() {
        "0"@
    } else {
        t
    }
}

/// `buf` is the edit text of the float with bits `b`, built on text that `f` gives for it.
pub open spec fn float_edit_ok<F: Fn(u64) -> String>(f: F, b: u64, buf: Seq<char>) -> bool {
    exists|t: String| #[trigger] f.ensures((b,), t) && buf == float_edit_text(b, t@)
}

/// `buf` is the text that editing leaf `v` starts from.
pub open spec fn edit_text_ok<F: Fn(u64) -> String>(f: F, v: Val, buf: Seq<char>) -> bool {
    match v {
        Val::Str(st) => buf == st,
        Val::Int(i) => buf == int_text(i as int),
        Val::Float(b) => float_edit_ok(f, b, buf),
        _ => false,
    }
}

proof fn lemma_edit_text_float<F: Fn(u64) -> String>(f: F, b: u64, t: String)
    requires
        f.ensures((b,), t),
    ensures
        edit_text_ok(f, Val::Float(b), float_edit_text(b, t@)),
{
    assert(f.ensures((b,), t) && float_edit_text(b, t@) == float_edit_text(b, t@));
}

/// The state after starting to edit the node under the cursor: booleans
/// toggle at once (recorded for undo), null cannot be edited, containers are
/// left alone, other leaves open the edit buffer with the cursor at its end.
pub open spec fn start_edit_ok<F: Fn(u64) -> String>(f: F, s: AppView, t: AppView) -> bool {
    let p = cursor_path_of(s);
    if s.editing || p.len() == 0 {
        t == s
    } else {
        match get_at(s.tree, p) {
            None => t == s,
            Some(Val::Bool(b)) => {
                let (nt, r) = set_spec(s.tree, p, Val::Bool(!b));
                t == AppView {
                    history: record_spec(s.history, s.tree),
                    tree: nt,
                    modified: if r is Ok { true } else { s.modified },
                    status: if r is Ok { "Toggled bool — Ctrl+S to save  Ctrl+Z undo"@ } else { s.status },
                    ..s
                }
            },
            Some(Val::Null) => t == AppView { status: "Cannot edit null value"@, ..s },
            Some(Val::Object(_)) => t == s,
            Some(Val::Array(_)) => t == s,
            Some(v) => edit_text_ok(f, v, t.edit_buffer) && t == AppView {
                editing: true,
                edit_path: p,
                edit_buffer: t.edit_buffer,
                edit_cursor: utf8_total(t.edit_buffer) as usize,
                status: "Editing — Enter confirm  Esc cancel"@,
                ..s
            },
        }
    }
}

/// The state after a committed edit stores `new` at the edited path.
pub open spec fn stored(s: AppView, new: Val) -> AppView {
    let (nt, r) = set_spec(s.tree, s.edit_path, new);
    AppView {
        editing: false,
        history: record_spec(s.history, s.tree),
        tree: nt,
        modified: if r is Ok { true } else { s.modified },
        status: if r is Ok { "Value updated — Ctrl+S to save  Ctrl+Z undo"@ } else { s.status },
        ..s
    }
}

/// The state after committing the edit buffer: a string takes the buffer as
/// it is, an integer or float the number read from the trimmed buffer (a
/// buffer that does not read as one keeps the editor open with a message);
/// the change is recorded for undo.
pub open spec fn commit_edit_ok<P: Fn(&str) -> Option<u64>>(parse: P, s: AppView, t: AppView) -> bool {
    if !s.editing {
        t == s
    } else {
        match get_at(s.tree, s.edit_path) {
            None => t == AppView { editing: false, ..s },
            Some(Val::Str(_)) => t == stored(s, Val::Str(s.edit_buffer)),
            Some(Val::Int(_)) => match i64_of_text(trim(s.edit_buffer)) {
                Some(i) => t == stored(s, Val::Int(i)),
                None => t == AppView { status: "Invalid integer: '"@ + s.edit_buffer + "'"@, ..s },
            },
            Some(Val::Float(_)) => exists|arg: &str, r: Option<u64>|
                arg@ == trim(s.edit_buffer) && #[trigger] parse.ensures((arg,), r) && match r {
                    Some(b) => t == stored(s, Val::Float(b)),
                    None => t == AppView { status: "Invalid float: '"@ + s.edit_buffer + "'"@, ..s },
                },
            _ => t == AppView { editing: false, ..s },
        }
    }
}

impl App {
    /// Move the edit cursor left by one character.
    pub fn edit_cursor_left(&mut self)
        requires
            cursor_ok(old(self)@),
        ensures
            cursor_ok(final(self)@),
            !old(self).editing || old(self).edit_cursor == 0 ==> final(self)@ == old(self)@,
            old(self).editing && old(self).edit_cursor != 0 ==> final(self)@ == (AppView {
                edit_cursor: (clamped_cursor(old(self)@) - prev_char_len(old(self)@)) as usize,
                ..old(self)@
            }),
    {
        if !self.editing || self.edit_cursor == 0 {
            return;
        }
        let cs = chars_of(self.edit_buffer.as_str());
        let (k, used) = fit_exec(&cs, self.edit_cursor as u64);
        proof {
            lemma_cursor_fit(cs@, self.edit_cursor as int);
        }
        self.edit_cursor = used as usize;
        if k > 0 {
            let prev = utf8_len_exec(cs[k - 1]) as usize;
            proof {
                assert(cs@.take(k as int).drop_last() =~= cs@.take(k - 1));
                lemma_fit_of_prefix(cs@, k - 1);
            }
            self.edit_cursor = self.edit_cursor - prev;
        }
    }

    /// Move the edit cursor right by one character.
    pub fn edit_cursor_right(&mut self)
        requires
            cursor_ok(old(self)@),
        ensures
            cursor_ok(final(self)@),
            !old(self).editing || old(self).edit_cursor >= utf8_total(old(self)@.edit_buffer)
                ==> final(self)@ == old(self)@,
            old(self).editing && old(self).edit_cursor < utf8_total(old(self)@.edit_buffer)
                ==> final(self)@ == (AppView {
                edit_cursor: (old(self).edit_cursor + utf8_len(
                    old(self)@.edit_buffer[cursor_chars(old(self)@)],
                )) as usize,
                ..old(self)@
            }),
    {
        if !self.editing {
            return;
        }
        let cs = chars_of(self.edit_buffer.as_str());
        let (k, _) = fit_exec(&cs, self.edit_cursor as u64);
        proof {
            lemma_cursor_fit(cs@, self.edit_cursor as int);
        }
        if k >= cs.len() {
            return;
        }
        let next = utf8_len_exec(cs[k]) as usize;
        proof {
            assert(cs@.take(k + 1).drop_last() =~= cs@.take(k as int));
            lemma_fit_of_prefix(cs@, k + 1);
            crate::widgets::lemma_utf8_total_prefix(cs@, k + 1);
            crate::editbuf::lemma_total_concat(cs@.take(k as int), cs@.skip(k as int));
            assert(cs@.take(k as int) + cs@.skip(k as int) =~= cs@);
        }
        let total = str_len(self.edit_buffer.as_str());
        self.edit_cursor = self.edit_cursor + next;
    }

    /// Move the edit cursor to the start of the buffer.
    pub fn edit_cursor_home(&mut self)
        ensures
            final(self)@ == if old(self).editing {
                AppView { edit_cursor: 0, ..old(self)@ }
            } else {
                old(self)@
            },
            cursor_ok(final(self)@),
    {
        if self.editing {
            self.edit_cursor = 0;
            proof {
                lemma_fit_of_prefix(self.edit_buffer@, 0);
                assert(self.edit_buffer@.take(0) =~= Seq::<char>::empty());
            }
        }
    }

    /// Move the edit cursor to the end of the buffer.
    pub fn edit_cursor_end(&mut self)
        ensures
            final(self)@ == if old(self).editing {
                AppView { edit_cursor: utf8_total(old(self)@.edit_buffer) as usize, ..old(self)@ }
            } else {
                old(self)@
            },
            cursor_ok(final(self)@),
    {
        if self.editing {
            self.edit_cursor = str_len(self.edit_buffer.as_str());
            proof {
                lemma_fit_of_prefix(self.edit_buffer@, self.edit_buffer@.len() as int);
                assert(self.edit_buffer@.take(self.edit_buffer@.len() as int) =~= self.edit_buffer@);
            }
        }
    }

    /// Leave edit mode without changing the tree.
    pub fn cancel_edit(&mut self)
        ensures
            final(self)@ == (AppView { editing: false, status: "Edit cancelled"@, ..old(self)@ }),
    {
        self.editing = false;
        self.status = owned("Edit cancelled");
    }

    /// Start editing the value under the cursor (see [`start_edit_ok`]);
    /// `float_text` gives the decimal text of a float.
    pub fn start_edit<F: Fn(u64) -> String>(&mut self, float_text: &F)
        requires
            forall|x: u64| #[trigger] float_text.requires((x,)),
        ensures
            start_edit_ok(*float_text, old(self)@, final(self)@),
            cursor_ok(old(self)@) ==> cursor_ok(final(self)@),
    {
        if self.editing {
            return;
        }
        let path = self.cursor_path();
        if path.len() == 0 {
            return;
        }
        let value = match self.tree.get(&path) {
            Some(v) => v.clone(),
            None => return,
        };
        match value {
            Value::Bool(b) => {
                let ghost s0 = self@;
                assert(s0 == old(self)@);
                let snapshot = self.tree.clone();
                self.history.record(snapshot);
                let nb = Value::Bool(!b);
                assert(nb@ == Val::Bool(!b));
                assert(get_at(s0.tree, path_view(path@)) == Some(Val::Bool(b)));
                let r = self.tree.set(&path, nb);
                assert(self@.tree == set_spec(s0.tree, path_view(path@), Val::Bool(!b)).0);
                assert(self@.history == record_spec(s0.history, s0.tree));
                if r.is_ok() {
                    self.modified = true;
                    self.status = owned("Toggled bool — Ctrl+S to save  Ctrl+Z undo");
                }
                proof {
                    let (nt, rr) = set_spec(s0.tree, path_view(path@), Val::Bool(!b));
                    assert(rr is Ok <==> r is Ok);
                    assert(self@.modified == if rr is Ok { true } else { s0.modified });
                    assert(self@.status == if rr is Ok { "Toggled bool — Ctrl+S to save  Ctrl+Z undo"@ } else { s0.status });
                    assert(self@ == AppView { history: record_spec(s0.history, s0.tree), tree: nt, modified: if rr is Ok { true } else { s0.modified }, status: if rr is Ok { "Toggled bool — Ctrl+S to save  Ctrl+Z undo"@ } else { s0.status }, ..s0 });
                    assert(cursor_path_of(s0) == path_view(path@));
                    assert(!s0.editing);
                    assert(start_edit_ok(*float_text, s0, self@));
                }
            },
            Value::Null => {
                let ghost s0 = self@;
                self.status = owned("Cannot edit null value");
                assert(start_edit_ok(*float_text, s0, self@));
            },
            _ => {
                let buffer = match &value {
                    Value::String(s) => owned(s.as_str()),
                    Value::Int(i) => i64_text(*i),
                    Value::Float(f) => {
                        let bits: u64 = *f;
                        let t = float_text(bits);
                        let ghost tv = t;
                        let out = if bits == 0x8000_0000_0000_0000u64 {
                            owned("0")
                        } else {
                            t
                        };
                        proof {
                            assert(float_text.ensures((bits,), tv));
                            assert((*float_text).ensures((bits,), tv));
                            assert(out@ == float_edit_text(bits, tv@));
                            assert(value@ == Val::Float(bits));
                            lemma_edit_text_float(*float_text, bits, tv);
                        }
                        out
                    },
                    _ => return,
                };
                let n = str_len(buffer.as_str());
                self.editing = true;
                self.edit_path = path;
                self.edit_buffer = buffer;
                self.edit_cursor = n;
                self.status = owned("Editing — Enter confirm  Esc cancel");
                proof {
                    lemma_fit_of_prefix(self.edit_buffer@, self.edit_buffer@.len() as int);
                    assert(self.edit_buffer@.take(self.edit_buffer@.len() as int) =~= self.edit_buffer@);
                }
                assert(edit_text_ok(*float_text, value@, self@.edit_buffer));
                assert(start_edit_ok(*float_text, old(self)@, self@));
            },
        }
    }

    /// Commit the edit buffer to the tree (see [`commit_edit_ok`]);
    /// `parse_float` reads a float's bits from text.
    pub fn commit_edit<P: Fn(&str) -> Option<u64>>(&mut self, parse_float: &P)
        requires
            forall|x: &str| #[trigger] parse_float.requires((x,)),
        ensures
            commit_edit_ok(*parse_float, old(self)@, final(self)@),
            cursor_ok(old(self)@) ==> cursor_ok(final(self)@),
    {
        if !self.editing {
            return;
        }
        let current = match self.tree.get(&self.edit_path) {
            Some(v) => v.clone(),
            None => {
                self.editing = false;
                return;
            },
        };
        let new_value = match &current {
            Value::String(_) => Value::String(owned(self.edit_buffer.as_str())),
            Value::Int(_) => {
                let trimmed = trimmed_chars(self.edit_buffer.as_str());
                match parse_i64(trimmed.as_slice()) {
                    Some(i) => Value::Int(i),
                    None => {
                        let mut m = owned("Invalid integer: '");
                        push_str(&mut m, self.edit_buffer.as_str());
                        push_str(&mut m, "'");
                        self.status = m;
                        return;
                    },
                }
            },
            Value::Float(_) => {
                let trimmed = string_from_chars(trimmed_chars(self.edit_buffer.as_str()).as_slice());
                let r = parse_float(trimmed.as_str());
                match r {
                    Some(b) => Value::Float(b),
                    None => {
                        let mut m = owned("Invalid float: '");
                        push_str(&mut m, self.edit_buffer.as_str());
                        push_str(&mut m, "'");
                        self.status = m;
                        return;
                    },
                }
            },
            _ => {
                self.editing = false;
                return;
            },
        };
        let path = clone_path(self.edit_path.as_slice());
        self.editing = false;
        let snapshot = self.tree.clone();
        self.history.record(snapshot);
        let r = self.tree.set(&path, new_value);
        if r.is_ok() {
            self.modified = true;
            self.status = owned("Value updated — Ctrl+S to save  Ctrl+Z undo");
        }
    }
}


// ── structure editing ───────────────────────────────────────────────

/// Another mode (editing, renaming, confirming a delete, choosing a type)
/// is in progress.
pub open spec fn busy(s: AppView) -> bool {
    s.editing || s.renaming || s.confirming_delete || s.inserting
}

/// Is the node an object or an array?
pub open spec fn is_container(o: Option<Val>) -> bool {
    o matches Some(Val::Object(_)) || o matches Some(Val::Array(_))
}

/// The state after asking to insert at the cursor: a container under the
/// cursor receives the new node, otherwise the cursor's parent does.
pub open spec fn insert_node_ok(s: AppView, t: AppView) -> bool {
    let p = cursor_path_of(s);
    if busy(s) {
        t == s
    } else if !is_container(get_at(s.tree, p)) && p.len() == 0 {
        t == AppView { status: "Cannot insert here"@, ..s }
    } else {
        let c = if is_container(get_at(s.tree, p)) {
            p
        } else {
            p.drop_last()
        };
        if is_container(get_at(s.tree, c)) {
            t == AppView {
                inserting: true,
                insert_container_path: c,
                status: "Insert: s string  n int  f float  b bool  a array  o object  Esc cancel"@,
                ..s
            }
        } else {
            t == AppView { status: "Cannot insert: not inside an object or array"@, ..s }
        }
    }
}

/// The `n`-th candidate key for a new node: `new_key`, `new_key_2`, `new_key_3`, ...
pub open spec fn candidate_key(n: nat) -> Seq<char> {
    if n <= 1 {
        "new_key"@
    } else {
        "new_key_"@ + decimal(n)
    }
}

/// The object holds key `k`.
pub open spec fn has_key(es: Seq<(Seq<char>, Val)>, k: Seq<char>) -> bool {
    key_index(es, k) is Some
}

/// The search for a free key stops at candidate `n`: it is free, or the
/// search has passed as many candidates as there are keys.
pub open spec fn search_stops(es: Seq<(Seq<char>, Val)>, n: nat) -> bool {
    n > es.len() || n >= usize::MAX || !has_key(es, candidate_key(n))
}

/// The first candidate (from 1) at which the search stops.
pub open spec fn fresh_index(es: Seq<(Seq<char>, Val)>) -> nat {
    choose|n: nat| 1 <= n && search_stops(es, n) && forall|m: nat| 1 <= m < n ==> !#[trigger] search_stops(es, m)
}

/// The expanded paths with `c` added if missing.
pub open spec fn with_expanded(exp: Seq<Seq<Seg>>, c: Seq<Seg>) -> Seq<Seq<Seg>> {
    if exp.contains(c) {
        exp
    } else {
        exp.push(c)
    }
}

/// The state after inserting `x` into the container chosen by `insert_node`:
/// objects get the first free `new_key...`, arrays get it appended; a
/// successful insert is recorded for undo and shows its container.
pub open spec fn commit_insert_ok(s: AppView, x: Val, t: AppView) -> bool {
    if !s.inserting {
        t == s
    } else {
        let c = s.insert_container_path;
        let s1 = AppView { inserting: false, ..s };
        match get_at(s.tree, c) {
            Some(Val::Object(es)) => {
                let k = candidate_key(fresh_index(es));
                let (nt, r) = insert_spec(s.tree, c.push(Seg::Key(k)), x);
                if r is Ok {
                    t == AppView {
                        tree: nt,
                        history: record_spec(s.history, s.tree),
                        modified: true,
                        expanded: with_expanded(s.expanded, c),
                        status: "Inserted "@ + type_name_of(x) + " '"@ + k + "' — Ctrl+S save"@,
                        ..s1
                    }
                } else {
                    t == AppView { tree: nt, status: "Could not insert new key"@, ..s1 }
                }
            },
            Some(Val::Array(a)) => {
                let (nt, r) = insert_spec(s.tree, c.push(Seg::Index(a.len() as usize)), x);
                if r is Ok {
                    t == AppView {
                        tree: nt,
                        history: record_spec(s.history, s.tree),
                        modified: true,
                        expanded: with_expanded(s.expanded, c),
                        status: "Inserted "@ + type_name_of(x) + " item ["@ + decimal(a.len()) + "] — Ctrl+S save"@,
                        ..s1
                    }
                } else {
                    t == AppView { tree: nt, status: "Could not insert array item"@, ..s1 }
                }
            },
            _ => t == AppView { status: "Could not insert: target no longer valid"@, ..s1 },
        }
    }
}

/// The state after executing a confirmed delete of `confirm_delete_path`
/// (recorded for undo whatever the outcome).
pub open spec fn confirm_delete_ok(s: AppView, t: AppView) -> bool {
    let (nt, r) = delete_spec(s.tree, s.confirm_delete_path);
    t == AppView {
        confirming_delete: false,
        history: record_spec(s.history, s.tree),
        tree: nt,
        modified: if r is Ok { true } else { s.modified },
        status: match r {
            Ok(v) => "Deleted "@ + type_name_of(v) + " — Ctrl+Z undo  Ctrl+S save"@,
            Err(e) => "Delete error: "@ + message_of(e),
        },
        ..s
    }
}

/// The state after pressing delete: the first press asks for confirmation,
/// the second deletes.
pub open spec fn delete_node_ok(s: AppView, t: AppView) -> bool {
    let p = cursor_path_of(s);
    if s.editing || s.renaming || s.inserting {
        t == s
    } else if p.len() == 0 {
        t == AppView { status: "Cannot delete root"@, ..s }
    } else if s.confirming_delete {
        confirm_delete_ok(s, t)
    } else {
        t == AppView {
            confirming_delete: true,
            confirm_delete_path: p,
            status: "Delete? Press d again to confirm, Esc to cancel"@,
            ..s
        }
    }
}

/// The state after starting to rename the key under the cursor.
pub open spec fn start_rename_ok(s: AppView, t: AppView) -> bool {
    let p = cursor_path_of(s);
    if busy(s) {
        t == s
    } else if p.len() == 0 {
        t == AppView { status: "Cannot rename root"@, ..s }
    } else {
        match p.last() {
            Seg::Key(k) => t == AppView {
                renaming: true,
                rename_path: p,
                rename_buffer: k,
                status: "Rename — Enter confirm  Esc cancel"@,
                ..s
            },
            Seg::Index(_) => t == AppView {
                status: "Cannot rename array indices, use cut/paste to reorder"@,
                ..s
            },
        }
    }
}

/// The state after committing a rename to the trimmed buffer (recorded for
/// undo only when it succeeds).
pub open spec fn commit_rename_ok(s: AppView, t: AppView) -> bool {
    let k = trim(s.rename_buffer);
    if !s.renaming {
        t == s
    } else if k.len() == 0 {
        t == AppView { status: "Key name cannot be empty"@, ..s }
    } else {
        let (nt, r) = rename_spec(s.tree, s.rename_path, k);
        match r {
            Ok(_) => t == AppView {
                renaming: false,
                tree: nt,
                history: record_spec(s.history, s.tree),
                modified: true,
                status: "Renamed to '"@ + k + "' — Ctrl+Z undo"@,
                ..s
            },
            Err(e) => t == AppView {
                renaming: false,
                tree: nt,
                status: "Rename error: "@ + message_of(e),
                ..s
            },
        }
    }
}

/// The state after duplicating the node under the cursor: a key gets a
/// `_copy` sibling, an array item a copy right after it (recorded for undo
/// only when it succeeds).
pub open spec fn duplicate_node_ok(s: AppView, t: AppView) -> bool {
    let p = cursor_path_of(s);
    if busy(s) {
        t == s
    } else if p.len() == 0 {
        t == AppView { status: "Cannot duplicate root"@, ..s }
    } else {
        match get_at(s.tree, p) {
            None => t == AppView { status: "Cannot duplicate: path not found"@, ..s },
            Some(v) => {
                let (target, label) = match p.last() {
                    Seg::Key(k) => (p.drop_last().push(Seg::Key(k + "_copy"@)), k + "_copy"@),
                    Seg::Index(i) => (
                        p.drop_last().push(Seg::Index((i + 1) as usize)),
                        "["@ + decimal((i + 1) as nat) + "]"@,
                    ),
                };
                let (nt, r) = insert_spec(s.tree, target, v);
                match r {
                    Ok(_) => t == AppView {
                        tree: nt,
                        history: record_spec(s.history, s.tree),
                        modified: true,
                        status: "Duplicated as "@ + label + " — Ctrl+Z undo"@,
                        ..s
                    },
                    Err(e) => t == AppView {
                        tree: nt,
                        status: "Duplicate error: "@ + message_of(e),
                        ..s
                    },
                }
            },
        }
    }
}

/// The state after cutting the node under the cursor into the clipboard
/// (recorded for undo whatever the outcome).
pub open spec fn cut_node_ok(s: AppView, t: AppView) -> bool {
    let p = cursor_path_of(s);
    if busy(s) {
        t == s
    } else if p.len() == 0 {
        t == AppView { status: "Cannot cut root"@, ..s }
    } else {
        match get_at(s.tree, p) {
            None => t == AppView { status: "Cannot cut: path not found"@, ..s },
            Some(v) => {
                let (nt, r) = delete_spec(s.tree, p);
                match r {
                    Ok(_) => t == AppView {
                        tree: nt,
                        history: record_spec(s.history, s.tree),
                        clipboard: Some((p, v)),
                        modified: true,
                        status: "Cut — navigate to target and press Ctrl+P to paste"@,
                        ..s
                    },
                    Err(e) => t == AppView {
                        tree: nt,
                        history: record_spec(s.history, s.tree),
                        status: "Cut error: "@ + message_of(e),
                        ..s
                    },
                }
            },
        }
    }
}

/// `base` followed by `n` copies of `_copy`.
pub open spec fn with_copies(base: Seq<char>, n: nat) -> Seq<char>
    decreases n,
{
    if n == 0 {
        base
    } else {
        with_copies(base, (n - 1) as nat) + "_copy"@
    }
}

/// How many `_copy` suffixes make `base` a key the object does not hold
/// (the fewest).
pub open spec fn copies_needed(es: Seq<(Seq<char>, Val)>, base: Seq<char>) -> nat {
    choose|n: nat| !has_key(es, with_copies(base, n)) && forall|m: nat| m < n ==> has_key(es, #[trigger] with_copies(base, m))
}

/// The state after pasting the clipboard next to the node under the cursor:
/// into an object under the cut key (with `_copy` suffixes until it is free),
/// or at the end of an array. The clipboard empties on success; the paste is
/// recorded for undo whatever the outcome.
pub open spec fn paste_node_ok(s: AppView, t: AppView) -> bool {
    let p = cursor_path_of(s);
    if busy(s) {
        t == s
    } else {
        match s.clipboard {
            None => t == AppView { status: "Nothing to paste — use Ctrl+X to cut first"@, ..s },
            Some((from, v)) => if p.len() == 0 {
                t == AppView { status: "Cannot paste at root"@, ..s }
            } else {
                let parent = p.drop_last();
                let h = record_spec(s.history, s.tree);
                match get_at(s.tree, parent) {
                    Some(Val::Object(es)) => {
                        let base = if from.len() > 0 && from.last() is Key {
                            from.last()->Key_0
                        } else {
                            "pasted"@
                        };
                        let k = with_copies(base, copies_needed(es, base));
                        let (nt, r) = insert_spec(s.tree, parent.push(Seg::Key(k)), v);
                        pasted(s, t, h, nt, r, k)
                    },
                    Some(Val::Array(a)) => {
                        let (nt, r) = insert_spec(s.tree, parent.push(Seg::Index(a.len() as usize)), v);
                        pasted(s, t, h, nt, r, "["@ + decimal(a.len()) + "]"@)
                    },
                    _ => t == AppView {
                        history: h,
                        status: "Paste error: "@ + message_of(crate::tree::error::TreeErr::PathNotFound),
                        ..s
                    },
                }
            },
        }
    }
}

/// The state after a paste attempt that gave tree `nt` and result `r`.
pub open spec fn pasted(
    s: AppView,
    t: AppView,
    h: HistoryView,
    nt: Val,
    r: Result<(), crate::tree::error::TreeErr>,
    label: Seq<char>,
) -> bool {
    match r {
        Ok(_) => t == AppView {
            tree: nt,
            history: h,
            clipboard: None,
            modified: true,
            status: "Pasted as "@ + label + " — Ctrl+Z undo"@,
            ..s
        },
        Err(e) => t == AppView { tree: nt, history: h, status: "Paste error: "@ + message_of(e), ..s },
    }
}


/// Is the node an object or an array?
fn is_container_node(o: Option<&Value>) -> (r: bool)
    ensures
        r == is_container(match o {
            Some(v) => Some(v@),
            None => None,
        }),
{
    match o {
        Some(Value::Object(_)) => true,
        Some(Value::Array(_)) => true,
        _ => false,
    }
}

impl App {
    /// Another mode is in progress.
    fn is_busy(&self) -> (r: bool)
        ensures
            r == busy(self@),
    {
        self.editing || self.renaming || self.confirming_delete || self.inserting
    }

    /// Begin inserting a new node: open the type picker (see [`insert_node_ok`]).
    pub fn insert_node(&mut self)
        ensures
            insert_node_ok(old(self)@, final(self)@),
    {
        if self.is_busy() {
            return;
        }
        let cp = self.cursor_path();
        let on_container = is_container_node(self.tree.get(&cp));
        let container = if on_container {
            cp
        } else if cp.len() > 0 {
            parent_of(cp.as_slice())
        } else {
            self.status = owned("Cannot insert here");
            return;
        };
        if is_container_node(self.tree.get(&container)) {
            self.inserting = true;
            self.insert_container_path = container;
            self.status = owned("Insert: s string  n int  f float  b bool  a array  o object  Esc cancel");
        } else {
            self.status = owned("Cannot insert: not inside an object or array");
        }
    }

    /// Cancel the pending insert type picker.
    pub fn cancel_insert(&mut self)
        ensures
            final(self)@ == if old(self).inserting {
                AppView { inserting: false, status: "Insert cancelled"@, ..old(self)@ }
            } else {
                old(self)@
            },
    {
        if self.inserting {
            self.inserting = false;
            self.status = owned("Insert cancelled");
        }
    }

    /// Cancel the pending delete confirmation.
    pub fn cancel_delete(&mut self)
        ensures
            final(self)@ == if old(self).confirming_delete {
                AppView { confirming_delete: false, status: "Delete cancelled"@, ..old(self)@ }
            } else {
                old(self)@
            },
    {
        if self.confirming_delete {
            self.confirming_delete = false;
            self.status = owned("Delete cancelled");
        }
    }

    /// Cancel rename mode.
    pub fn cancel_rename(&mut self)
        ensures
            final(self)@ == if old(self).renaming {
                AppView { renaming: false, status: "Rename cancelled"@, ..old(self)@ }
            } else {
                old(self)@
            },
    {
        if self.renaming {
            self.renaming = false;
            self.status = owned("Rename cancelled");
        }
    }

    /// Execute the pending delete (see [`confirm_delete_ok`]).
    pub fn confirm_delete(&mut self)
        ensures
            confirm_delete_ok(old(self)@, final(self)@),
    {
        let path = clone_path(self.confirm_delete_path.as_slice());
        self.confirming_delete = false;
        let snapshot = self.tree.clone();
        self.history.record(snapshot);
        match self.tree.delete(&path) {
            Ok(removed) => {
                self.modified = true;
                let mut m = owned("Deleted ");
                push_str(&mut m, removed.type_label());
                push_str(&mut m, " — Ctrl+Z undo  Ctrl+S save");
                self.status = m;
            },
            Err(e) => {
                let mut m = owned("Delete error: ");
                push_str(&mut m, e.message().as_str());
                self.status = m;
            },
        }
    }

    /// Ask to delete the node under the cursor, or delete it when already
    /// asked (see [`delete_node_ok`]).
    pub fn delete_node(&mut self)
        ensures
            delete_node_ok(old(self)@, final(self)@),
    {
        if self.editing || self.renaming || self.inserting {
            return;
        }
        let cp = self.cursor_path();
        if cp.len() == 0 {
            self.status = owned("Cannot delete root");
            return;
        }
        if self.confirming_delete {
            self.confirm_delete();
        } else {
            self.confirming_delete = true;
            self.confirm_delete_path = cp;
            self.status = owned("Delete? Press d again to confirm, Esc to cancel");
        }
    }

    /// Start renaming the key under the cursor (see [`start_rename_ok`]).
    pub fn start_rename(&mut self)
        ensures
            start_rename_ok(old(self)@, final(self)@),
    {
        if self.is_busy() {
            return;
        }
        let cp = self.cursor_path();
        if cp.len() == 0 {
            self.status = owned("Cannot rename root");
            return;
        }
        let ghost pv = path_view(cp@);
        proof {
            assert(pv.last() == cp@[cp@.len() - 1]@);
        }
        match &cp[cp.len() - 1] {
            PathSegment::Key(k) => {
                let buffer = owned(k.as_str());
                self.renaming = true;
                self.rename_path = clone_path(cp.as_slice());
                self.rename_buffer = buffer;
                self.status = owned("Rename — Enter confirm  Esc cancel");
            },
            PathSegment::Index(_) => {
                self.status = owned("Cannot rename array indices, use cut/paste to reorder");
            },
        }
    }

    /// Commit the rename (see [`commit_rename_ok`]).
    pub fn commit_rename(&mut self)
        ensures
            commit_rename_ok(old(self)@, final(self)@),
    {
        if !self.renaming {
            return;
        }
        let new_key = string_from_chars(trimmed_chars(self.rename_buffer.as_str()).as_slice());
        if str_len(new_key.as_str()) == 0 {
            proof {
                if new_key@.len() > 0 {
                    crate::editbuf::lemma_total_front(new_key@);
                }
            }
            self.status = owned("Key name cannot be empty");
            return;
        }
        proof {
            if new_key@.len() == 0 {
                assert(utf8_total(new_key@) == 0);
            }
        }
        let path = clone_path(self.rename_path.as_slice());
        self.renaming = false;
        let snapshot = self.tree.clone();
        match self.tree.rename_key(&path, new_key.as_str()) {
            Ok(()) => {
                self.history.record(snapshot);
                self.modified = true;
                let mut m = owned("Renamed to '");
                push_str(&mut m, new_key.as_str());
                push_str(&mut m, "' — Ctrl+Z undo");
                self.status = m;
            },
            Err(e) => {
                let mut m = owned("Rename error: ");
                push_str(&mut m, e.message().as_str());
                self.status = m;
            },
        }
    }
}


proof fn lemma_fresh_index(es: Seq<(Seq<char>, Val)>, n: nat)
    requires
        1 <= n,
        search_stops(es, n),
        forall|m: nat| 1 <= m < n ==> !#[trigger] search_stops(es, m),
    ensures
        fresh_index(es) == n,
{
    let f = fresh_index(es);
    assert(1 <= f && search_stops(es, f) && forall|m: nat| 1 <= m < f ==> !#[trigger] search_stops(es, m));
    if f < n {
        assert(!search_stops(es, f));
    }
    if n < f {
        assert(!search_stops(es, n));
    }
}

/// Different candidate numbers give different candidate keys.
proof fn lemma_candidate_injective(a: nat, b: nat)
    requires
        1 <= a,
        1 <= b,
        candidate_key(a) == candidate_key(b),
    ensures
        a == b,
{
    reveal_strlit("new_key");
    reveal_strlit("new_key_");
    assert("new_key"@.len() == 7);
    assert("new_key_"@.len() == 8);
    crate::text::lemma_decimal_value(a);
    crate::text::lemma_decimal_value(b);
    if a >= 2 && b >= 2 {
        assert(candidate_key(a).subrange(8, candidate_key(a).len() as int) =~= decimal(a));
        assert(candidate_key(b).subrange(8, candidate_key(b).len() as int) =~= decimal(b));
        crate::text::lemma_decimal_injective(a, b);
    } else if a >= 2 {
        assert(candidate_key(a).len() != candidate_key(b).len());
    } else if b >= 2 {
        assert(candidate_key(a).len() != candidate_key(b).len());
    }
}

/// The search for a free key, continued from candidate `k`, stops somewhere
/// up to one past the number of keys.
proof fn lemma_first_stop(es: Seq<(Seq<char>, Val)>, k: nat) -> (n: nat)
    requires
        1 <= k <= es.len() + 1,
        forall|m: nat| 1 <= m < k ==> !#[trigger] search_stops(es, m),
    ensures
        1 <= n <= es.len() + 1,
        search_stops(es, n),
        forall|m: nat| 1 <= m < n ==> !#[trigger] search_stops(es, m),
    decreases es.len() + 1 - k,
{
    if search_stops(es, k) {
        k
    } else {
        assert forall|m: nat| 1 <= m < k + 1 implies !#[trigger] search_stops(es, m) by {
            if m < k {
                assert(!search_stops(es, m));
            }
        }
        lemma_first_stop(es, k + 1)
    }
}

/// The key that inserting into an object picks is free in that object: of
/// the first `len + 1` candidates at most `len` can be taken.
pub proof fn law_fresh_key_is_free(es: Seq<(Seq<char>, Val)>)
    requires
        es.len() + 1 < usize::MAX,
    ensures
        1 <= fresh_index(es) <= es.len() + 1,
        !has_key(es, candidate_key(fresh_index(es))),
{
    let n = lemma_first_stop(es, 1);
    lemma_fresh_index(es, n);
    if has_key(es, candidate_key(n)) {
        assert(n == es.len() + 1);
        let g = |m: int| key_index(es, candidate_key(m as nat))->0;
        let x = vstd::set_lib::set_int_range(1, n + 1int);
        let r = vstd::set_lib::set_int_range(0, es.len() as int);
        assert forall|m: int| x.contains(m) implies has_key(es, #[trigger] candidate_key(m as nat)) by {
            if m < n {
                assert(!search_stops(es, m as nat));
            }
        }
        assert forall|m: int| x.contains(m) implies 0 <= #[trigger] g(m) < es.len() && es[g(m)].0 == candidate_key(m as nat) by {
            assert(has_key(es, candidate_key(m as nat)));
            crate::tree::value::lemma_key_index(es, candidate_key(m as nat));
        }
        assert(vstd::relations::injective_on(g, x)) by {
            assert forall|m1: int, m2: int| x.contains(m1) && x.contains(m2) && #[trigger] g(m1) == #[trigger] g(m2) implies m1 == m2 by {
                assert(es[g(m1)].0 == candidate_key(m1 as nat));
                assert(es[g(m2)].0 == candidate_key(m2 as nat));
                lemma_candidate_injective(m1 as nat, m2 as nat);
            }
        }
        let y = x.map(g);
        vstd::set_lib::lemma_int_range(1, n + 1int);
        vstd::set_lib::lemma_int_range(0, es.len() as int);
        vstd::set_lib::lemma_map_size(x, y, g);
        assert(y.subset_of(r)) by {
            assert forall|b: int| y.contains(b) implies r.contains(b) by {
                let m = choose|m: int| x.contains(m) && g(m) == b;
                assert(0 <= g(m) < es.len());
            }
        }
        vstd::set_lib::lemma_len_subset(y, r);
        assert(false);
    }
}

proof fn lemma_copies_needed(es: Seq<(Seq<char>, Val)>, base: Seq<char>, n: nat)
    requires
        !has_key(es, with_copies(base, n)),
        forall|m: nat| m < n ==> has_key(es, #[trigger] with_copies(base, m)),
    ensures
        copies_needed(es, base) == n,
{
    let f = copies_needed(es, base);
    assert(!has_key(es, with_copies(base, f)) && forall|m: nat| m < f ==> has_key(es, #[trigger] with_copies(base, m)));
    if f < n {
        assert(has_key(es, with_copies(base, f)));
    }
    if n < f {
        assert(has_key(es, with_copies(base, n)));
    }
}

/// The `n`-th candidate key.
fn candidate_exec(n: usize) -> (r: String)
    ensures
        r@ == candidate_key(n as nat),
{
    if n <= 1 {
        owned("new_key")
    } else {
        let mut k = owned("new_key_");
        push_str(&mut k, u64_text(n as u64).as_str());
        k
    }
}

/// The length of the longest key.
pub open spec fn longest_key(es: Seq<(Seq<char>, Val)>) -> nat
    decreases es.len(),
{
    if es.len() == 0 {
        0
    } else {
        let rest = longest_key(es.drop_last());
        if es.last().0.len() > rest {
            es.last().0.len()
        } else {
            rest
        }
    }
}

proof fn lemma_longest_key(es: Seq<(Seq<char>, Val)>, i: int)
    requires
        0 <= i < es.len(),
    ensures
        es[i].0.len() <= longest_key(es),
    decreases es.len(),
{
    if i < es.len() - 1 {
        lemma_longest_key(es.drop_last(), i);
    }
}

impl App {
    /// Finish an insert: place `value` as a new key or item inside the
    /// chosen container (see [`commit_insert_ok`]).
    pub fn commit_insert(&mut self, value: Value)
        ensures
            commit_insert_ok(old(self)@, value@, final(self)@),
    {
        if !self.inserting {
            return;
        }
        let ghost s = self@;
        let ghost xv = value@;
        self.inserting = false;
        let container = clone_path(self.insert_container_path.as_slice());
        let label = value.type_label();
        let target = match self.tree.get(&container) {
            Some(v) => Some(v.clone()),
            None => None,
        };
        match target {
            Some(Value::Object(map)) => {
                let ghost es = map@;
                let len = map.len();
                let mut n: usize = 1;
                let mut key = candidate_exec(1);
                while n <= len && n < usize::MAX && map.contains_key(key.as_str())
                    invariant
                        1 <= n <= len + 1,
                        len == es.len(),
                        es == map@,
                        key@ == candidate_key(n as nat),
                        forall|m: nat| 1 <= m < n ==> !#[trigger] search_stops(es, m),
                    decreases len + 1 - n,
                {
                    assert(!search_stops(es, n as nat));
                    n = n + 1;
                    key = candidate_exec(n);
                }
                proof {
                    lemma_fresh_index(es, n as nat);
                }
                let path = child_of(container.as_slice(), PathSegment::Key(owned(key.as_str())));
                let snapshot = self.tree.clone();
                if self.tree.insert(&path, value).is_ok() {
                    self.history.record(snapshot);
                    self.modified = true;
                    if !self.is_expanded(&container) {
                        let ghost before = self.expanded@;
                        self.expanded.push(clone_path(container.as_slice()));
                        proof {
                            assert(paths_view(self.expanded@) =~= paths_view(before).push(path_view(container@)));
                        }
                    }
                    let mut m = owned("Inserted ");
                    push_str(&mut m, label);
                    push_str(&mut m, " '");
                    push_str(&mut m, key.as_str());
                    push_str(&mut m, "' — Ctrl+S save");
                    self.status = m;
                } else {
                    self.status = owned("Could not insert new key");
                }
            },
            Some(Value::Array(arr)) => {
                let idx = arr.len();
                let path = child_of(container.as_slice(), PathSegment::Index(idx));
                let snapshot = self.tree.clone();
                if self.tree.insert(&path, value).is_ok() {
                    self.history.record(snapshot);
                    self.modified = true;
                    if !self.is_expanded(&container) {
                        let ghost before = self.expanded@;
                        self.expanded.push(clone_path(container.as_slice()));
                        proof {
                            assert(paths_view(self.expanded@) =~= paths_view(before).push(path_view(container@)));
                        }
                    }
                    let mut m = owned("Inserted ");
                    push_str(&mut m, label);
                    push_str(&mut m, " item [");
                    push_str(&mut m, u64_text(idx as u64).as_str());
                    push_str(&mut m, "] — Ctrl+S save");
                    self.status = m;
                } else {
                    self.status = owned("Could not insert array item");
                }
            },
            _ => {
                self.status = owned("Could not insert: target no longer valid");
            },
        }
    }
}


impl App {
    /// Duplicate the node under the cursor (see [`duplicate_node_ok`]).
    pub fn duplicate_node(&mut self)
        ensures
            duplicate_node_ok(old(self)@, final(self)@),
    {
        if self.is_busy() {
            return;
        }
        let cp = self.cursor_path();
        if cp.len() == 0 {
            self.status = owned("Cannot duplicate root");
            return;
        }
        let value = match self.tree.get(&cp) {
            Some(v) => v.clone(),
            None => {
                self.status = owned("Cannot duplicate: path not found");
                return;
            },
        };
        let ghost pv = path_view(cp@);
        let parent = parent_of(cp.as_slice());
        proof {
            assert(pv.last() == cp@[cp@.len() - 1]@);
            assert(pv.drop_last().push(pv.last()) =~= pv);
            lemma_get_at_push(self@.tree, pv.drop_last(), pv.last());
        }
        let snapshot = self.tree.clone();
        let (result, label) = match &cp[cp.len() - 1] {
            PathSegment::Key(k) => {
                let mut nk = owned(k.as_str());
                push_str(&mut nk, "_copy");
                let target = child_of(parent.as_slice(), PathSegment::Key(owned(nk.as_str())));
                (self.tree.insert(&target, value), nk)
            },
            PathSegment::Index(i) => {
                let ix: usize = *i;
                let bound = match self.tree.get(&parent) {
                    Some(Value::Array(arr)) => arr.len(),
                    _ => 0,
                };
                if ix >= bound {
                    proof {
                        assert(false);
                    }
                    return;
                }
                let next = ix + 1;
                let target = child_of(parent.as_slice(), PathSegment::Index(next));
                let mut l = owned("[");
                push_str(&mut l, u64_text(next as u64).as_str());
                push_str(&mut l, "]");
                (self.tree.insert(&target, value), l)
            },
        };
        match result {
            Ok(()) => {
                self.history.record(snapshot);
                self.modified = true;
                let mut m = owned("Duplicated as ");
                push_str(&mut m, label.as_str());
                push_str(&mut m, " — Ctrl+Z undo");
                self.status = m;
            },
            Err(e) => {
                let mut m = owned("Duplicate error: ");
                push_str(&mut m, e.message().as_str());
                self.status = m;
            },
        }
    }

    /// Cut the node under the cursor into the clipboard (see [`cut_node_ok`]).
    pub fn cut_node(&mut self)
        ensures
            cut_node_ok(old(self)@, final(self)@),
    {
        if self.is_busy() {
            return;
        }
        let cp = self.cursor_path();
        if cp.len() == 0 {
            self.status = owned("Cannot cut root");
            return;
        }
        let value = match self.tree.get(&cp) {
            Some(v) => v.clone(),
            None => {
                self.status = owned("Cannot cut: path not found");
                return;
            },
        };
        let snapshot = self.tree.clone();
        self.history.record(snapshot);
        match self.tree.delete(&cp) {
            Ok(_) => {
                self.clipboard = Some((clone_path(cp.as_slice()), value));
                self.modified = true;
                self.status = owned("Cut — navigate to target and press Ctrl+P to paste");
            },
            Err(e) => {
                let mut m = owned("Cut error: ");
                push_str(&mut m, e.message().as_str());
                self.status = m;
            },
        }
    }

    /// Paste the clipboard next to the node under the cursor (see [`paste_node_ok`]).
    pub fn paste_node(&mut self)
        ensures
            paste_node_ok(old(self)@, final(self)@),
    {
        if self.is_busy() {
            return;
        }
        let (from, value) = match &self.clipboard {
            Some((p, v)) => (clone_path(p.as_slice()), v.clone()),
            None => {
                self.status = owned("Nothing to paste — use Ctrl+X to cut first");
                return;
            },
        };
        let cp = self.cursor_path();
        if cp.len() == 0 {
            self.status = owned("Cannot paste at root");
            return;
        }
        let ghost s = self@;
        let parent_path = parent_of(cp.as_slice());
        let parent = match self.tree.get(&parent_path) {
            Some(v) => Some(v.clone()),
            None => None,
        };
        let snapshot = self.tree.clone();
        self.history.record(snapshot);
        let ghost h = self@.history;
        let result: Result<String, crate::tree::TreeError> = match parent {
            Some(Value::Object(map)) => {
                let ghost es = map@;
                let ghost fv = path_view(from@);
                let mut key = if from.len() > 0 {
                    proof {
                        assert(fv.last() == from@[from@.len() - 1]@);
                    }
                    match &from[from.len() - 1] {
                        PathSegment::Key(k) => owned(k.as_str()),
                        PathSegment::Index(_) => owned("pasted"),
                    }
                } else {
                    owned("pasted")
                };
                let ghost base = key@;
                let ghost mut j: nat = 0;
                while map.contains_key(key.as_str())
                    invariant
                        es == map@,
                        key@ == with_copies(base, j),
                        forall|m: nat| m < j ==> has_key(es, #[trigger] with_copies(base, m)),
                    decreases longest_key(es) + 5 - key@.len(),
                {
                    proof {
                        let i = key_index(es, key@)->0;
                        crate::tree::value::lemma_key_index(es, key@);
                        lemma_longest_key(es, i);
                        assert(has_key(es, with_copies(base, j)));
                        reveal_strlit("_copy");
                        assert(key@.len() <= longest_key(es));
                    }
                    push_str(&mut key, "_copy");
                    proof {
                        j = j + 1;
                    }
                }
                proof {
                    lemma_copies_needed(es, base, j);
                }
                let target = child_of(parent_path.as_slice(), PathSegment::Key(owned(key.as_str())));
                match self.tree.insert(&target, value) {
                    Ok(()) => Ok(key),
                    Err(e) => Err(e),
                }
            },
            Some(Value::Array(arr)) => {
                let idx = arr.len();
                let target = child_of(parent_path.as_slice(), PathSegment::Index(idx));
                match self.tree.insert(&target, value) {
                    Ok(()) => {
                        let mut l = owned("[");
                        push_str(&mut l, u64_text(idx as u64).as_str());
                        push_str(&mut l, "]");
                        Ok(l)
                    },
                    Err(e) => Err(e),
                }
            },
            _ => Err(crate::tree::TreeError::PathNotFound),
        };
        match result {
            Ok(label) => {
                self.clipboard = None;
                self.modified = true;
                let mut m = owned("Pasted as ");
                push_str(&mut m, label.as_str());
                push_str(&mut m, " — Ctrl+Z undo");
                self.status = m;
            },
            Err(e) => {
                let mut m = owned("Paste error: ");
                push_str(&mut m, e.message().as_str());
                self.status = m;
            },
        }
    }
}


// ── search ──────────────────────────────────────────────────────────

/// `f` gives one text per float.
pub open spec fn deterministic<F: Fn(u64) -> String>(f: F) -> bool {
    forall|b: u64, t1: String, t2: String|
        #[trigger] f.ensures((b,), t1) && #[trigger] f.ensures((b,), t2) ==> t1@ == t2@
}

/// The text that `f` gives for the float with bits `b`.
pub open spec fn text_of<F: Fn(u64) -> String>(f: F, b: u64) -> Seq<char> {
    (choose|t: String| f.ensures((b,), t))@
}

proof fn lemma_text_of<F: Fn(u64) -> String>(f: F, b: u64, t: String)
    requires
        deterministic(f),
        f.ensures((b,), t),
    ensures
        t@ == text_of(f, b),
{
    let c = choose|t: String| f.ensures((b,), t);
    assert(f.ensures((b,), c));
}

/// The text of a leaf that search looks at (containers have none).
pub open spec fn search_text<F: Fn(u64) -> String>(f: F, v: Val) -> Option<Seq<char>> {
    match v {
        Val::Str(s) => Some(s),
        Val::Int(i) => Some(int_text(i as int)),
        Val::Float(b) => Some(text_of(f, b)),
        Val::Bool(b) => Some(if b { "true"@ } else { "false"@ }),
        Val::Null => Some("null"@),
        _ => None,
    }
}

/// The matches found under node `v` at path `p`, appended to `acc`: an
/// object entry matches by its key or its value's text, an array item by its
/// text; children are searched after their parent, in order.
pub open spec fn search_node<F: Fn(u64) -> String>(f: F, v: Val, p: Seq<Seg>, q: Seq<char>, acc: Seq<Seq<Seg>>) -> Seq<Seq<Seg>>
    decreases v,
{
    match v {
        Val::Object(es) => search_entries(f, es, p, q, acc),
        Val::Array(a) => search_items(f, a, p, q, acc),
        _ => acc,
    }
}

/// The results after looking at one object entry (key `k`, value `v`, at `cp`).
pub open spec fn entry_hits<F: Fn(u64) -> String>(f: F, k: Seq<char>, v: Val, cp: Seq<Seg>, q: Seq<char>, acc: Seq<Seq<Seg>>) -> Seq<Seq<Seg>> {
    let a2 = if contains(lowercase_of(k), q) { acc.push(cp) } else { acc };
    match search_text(f, v) {
        Some(t) => if contains(lowercase_of(t), q) && !a2.contains(cp) { a2.push(cp) } else { a2 },
        None => a2,
    }
}

/// The results after looking at one array item (`v`, at `cp`).
pub open spec fn item_hits<F: Fn(u64) -> String>(f: F, v: Val, cp: Seq<Seg>, q: Seq<char>, acc: Seq<Seq<Seg>>) -> Seq<Seq<Seg>> {
    match search_text(f, v) {
        Some(t) => if contains(lowercase_of(t), q) { acc.push(cp) } else { acc },
        None => acc,
    }
}

/// Searching the entries of an object, in order.
pub open spec fn search_entries<F: Fn(u64) -> String>(f: F, es: Seq<(Seq<char>, Val)>, p: Seq<Seg>, q: Seq<char>, acc: Seq<Seq<Seg>>) -> Seq<Seq<Seg>>
    decreases es,
{
    if es.len() == 0 {
        acc
    } else {
        proof {
            assert(decreases_to!(es => es.drop_last()));
            assert(decreases_to!(es => es[es.len() - 1]));
            assert(decreases_to!(es[es.len() - 1] => es[es.len() - 1].1));
        }
        let a1 = search_entries(f, es.drop_last(), p, q, acc);
        let k = es[es.len() - 1].0;
        let v = es[es.len() - 1].1;
        let cp = p.push(Seg::Key(k));
        search_node(f, v, cp, q, entry_hits(f, k, v, cp, q, a1))
    }
}

/// Searching the items of an array, in order.
pub open spec fn search_items<F: Fn(u64) -> String>(f: F, a: Seq<Val>, p: Seq<Seg>, q: Seq<char>, acc: Seq<Seq<Seg>>) -> Seq<Seq<Seg>>
    decreases a,
{
    if a.len() == 0 {
        acc
    } else {
        proof {
            assert(decreases_to!(a => a.drop_last()));
            assert(decreases_to!(a => a[a.len() - 1]));
        }
        let a1 = search_items(f, a.drop_last(), p, q, acc);
        let v = a[a.len() - 1];
        let cp = p.push(Seg::Index((a.len() - 1) as usize));
        search_node(f, v, cp, q, item_hits(f, v, cp, q, a1))
    }
}

/// The search results for query `query` (none for an empty query).
pub open spec fn search_results_for<F: Fn(u64) -> String>(f: F, tree: Val, query: Seq<char>) -> Seq<Seq<Seg>> {
    if query.len() == 0 {
        Seq::empty()
    } else {
        search_node(f, tree, Seq::empty(), lowercase_of(query), Seq::empty())
    }
}

/// The text that search looks at for a leaf.
fn value_to_search_text<F: Fn(u64) -> String>(value: &Value, float_text: &F) -> (r: Option<String>)
    requires
        forall|x: u64| #[trigger] float_text.requires((x,)),
        deterministic(*float_text),
    ensures
        match search_text(*float_text, value@) {
            Some(t) => r matches Some(x) && x@ == t,
            None => r is None,
        },
{
    match value {
        Value::String(s) => Some(owned(s.as_str())),
        Value::Int(i) => Some(i64_text(*i)),
        Value::Float(b) => {
            let t = float_text(*b);
            proof {
                lemma_text_of(*float_text, *b, t);
            }
            Some(t)
        },
        Value::Bool(b) => Some(if *b { owned("true") } else { owned("false") }),
        Value::Null => Some(owned("null")),
        _ => None,
    }
}

/// Append the matches under `value` at `parent` to `results`.
fn search_tree<F: Fn(u64) -> String>(value: &Value, parent: &Path, query: &str, results: &mut Vec<Path>, float_text: &F)
    requires
        forall|x: u64| #[trigger] float_text.requires((x,)),
        deterministic(*float_text),
    ensures
        paths_view(final(results)@) == search_node(*float_text, value@, path_view(parent@), query@, paths_view(old(results)@)),
    decreases value@,
{
    let ghost pv = path_view(parent@);
    let ghost f = *float_text;
    match value {
        Value::Object(map) => {
            let ghost es = map@;
            let ghost start = paths_view(results@);
            let mut i: usize = 0;
            proof {
                assert(es.take(0) =~= Seq::<(Seq<char>, Val)>::empty());
            }
            while i < map.len()
                invariant
                    i <= es.len(),
                    es == map@,
                    value@ == Val::Object(es),
                    pv == path_view(parent@),
                    f == *float_text,
                    forall|x: u64| #[trigger] float_text.requires((x,)),
                    deterministic(*float_text),
                    paths_view(results@) == search_entries(f, es.take(i as int), pv, query@, start),
                decreases es.len() - i,
            {
                let k = map.key_at(i);
                let child = map.value_at(i);
                let cp = child_of(parent.as_slice(), PathSegment::Key(owned(k.as_str())));
                let ghost a1 = paths_view(results@);
                proof {
                    assert(path_view(cp@) == pv.push(Seg::Key(es[i as int].0)));
                    assert(es.take(i + 1).drop_last() =~= es.take(i as int));
                }
                let lk = to_lowercase(k.as_str());
                if str_contains(lk.as_str(), query) {
                    let ghost b = results@;
                    results.push(clone_path(cp.as_slice()));
                    proof {
                        assert(paths_view(results@) =~= paths_view(b).push(path_view(cp@)));
                    }
                }
                match value_to_search_text(child, float_text) {
                    Some(text) => {
                        let lt = to_lowercase(text.as_str());
                        if str_contains(lt.as_str(), query) && !contains_path(results.as_slice(), cp.as_slice()) {
                            let ghost b = results@;
                            results.push(clone_path(cp.as_slice()));
                            proof {
                                assert(paths_view(results@) =~= paths_view(b).push(path_view(cp@)));
                            }
                        }
                    },
                    None => {},
                }
                proof {
                    assert(paths_view(results@) == entry_hits(f, es[i as int].0, es[i as int].1, pv.push(Seg::Key(es[i as int].0)), query@, a1));
                    assert(decreases_to!(value@ => value@->Object_0));
                    assert(decreases_to!(es => es[i as int]));
                }
                search_tree(child, &cp, query, results, float_text);
                i = i + 1;
            }
            proof {
                assert(es.take(es.len() as int) =~= es);
            }
        },
        Value::Array(arr) => {
            let ghost items = crate::tree::value::items_view(arr@);
            let ghost start = paths_view(results@);
            let mut i: usize = 0;
            proof {
                assert(items.take(0) =~= Seq::<Val>::empty());
            }
            while i < arr.len()
                invariant
                    i <= items.len(),
                    items.len() == arr@.len(),
                    items == crate::tree::value::items_view(arr@),
                    value@ == Val::Array(items),
                    pv == path_view(parent@),
                    f == *float_text,
                    forall|x: u64| #[trigger] float_text.requires((x,)),
                    deterministic(*float_text),
                    paths_view(results@) == search_items(f, items.take(i as int), pv, query@, start),
                decreases items.len() - i,
            {
                let child = &arr[i];
                let cp = child_of(parent.as_slice(), PathSegment::Index(i));
                let ghost a1 = paths_view(results@);
                proof {
                    assert(items.take(i + 1).drop_last() =~= items.take(i as int));
                    assert(items[i as int] == child@);
                }
                match value_to_search_text(child, float_text) {
                    Some(text) => {
                        let lt = to_lowercase(text.as_str());
                        if str_contains(lt.as_str(), query) {
                            let ghost b = results@;
                            results.push(clone_path(cp.as_slice()));
                            proof {
                                assert(paths_view(results@) =~= paths_view(b).push(path_view(cp@)));
                            }
                        }
                    },
                    None => {},
                }
                proof {
                    assert(decreases_to!(value@ => value@->Array_0));
                    assert(decreases_to!(items => items[i as int]));
                }
                search_tree(child, &cp, query, results, float_text);
                i = i + 1;
            }
            proof {
                assert(items.take(items.len() as int) =~= items);
            }
        },
        _ => {},
    }
}


/// The ancestors of `target` (its first `n` proper prefixes, shortest
/// first) that are not expanded yet.
pub open spec fn missing_ancestors(exp: Seq<Seq<Seg>>, target: Seq<Seg>, n: nat) -> Seq<Seq<Seg>>
    decreases n,
{
    if n == 0 {
        seq![]
    } else {
        missing_ancestors(exp, target, (n - 1) as nat) + if exp.contains(target.take(n - 1)) {
            Seq::<Seq<Seg>>::empty()
        } else {
            seq![target.take(n - 1)]
        }
    }
}

/// The expanded paths after showing `target`: its missing ancestors are
/// added, then the target itself when it is a collapsed container.
pub open spec fn jump_expanded(s: AppView, target: Seq<Seg>) -> Seq<Seq<Seg>> {
    let e1 = s.expanded + missing_ancestors(s.expanded, target, target.len());
    if !e1.contains(target) && target.len() > 0 && (get_at(s.tree, target) matches Some(v) && !is_leaf_of(v)) {
        e1.push(target)
    } else {
        e1
    }
}

/// `i` is the first row at path `target`.
pub open spec fn is_first_row(rows: Seq<RowView>, target: Seq<Seg>, i: int) -> bool {
    0 <= i < rows.len() && rows[i].path == target && forall|j: int| 0 <= j < i ==> #[trigger] rows[j].path != target
}

/// The state after moving to the current search match: its ancestors (and
/// itself, when a container) are expanded and the cursor moves to its line.
#[verifier::opaque]
pub open spec fn jumped(s: AppView) -> AppView {
    if s.search_index >= s.search_results.len() {
        s
    } else {
        let target = s.search_results[s.search_index as int];
        let e = jump_expanded(s, target);
        let rows = visible_rows(s.tree, e);
        if exists|i: int| is_first_row(rows, target, i) {
            let i = choose|i: int| is_first_row(rows, target, i);
            AppView {
                expanded: e,
                cursor_index: i as usize,
                scroll_offset: scrolled(i as usize, s.scroll_offset),
                ..s
            }
        } else {
            AppView { expanded: e, ..s }
        }
    }
}

/// `t` is the state after moving to the current search match.
pub open spec fn jump_ok(s: AppView, t: AppView) -> bool {
    t == jumped(s)
}

/// The state after running the search for the current query.
pub open spec fn ran_search<F: Fn(u64) -> String>(f: F, s: AppView) -> AppView {
    AppView { search_results: search_results_for(f, s.tree, s.search_query), search_index: 0, ..s }
}

/// The state after committing the search: the matches are found and the
/// cursor moves to the first.
pub open spec fn commit_search_ok<F: Fn(u64) -> String>(f: F, s: AppView, t: AppView) -> bool {
    if !s.searching {
        t == s
    } else {
        let s1 = ran_search(f, AppView { searching: false, ..s });
        let n = s1.search_results.len();
        if n == 0 {
            t == AppView { status: "No matches found"@, ..s1 }
        } else {
            t == AppView {
                status: "Search: "@ + decimal(n) + " match"@ + (if n == 1 { ""@ } else { "es"@ })
                    + " — n next, N prev, / new search"@,
                ..jumped(s1)
            }
        }
    }
}

/// The state after moving to match `i` of the current results.
pub open spec fn moved_to_match(s: AppView, i: usize, t: AppView) -> bool {
    t == AppView {
        status: "Match "@ + decimal((i + 1) as nat) + "/"@ + decimal(s.search_results.len())
            + " — n next, N prev"@,
        ..jumped(AppView { search_index: i, ..s })
    }
}

impl App {
    /// Start search mode: open the search query input.
    pub fn start_search(&mut self)
        ensures
            final(self)@ == if busy(old(self)@) {
                old(self)@
            } else {
                AppView {
                    searching: true,
                    search_query: Seq::empty(),
                    search_results: Seq::empty(),
                    search_index: 0,
                    status: "/ — type query, Enter to search, n/N next/prev, Esc cancel"@,
                    ..old(self)@
                }
            },
    {
        if self.is_busy() {
            return;
        }
        self.searching = true;
        self.search_query = String::new();
        self.search_results = Vec::new();
        self.search_index = 0;
        self.status = owned("/ — type query, Enter to search, n/N next/prev, Esc cancel");
        proof {
            assert(paths_view(self.search_results@) =~= Seq::<Seq<Seg>>::empty());
        }
    }

    /// Re-run the search for the current query.
    pub fn run_search<F: Fn(u64) -> String>(&mut self, float_text: &F)
        requires
            forall|x: u64| #[trigger] float_text.requires((x,)),
            deterministic(*float_text),
        ensures
            final(self)@ == ran_search(*float_text, old(self)@),
    {
        if str_len(self.search_query.as_str()) == 0 {
            proof {
                if self.search_query@.len() > 0 {
                    crate::editbuf::lemma_total_front(self.search_query@);
                }
            }
            self.search_results = Vec::new();
            self.search_index = 0;
            proof {
                assert(paths_view(self.search_results@) =~= Seq::<Seq<Seg>>::empty());
            }
            return;
        }
        proof {
            if self.search_query@.len() == 0 {
                assert(utf8_total(self.search_query@) == 0);
            }
        }
        let query = to_lowercase(self.search_query.as_str());
        let mut results: Vec<Path> = Vec::new();
        let root: Path = Vec::new();
        proof {
            assert(paths_view(results@) =~= Seq::<Seq<Seg>>::empty());
            assert(path_view(root@) =~= Seq::<Seg>::empty());
        }
        search_tree(&self.tree, &root, query.as_str(), &mut results, float_text);
        self.search_results = results;
        self.search_index = 0;
    }

    /// Move to the current search match (see [`jump_ok`]).
    fn jump_to_search_match(&mut self)
        requires
            old(self).scroll_fits(),
        ensures
            jump_ok(old(self)@, final(self)@),
            final(self)@.search_index == old(self)@.search_index,
            final(self)@.search_results == old(self)@.search_results,
            final(self)@.status == old(self)@.status,
    {
        proof {
            reveal(jumped);
        }
        if self.search_index >= self.search_results.len() {
            proof {
                reveal(jumped);
            }
            return;
        }
        let ghost s = self@;
        let target = clone_path(self.search_results[self.search_index].as_slice());
        let ghost tv = path_view(target@);
        proof {
            assert(tv == s.search_results[s.search_index as int]);
        }
        let mut ancestors: Vec<Path> = Vec::new();
        let mut i: usize = 0;
        while i < target.len()
            invariant
                i <= target@.len(),
                tv == path_view(target@),
                self@ == s,
                paths_view(ancestors@) == missing_ancestors(s.expanded, tv, i as nat),
            decreases target@.len() - i,
        {
            let anc = path_prefix(target.as_slice(), i);
            if !self.is_expanded(&anc) {
                let ghost b = ancestors@;
                ancestors.push(anc);
                proof {
                    assert(paths_view(ancestors@) =~= paths_view(b).push(path_view(anc@)));
                }
            }
            proof {
                assert(missing_ancestors(s.expanded, tv, (i + 1) as nat) =~= missing_ancestors(s.expanded, tv, i as nat) + if s.expanded.contains(tv.take(i as int)) {
                    Seq::<Seq<Seg>>::empty()
                } else {
                    seq![tv.take(i as int)]
                });
            }
            i = i + 1;
        }
        let mut j: usize = 0;
        let ghost e0 = paths_view(self.expanded@);
        let ghost anc_v = paths_view(ancestors@);
        while j < ancestors.len()
            invariant
                j <= ancestors@.len(),
                anc_v == paths_view(ancestors@),
                paths_view(self.expanded@) == e0 + anc_v.take(j as int),
                self@ == (AppView { expanded: paths_view(self.expanded@), ..s }),
            decreases ancestors@.len() - j,
        {
            let ghost b = self.expanded@;
            self.expanded.push(clone_path(ancestors[j].as_slice()));
            proof {
                assert(paths_view(self.expanded@) =~= paths_view(b).push(anc_v[j as int]));
                assert(anc_v.take(j + 1) =~= anc_v.take(j as int).push(anc_v[j as int]));
            }
            j = j + 1;
        }
        proof {
            assert(anc_v.take(anc_v.len() as int) =~= anc_v);
        }
        if !self.is_expanded(&target) && target.len() > 0 {
            let open = match self.tree.get(&target) {
                Some(v) => !v.is_leaf(),
                None => false,
            };
            if open {
                let ghost b = self.expanded@;
                self.expanded.push(clone_path(target.as_slice()));
                proof {
                    assert(paths_view(self.expanded@) =~= paths_view(b).push(tv));
                }
            }
        }
        let ghost e = paths_view(self.expanded@);
        proof {
            assert(e == jump_expanded(s, tv));
        }
        let rows = visible_row_paths(&self.tree, self.expanded.as_slice());
        let mut k: usize = 0;
        assert(s == old(self)@);
        while k < rows.len()
            invariant
                k <= rows@.len(),
                tv == path_view(target@),
                self@ == (AppView { expanded: e, ..s }),
                s == old(self)@,
                s.search_index < s.search_results.len(),
                tv == s.search_results[s.search_index as int],
                e == jump_expanded(s, tv),
                self.scroll_fits(),
                crate::widgets::rows_paths_ok(rows@, visible_rows(s.tree, e)),
                forall|m: int| 0 <= m < k ==> #[trigger] visible_rows(s.tree, e)[m].path != tv,
            decreases rows@.len() - k,
        {
            proof {
                assert(crate::widgets::row_path_ok(rows@[k as int], visible_rows(s.tree, e)[k as int]));
            }
            if paths_equal(rows[k].0.as_slice(), target.as_slice()) {
                proof {
                    let rs = visible_rows(s.tree, e);
                    assert(crate::widgets::row_path_ok(rows@[k as int], rs[k as int]));
                    assert(is_first_row(rs, tv, k as int));
                    let c = choose|i: int| is_first_row(rs, tv, i);
                    if c < k {
                        assert(rs[c].path != tv);
                    }
                    if k < c {
                        assert(rs[k as int].path != tv);
                    }
                }
                self.cursor_index = k;
                self.ensure_cursor_visible();
                proof {
                    reveal(jumped);
                    let rs = visible_rows(s.tree, e);
                    assert(exists|i: int| is_first_row(rs, tv, i));
                    assert((choose|i: int| is_first_row(rs, tv, i)) == k);
                    assert(jumped(s) == AppView {
                        expanded: e,
                        cursor_index: k,
                        scroll_offset: scrolled(k, s.scroll_offset),
                        ..s
                    });
                }
                return;
            }
            k = k + 1;
        }
        proof {
            reveal(jumped);
            let rs = visible_rows(s.tree, e);
            if exists|i: int| is_first_row(rs, tv, i) {
                let c = choose|i: int| is_first_row(rs, tv, i);
                assert(rs[c].path != tv);
            }
        }
    }

    /// Commit the search and move to the first match (see [`commit_search_ok`]).
    #[verifier::spinoff_prover]
    #[verifier::rlimit(60)]
    pub fn commit_search<F: Fn(u64) -> String>(&mut self, float_text: &F)
        requires
            old(self).scroll_fits(),
            forall|x: u64| #[trigger] float_text.requires((x,)),
            deterministic(*float_text),
        ensures
            commit_search_ok(*float_text, old(self)@, final(self)@),
    {
        if !self.searching {
            return;
        }
        self.searching = false;
        self.run_search(float_text);
        if self.search_results.len() == 0 {
            self.status = owned("No matches found");
        } else {
            self.search_index = 0;
            self.jump_to_search_match();
            let ghost s2 = self@;
            let total = self.search_results.len();
            let mut m = owned("Search: ");
            push_str(&mut m, u64_text(total as u64).as_str());
            push_str(&mut m, " match");
            if total == 1 {
                push_str(&mut m, "");
            } else {
                push_str(&mut m, "es");
            }
            push_str(&mut m, " — n next, N prev, / new search");
            self.status = m;
            proof {
                assert(self@ == AppView { status: self@.status, ..s2 });
            }
        }
    }

    /// Leave search mode, clearing the query and the results.
    pub fn cancel_search(&mut self)
        ensures
            final(self)@ == if old(self).searching {
                AppView {
                    searching: false,
                    search_query: Seq::empty(),
                    search_results: Seq::empty(),
                    search_index: 0,
                    status: "Search cancelled"@,
                    ..old(self)@
                }
            } else {
                old(self)@
            },
    {
        if self.searching {
            self.searching = false;
            self.search_query = String::new();
            self.search_results = Vec::new();
            self.search_index = 0;
            self.status = owned("Search cancelled");
            proof {
                assert(paths_view(self.search_results@) =~= Seq::<Seq<Seg>>::empty());
            }
        }
    }

    fn announce_match(&mut self)
        requires
            old(self).search_index < usize::MAX,
        ensures
            final(self)@ == (AppView {
                status: "Match "@ + decimal((old(self).search_index + 1) as nat) + "/"@ + decimal(
                    old(self)@.search_results.len(),
                ) + " — n next, N prev"@,
                ..old(self)@
            }),
    {
        let mut m = owned("Match ");
        push_str(&mut m, u64_text((self.search_index + 1) as u64).as_str());
        push_str(&mut m, "/");
        push_str(&mut m, u64_text(self.search_results.len() as u64).as_str());
        push_str(&mut m, " — n next, N prev");
        self.status = m;
    }

    /// Move to the next search match, wrapping around.
    #[verifier::spinoff_prover]
    #[verifier::rlimit(60)]
    pub fn search_next(&mut self)
        requires
            old(self).scroll_fits(),
            old(self).search_index < usize::MAX,
        ensures
            old(self)@.search_results.len() == 0 ==> final(self)@ == (AppView {
                status: "No active search — press / to search"@,
                ..old(self)@
            }),
            old(self)@.search_results.len() > 0 ==> moved_to_match(
                old(self)@,
                ((old(self).search_index + 1) % (old(self)@.search_results.len() as int)) as usize,
                final(self)@,
            ),
    {
        if self.search_results.len() == 0 {
            self.status = owned("No active search — press / to search");
            return;
        }
        self.search_index = (self.search_index + 1) % self.search_results.len();
        self.jump_to_search_match();
        let ghost s2 = self@;
        self.announce_match();
    }

    /// Move to the previous search match, wrapping around.
    #[verifier::spinoff_prover]
    #[verifier::rlimit(60)]
    pub fn search_prev(&mut self)
        requires
            old(self).scroll_fits(),
        ensures
            old(self)@.search_results.len() == 0 ==> final(self)@ == (AppView {
                status: "No active search — press / to search"@,
                ..old(self)@
            }),
            old(self)@.search_results.len() > 0 ==> moved_to_match(
                old(self)@,
                if old(self).search_index == 0 {
                    (old(self)@.search_results.len() - 1) as usize
                } else {
                    (old(self).search_index - 1) as usize
                },
                final(self)@,
            ),
    {
        if self.search_results.len() == 0 {
            self.status = owned("No active search — press / to search");
            return;
        }
        self.search_index = if self.search_index == 0 {
            self.search_results.len() - 1
        } else {
            self.search_index - 1
        };
        self.jump_to_search_match();
        let ghost s2 = self@;
        self.announce_match();
    }
}


// ── undo / redo, themes, construction ───────────────────────────────

/// The state after undo: the previous tree comes back (the current one can
/// be redone); nothing changes when there is nothing to undo.
pub open spec fn undo_ok(s: AppView, t: AppView) -> bool {
    if s.editing || s.searching {
        t == s
    } else {
        let (h, r) = undo_spec(s.history, s.tree);
        match r {
            Some(v) => t == AppView {
                tree: v,
                history: h,
                modified: true,
                status: "Undone — Ctrl+Y redo  Ctrl+S save"@,
                ..s
            },
            None => t == AppView { history: h, status: "Nothing to undo"@, ..s },
        }
    }
}

/// The state after redo: the undone tree comes back.
pub open spec fn redo_ok(s: AppView, t: AppView) -> bool {
    if s.editing {
        t == s
    } else {
        let (h, r) = redo_spec(s.history, s.tree);
        match r {
            Some(v) => t == AppView {
                tree: v,
                history: h,
                modified: true,
                status: "Redone — Ctrl+Z undo  Ctrl+S save"@,
                ..s
            },
            None => t == AppView { history: h, status: "Nothing to redo"@, ..s },
        }
    }
}

/// The display name of a format.
pub open spec fn format_label(f: Format) -> Seq<char> {
    match f {
        Format::Json => "JSON"@,
        Format::Toml => "TOML"@,
        Format::Yaml => "YAML"@,
    }
}

/// The display name of a format.
pub fn format_name(format: Format) -> (r: &'static str)
    ensures
        r@ == format_label(format),
{
    match format {
        Format::Json => "JSON",
        Format::Toml => "TOML",
        Format::Yaml => "YAML",
    }
}

/// The paths expanded when a file opens: the root, and each top-level key
/// among the first `n` whose value is a container.
pub open spec fn opening_expanded(tree: Val, n: nat) -> Seq<Seq<Seg>>
    decreases n,
{
    if n == 0 {
        seq![Seq::<Seg>::empty()]
    } else {
        let prev = opening_expanded(tree, (n - 1) as nat);
        match tree {
            Val::Object(es) => {
                let p = seq![Seg::Key(es[n - 1].0)];
                if get_at(tree, p) matches Some(v) && !is_leaf_of(v) {
                    prev.push(p)
                } else {
                    prev
                }
            },
            _ => prev,
        }
    }
}

/// The number of top-level entries of an object (0 for anything else).
pub open spec fn top_len(tree: Val) -> nat {
    match tree {
        Val::Object(es) => es.len(),
        _ => 0,
    }
}

impl App {
    /// Undo the last change (see [`undo_ok`]).
    pub fn undo(&mut self)
        ensures
            undo_ok(old(self)@, final(self)@),
    {
        if self.editing || self.searching {
            return;
        }
        let mut current = Value::Null;
        std::mem::swap(&mut current, &mut self.tree);
        match self.history.undo(current.clone()) {
            Some(restored) => {
                self.tree = restored;
                self.modified = true;
                self.status = owned("Undone — Ctrl+Y redo  Ctrl+S save");
            },
            None => {
                self.tree = current;
                self.status = owned("Nothing to undo");
            },
        }
    }

    /// Redo a previously undone change (see [`redo_ok`]).
    pub fn redo(&mut self)
        ensures
            redo_ok(old(self)@, final(self)@),
    {
        if self.editing {
            return;
        }
        let mut current = Value::Null;
        std::mem::swap(&mut current, &mut self.tree);
        match self.history.redo(current.clone()) {
            Some(restored) => {
                self.tree = restored;
                self.modified = true;
                self.status = owned("Redone — Ctrl+Z undo  Ctrl+S save");
            },
            None => {
                self.tree = current;
                self.status = owned("Nothing to redo");
            },
        }
    }

    /// Switch to the next theme preset, wrapping around.
    pub fn cycle_theme(&mut self)
        requires
            old(self).theme_index < usize::MAX,
        ensures
            final(self)@ == theme_cycled(old(self)@),
    {
        self.theme_index = (self.theme_index + 1) % PRESET_COUNT;
        self.theme = preset(self.theme_index);
        let mut m = owned("Theme: ");
        push_str(&mut m, self.theme.name.as_str());
        push_str(&mut m, " — Ctrl+T to cycle");
        self.status = m;
    }

    /// Open an editor on `tree`, read from a file named `file_name` in
    /// `format`: the root and the top-level containers are expanded, the
    /// history starts from the tree, the dark theme is on, and the plugin
    /// that matches the file name (if any) is active.
    #[verifier::spinoff_prover]
    #[verifier::rlimit(80)]
    pub fn new(tree: Value, format: Format, file_name: &str) -> (r: Self)
        ensures
            r@.tree == tree@,
            r@.format == format,
            r@.file_name == file_name@,
            r@.cursor_index == 0,
            r@.expanded == opening_expanded(tree@, top_len(tree@)),
            r@.scroll_offset == 0,
            r@.property_scroll == 0,
            r@.status == file_name@ + " — "@ + format_label(format)
                + "  |  ↑↓ navigate  ← collapse  → expand  Enter edit  Ctrl+S save  q quit"@,
            !r@.modified,
            !r@.should_quit,
            r@.history == (HistoryView { undo: seq![tree@], redo: Seq::empty() }),
            !r@.editing,
            r@.edit_path == Seq::<Seg>::empty(),
            r@.edit_buffer == Seq::<char>::empty(),
            r@.edit_cursor == 0,
            !r@.confirming_delete,
            r@.confirm_delete_path == Seq::<Seg>::empty(),
            !r@.inserting,
            r@.insert_container_path == Seq::<Seg>::empty(),
            !r@.renaming,
            r@.rename_path == Seq::<Seg>::empty(),
            r@.rename_buffer == Seq::<char>::empty(),
            r@.clipboard is None,
            r@.theme_index == 0,
            r@.theme_name == preset_name(0),
            r@.theme_colors == preset_colors(0),
            r@.active_plugin == (if file_name@ == "Cargo.toml"@ {
                Some("Cargo.toml"@)
            } else {
                None::<Seq<char>>
            }),
            !r@.searching,
            r@.search_query == Seq::<char>::empty(),
            r@.search_results == Seq::<Seq<Seg>>::empty(),
            r@.search_index == 0,
            r@.plugins == seq![CargoTomlPlugin],
    {
        let mut expanded: Vec<Path> = Vec::new();
        let root: Path = Vec::new();
        proof {
            assert(path_view(root@) =~= Seq::<Seg>::empty());
        }
        expanded.push(root);
        proof {
            assert(paths_view(expanded@) =~= opening_expanded(tree@, 0));
        }
        match &tree {
            Value::Object(map) => {
                let ghost es = map@;
                let mut i: usize = 0;
                while i < map.len()
                    invariant
                        i <= es.len(),
                        es == map@,
                        tree@ == Val::Object(es),
                        paths_view(expanded@) == opening_expanded(tree@, i as nat),
                    decreases es.len() - i,
                {
                    let k = map.key_at(i);
                    let p: Path = child_of(Vec::<PathSegment>::new().as_slice(), PathSegment::Key(owned(k.as_str())));
                    proof {
                        assert(path_view(Seq::<PathSegment>::empty()) =~= Seq::<Seg>::empty());
                        assert(path_view(p@) =~= seq![Seg::Key(es[i as int].0)]);
                    }
                    let open = match tree.get(&p) {
                        Some(v) => !v.is_leaf(),
                        None => false,
                    };
                    if open {
                        let ghost b = expanded@;
                        expanded.push(p);
                        proof {
                            assert(paths_view(expanded@) =~= paths_view(b).push(seq![Seg::Key(es[i as int].0)]));
                        }
                    }
                    i = i + 1;
                }
            },
            _ => {},
        }
        let fname = format_name(format);
        let mut status = owned(file_name);
        push_str(&mut status, " — ");
        push_str(&mut status, fname);
        push_str(&mut status, "  |  ↑↓ navigate  ← collapse  → expand  Enter edit  Ctrl+S save  q quit");
        let history = History::new(tree.clone());
        let mut plugins: PluginRegistry<CargoTomlPlugin> = PluginRegistry::new();
        plugins.register(CargoTomlPlugin::new());
        assert(plugins.plugins().len() == 1);
        let active_plugin = match plugins.find_for_file(file_name) {
            Some(p) => {
                assert(p.applies_to(file_name@));
                Some(p.name())
            },
            None => {
                assert(!plugins.plugins()[0].applies_to(file_name@));
                None
            },
        };
        let empty_path: Path = Vec::new();
        proof {
            assert(path_view(empty_path@) =~= Seq::<Seg>::empty());
            assert(paths_view(Seq::<Path>::empty()) =~= Seq::<Seq<Seg>>::empty());
        }
        App {
            tree,
            format,
            file_name: owned(file_name),
            cursor_index: 0,
            expanded,
            scroll_offset: 0,
            property_scroll: 0,
            status,
            modified: false,
            should_quit: false,
            history,
            editing: false,
            edit_path: Vec::new(),
            edit_buffer: String::new(),
            edit_cursor: 0,
            confirming_delete: false,
            confirm_delete_path: Vec::new(),
            inserting: false,
            insert_container_path: Vec::new(),
            renaming: false,
            rename_path: Vec::new(),
            rename_buffer: String::new(),
            clipboard: None,
            theme_index: 0,
            theme: preset(0),
            active_plugin,
            searching: false,
            search_query: String::new(),
            search_results: Vec::new(),
            search_index: 0,
            plugins,
        }
    }
}


// ── keys ────────────────────────────────────────────────────────────

/// A key of the keyboard, as the editor tells them apart.
#[derive(Debug, Clone, Copy, PartialEq, Eq, Structural)]
pub enum KeyCode {
    Char(char),
    Enter,
    Esc,
    Left,
    Right,
    Up,
    Down,
    Home,
    End,
    PageUp,
    PageDown,
    Backspace,
    Delete,
    /// Any other key.
    Other,
}

/// A key press: the key, and whether Control (and no other modifier) was held.
#[derive(Debug, Clone, Copy, PartialEq, Eq, Structural)]
pub struct Key {
    pub code: KeyCode,
    pub control: bool,
}

/// What the caller must do after a key press.
#[derive(Debug, Clone, Copy, PartialEq, Eq, Structural)]
pub enum Action {
    /// Nothing more.
    Nothing,
    /// Save the tree to the file.
    Save,
}

/// The state after moving the cursor up one line.
pub open spec fn moved_up(s: AppView) -> AppView {
    let c = if s.cursor_index > 0 { (s.cursor_index - 1) as usize } else { s.cursor_index };
    AppView { cursor_index: c, scroll_offset: scrolled(c, s.scroll_offset), ..s }
}

/// The state after moving the cursor down one line.
pub open spec fn moved_down(s: AppView) -> AppView {
    let c = if s.cursor_index < last_row(s) { (s.cursor_index + 1) as usize } else { s.cursor_index };
    AppView { cursor_index: c, scroll_offset: scrolled(c, s.scroll_offset), ..s }
}

/// The state after moving the cursor to the last line.
pub open spec fn moved_end(s: AppView) -> AppView {
    AppView { cursor_index: last_row(s), scroll_offset: scrolled(last_row(s), s.scroll_offset), ..s }
}

/// The state after moving the cursor up a page.
pub open spec fn paged_up(s: AppView) -> AppView {
    let c = if s.cursor_index >= PAGE { (s.cursor_index - PAGE) as usize } else { 0 };
    AppView { cursor_index: c, scroll_offset: scrolled(c, s.scroll_offset), ..s }
}

/// The state after moving the cursor down a page.
pub open spec fn paged_down(s: AppView) -> AppView {
    let m = last_row(s);
    let c = if s.cursor_index >= m {
        s.cursor_index
    } else if s.cursor_index + PAGE <= m {
        (s.cursor_index + PAGE) as usize
    } else {
        m
    };
    AppView { cursor_index: c, scroll_offset: scrolled(c, s.scroll_offset), ..s }
}

/// The state after expanding the node under the cursor.
pub open spec fn expanded_at_cursor(s: AppView) -> AppView {
    let rows = rows_of(s);
    let c = s.cursor_index as int;
    if c < rows.len() && !rows[c].is_leaf && !s.expanded.contains(rows[c].path) {
        AppView { expanded: s.expanded.push(rows[c].path), ..s }
    } else {
        s
    }
}

/// The state after collapsing the node under the cursor.
pub open spec fn collapsed_at_cursor(s: AppView) -> AppView {
    let rows = rows_of(s);
    let c = s.cursor_index as int;
    if c < rows.len() && s.expanded.contains(rows[c].path) {
        AppView { expanded: remove_path(s.expanded, rows[c].path), ..s }
    } else {
        s
    }
}

/// The state after typing `c` into the edit buffer.
pub open spec fn typed(s: AppView, c: char) -> AppView {
    if !s.editing {
        s
    } else {
        let k = cursor_chars(s);
        AppView {
            edit_buffer: s.edit_buffer.take(k).push(c) + s.edit_buffer.skip(k),
            edit_cursor: (clamped_cursor(s) + utf8_len(c)) as usize,
            ..s
        }
    }
}

/// The state after Backspace in the edit buffer.
pub open spec fn backspaced(s: AppView) -> AppView {
    if !s.editing || s.edit_cursor == 0 {
        s
    } else {
        let k = cursor_chars(s);
        AppView {
            edit_buffer: if k > 0 { s.edit_buffer.take(k - 1) + s.edit_buffer.skip(k) } else { s.edit_buffer },
            edit_cursor: (clamped_cursor(s) - prev_char_len(s)) as usize,
            ..s
        }
    }
}

/// The state after Delete in the edit buffer.
pub open spec fn deleted_at_cursor(s: AppView) -> AppView {
    if !s.editing || s.edit_cursor >= utf8_total(s.edit_buffer) {
        s
    } else {
        let k = cursor_chars(s);
        AppView { edit_buffer: s.edit_buffer.take(k) + s.edit_buffer.skip(k + 1), ..s }
    }
}

/// The state after moving the edit cursor left.
pub open spec fn edit_moved_left(s: AppView) -> AppView {
    if !s.editing || s.edit_cursor == 0 {
        s
    } else {
        AppView { edit_cursor: (clamped_cursor(s) - prev_char_len(s)) as usize, ..s }
    }
}

/// The state after moving the edit cursor right.
pub open spec fn edit_moved_right(s: AppView) -> AppView {
    if !s.editing || s.edit_cursor >= utf8_total(s.edit_buffer) {
        s
    } else {
        AppView { edit_cursor: (s.edit_cursor + utf8_len(s.edit_buffer[cursor_chars(s)])) as usize, ..s }
    }
}

/// The state after pressing a key while editing a leaf.
pub open spec fn edit_key<P: Fn(&str) -> Option<u64>>(parse: P, s: AppView, key: Key, t: AppView, a: Action) -> bool {
    match key.code {
        KeyCode::Enter => a == Action::Nothing && commit_edit_ok(parse, s, t),
        KeyCode::Esc => a == Action::Nothing && t == AppView { editing: false, status: "Edit cancelled"@, ..s },
        KeyCode::Left => a == Action::Nothing && t == edit_moved_left(s),
        KeyCode::Right => a == Action::Nothing && t == edit_moved_right(s),
        KeyCode::Home => a == Action::Nothing && t == AppView { edit_cursor: 0, ..s },
        KeyCode::End => a == Action::Nothing && t == AppView { edit_cursor: utf8_total(s.edit_buffer) as usize, ..s },
        KeyCode::Backspace => a == Action::Nothing && t == backspaced(s),
        KeyCode::Delete => a == Action::Nothing && t == deleted_at_cursor(s),
        KeyCode::Char(c) => if c == 'c' && key.control {
            a == Action::Nothing && t == s
        } else if c == 's' && key.control {
            a == Action::Save && commit_edit_ok(parse, s, t)
        } else {
            a == Action::Nothing && t == typed(s, c)
        },
        _ => a == Action::Nothing && t == s,
    }
}

/// The state after pressing a key while renaming.
pub open spec fn rename_key_pressed(s: AppView, key: Key, t: AppView) -> bool {
    match key.code {
        KeyCode::Enter => commit_rename_ok(s, t),
        KeyCode::Esc => t == AppView { renaming: false, status: "Rename cancelled"@, ..s },
        KeyCode::Backspace => t == if s.rename_buffer.len() > 0 {
            AppView { rename_buffer: s.rename_buffer.drop_last(), ..s }
        } else {
            s
        },
        KeyCode::Char(c) => t == AppView { rename_buffer: s.rename_buffer.push(c), ..s },
        _ => t == s,
    }
}

/// The state after pressing a key while a delete waits for confirmation.
pub open spec fn confirm_key_pressed(s: AppView, key: Key, t: AppView) -> bool {
    if key.code == KeyCode::Char('d') || key.code == KeyCode::Char('y') || key.code == KeyCode::Char('Y')
        || key.code == KeyCode::Enter {
        confirm_delete_ok(s, t)
    } else {
        t == AppView { confirming_delete: false, status: "Delete cancelled"@, ..s }
    }
}

/// The state after pressing a key in the type picker.
pub open spec fn insert_key_pressed(s: AppView, key: Key, t: AppView) -> bool {
    match key.code {
        KeyCode::Esc => t == AppView { inserting: false, status: "Insert cancelled"@, ..s },
        KeyCode::Char(c) => if c == 's' {
            commit_insert_ok(s, Val::Str(Seq::empty()), t)
        } else if c == 'n' {
            commit_insert_ok(s, Val::Int(0), t)
        } else if c == 'f' {
            commit_insert_ok(s, Val::Float(0), t)
        } else if c == 'b' {
            commit_insert_ok(s, Val::Bool(false), t)
        } else if c == 'a' {
            commit_insert_ok(s, Val::Array(Seq::empty()), t)
        } else if c == 'o' {
            commit_insert_ok(s, Val::Object(Seq::empty()), t)
        } else {
            t == s
        },
        _ => t == s,
    }
}

/// The state after pressing a key while typing a search query.
pub open spec fn search_key_pressed<F: Fn(u64) -> String>(f: F, s: AppView, key: Key, t: AppView) -> bool {
    match key.code {
        KeyCode::Enter => commit_search_ok(f, s, t),
        KeyCode::Esc => t == AppView {
            searching: false,
            search_query: Seq::empty(),
            search_results: Seq::empty(),
            search_index: 0,
            status: "Search cancelled"@,
            ..s
        },
        KeyCode::Backspace => t == if s.search_query.len() > 0 {
            ran_search(f, AppView { search_query: s.search_query.drop_last(), ..s })
        } else {
            s
        },
        KeyCode::Char(c) => t == ran_search(f, AppView { search_query: s.search_query.push(c), ..s }),
        _ => t == s,
    }
}

/// The state after Enter in normal mode: a container toggles, a leaf starts editing.
pub open spec fn enter_pressed<F: Fn(u64) -> String>(f: F, s: AppView, t: AppView) -> bool {
    let rows = rows_of(s);
    if s.cursor_index < rows.len() && !rows[s.cursor_index as int].is_leaf {
        t == AppView { expanded: toggled(s), ..s }
    } else if cursor_path_of(s).len() != 0 {
        start_edit_ok(f, s, t)
    } else {
        t == s
    }
}

/// The state after Space in normal mode: a boolean under the cursor toggles.
pub open spec fn space_pressed<F: Fn(u64) -> String>(f: F, s: AppView, t: AppView) -> bool {
    let p = cursor_path_of(s);
    if p.len() != 0 && get_at(s.tree, p) matches Some(Val::Bool(_)) {
        start_edit_ok(f, s, t)
    } else {
        t == s
    }
}

/// The state after a key press in normal mode.
pub open spec fn normal_key<F: Fn(u64) -> String>(f: F, s: AppView, key: Key, t: AppView, a: Action) -> bool {
    let ctrl = key.control;
    if key.code == KeyCode::Char('s') && ctrl {
        a == Action::Save && t == s
    } else {
        a == Action::Nothing && match key.code {
            KeyCode::Up => t == moved_up(s),
            KeyCode::Down => t == moved_down(s),
            KeyCode::Left => t == collapsed_at_cursor(s),
            KeyCode::Right => t == expanded_at_cursor(s),
            KeyCode::Enter => enter_pressed(f, s, t),
            KeyCode::Home => t == AppView { cursor_index: 0, scroll_offset: 0, ..s },
            KeyCode::End => t == moved_end(s),
            KeyCode::PageUp => t == paged_up(s),
            KeyCode::PageDown => t == paged_down(s),
            KeyCode::Char(c) => if c == 'q' || c == 'Q' {
                t == AppView { should_quit: true, ..s }
            } else if c == ' ' {
                space_pressed(f, s, t)
            } else if c == 'e' && ctrl {
                t == AppView { expanded: node_paths(s.tree, Seq::empty()), ..s }
            } else if c == 'r' && ctrl {
                t == AppView { expanded: seq![Seq::<Seg>::empty()], ..s }
            } else if c == 'z' && ctrl {
                undo_ok(s, t)
            } else if c == 'y' && ctrl {
                redo_ok(s, t)
            } else if c == '/' {
                t == if busy(s) {
                    s
                } else {
                    AppView {
                        searching: true,
                        search_query: Seq::empty(),
                        search_results: Seq::empty(),
                        search_index: 0,
                        status: "/ — type query, Enter to search, n/N next/prev, Esc cancel"@,
                        ..s
                    }
                }
            } else if c == 'n' {
                if s.search_results.len() == 0 {
                    t == AppView { status: "No active search — press / to search"@, ..s }
                } else {
                    moved_to_match(s, ((s.search_index + 1) % (s.search_results.len() as int)) as usize, t)
                }
            } else if c == 'N' {
                if s.search_results.len() == 0 {
                    t == AppView { status: "No active search — press / to search"@, ..s }
                } else {
                    moved_to_match(
                        s,
                        if s.search_index == 0 {
                            (s.search_results.len() - 1) as usize
                        } else {
                            (s.search_index - 1) as usize
                        },
                        t,
                    )
                }
            } else if c == 'i' {
                insert_node_ok(s, t)
            } else if c == 'd' {
                delete_node_ok(s, t)
            } else if c == 'R' {
                start_rename_ok(s, t)
            } else if c == 'D' {
                duplicate_node_ok(s, t)
            } else if c == 'x' && ctrl {
                cut_node_ok(s, t)
            } else if c == 'p' && ctrl {
                paste_node_ok(s, t)
            } else if c == 't' && ctrl {
                t == theme_cycled(s)
            } else {
                t == s
            },
            _ => t == s,
        }
    }
}

/// The state and action after a key press: the mode in progress (editing,
/// renaming, confirming a delete, choosing a type, searching, or none)
/// decides what the key does.
pub open spec fn key_ok<F: Fn(u64) -> String, P: Fn(&str) -> Option<u64>>(
    f: F,
    parse: P,
    s: AppView,
    key: Key,
    t: AppView,
    a: Action,
) -> bool {
    if s.editing {
        edit_key(parse, s, key, t, a)
    } else if s.renaming {
        a == Action::Nothing && rename_key_pressed(s, key, t)
    } else if s.confirming_delete {
        a == Action::Nothing && confirm_key_pressed(s, key, t)
    } else if s.inserting {
        a == Action::Nothing && insert_key_pressed(s, key, t)
    } else if s.searching {
        a == Action::Nothing && search_key_pressed(f, s, key, t)
    } else {
        normal_key(f, s, key, t, a)
    }
}

/// The state is one in which any key can be handled: the scroll offset and
/// the counters can move on without overflowing, and the edit cursor sits
/// between characters of a buffer that can grow by one character.
pub open spec fn ready(s: AppView) -> bool {
    &&& s.scroll_offset <= usize::MAX - PAGE
    &&& cursor_ok(s)
    &&& utf8_total(s.edit_buffer) + 4 <= usize::MAX
    &&& s.search_index < usize::MAX
    &&& s.theme_index < usize::MAX
}


impl App {
    /// Whether the state meets what [`App::handle_key`] needs (see [`ready`]).
    pub fn is_ready(&self) -> (r: bool)
        ensures
            r == ready(self@),
    {
        let total = str_len(self.edit_buffer.as_str());
        if total > usize::MAX - 4 {
            return false;
        }
        let boundary = if !self.editing {
            true
        } else if self.edit_cursor > total {
            true
        } else {
            let cs = chars_of(self.edit_buffer.as_str());
            let (_, used) = fit_exec(&cs, self.edit_cursor as u64);
            used == self.edit_cursor as u64
        };
        boundary && self.scroll_offset <= usize::MAX - PAGE && self.search_index < usize::MAX
            && self.theme_index < usize::MAX
    }
}

/// The string without its last character.
fn without_last(s: &String) -> (r: String)
    requires
        s@.len() > 0,
    ensures
        r@ == s@.drop_last(),
{
    let cs = chars_of(s.as_str());
    let head = char_range(&cs, 0, cs.len() - 1);
    proof {
        assert(cs@.subrange(0, cs@.len() - 1) =~= s@.drop_last());
    }
    string_from_chars(head.as_slice())
}

impl App {
    fn edit_mode_key<P: Fn(&str) -> Option<u64>>(&mut self, key: Key, parse_float: &P) -> (a: Action)
        requires
            old(self).editing,
            ready(old(self)@),
            forall|x: &str| #[trigger] parse_float.requires((x,)),
        ensures
            edit_key(*parse_float, old(self)@, key, final(self)@, a),
    {
        match key.code {
            KeyCode::Enter => {
                self.commit_edit(parse_float);
            },
            KeyCode::Esc => {
                self.cancel_edit();
            },
            KeyCode::Left => {
                self.edit_cursor_left();
            },
            KeyCode::Right => {
                self.edit_cursor_right();
            },
            KeyCode::Home => {
                self.edit_cursor_home();
            },
            KeyCode::End => {
                self.edit_cursor_end();
            },
            KeyCode::Backspace => {
                self.edit_delete_before_cursor();
            },
            KeyCode::Delete => {
                self.edit_delete_at_cursor();
            },
            KeyCode::Char(c) => {
                if c == 'c' && key.control {
                } else if c == 's' && key.control {
                    self.commit_edit(parse_float);
                    return Action::Save;
                } else {
                    self.edit_insert_char(c);
                }
            },
            _ => {},
        }
        Action::Nothing
    }

    fn rename_mode_key(&mut self, key: Key)
        requires
            old(self).renaming,
        ensures
            rename_key_pressed(old(self)@, key, final(self)@),
    {
        match key.code {
            KeyCode::Enter => self.commit_rename(),
            KeyCode::Esc => self.cancel_rename(),
            KeyCode::Backspace => {
                if chars_of(self.rename_buffer.as_str()).len() > 0 {
                    self.rename_buffer = without_last(&self.rename_buffer);
                }
            },
            KeyCode::Char(c) => {
                crate::text::push_char(&mut self.rename_buffer, c);
            },
            _ => {},
        }
    }

    fn confirm_mode_key(&mut self, key: Key)
        requires
            old(self).confirming_delete,
        ensures
            confirm_key_pressed(old(self)@, key, final(self)@),
    {
        let code = key.code;
        if code == KeyCode::Char('d') || code == KeyCode::Char('y') || code == KeyCode::Char('Y')
            || code == KeyCode::Enter {
            self.confirm_delete();
        } else {
            self.confirming_delete = false;
            self.status = owned("Delete cancelled");
        }
    }

    fn insert_mode_key(&mut self, key: Key)
        requires
            old(self).inserting,
        ensures
            insert_key_pressed(old(self)@, key, final(self)@),
    {
        match key.code {
            KeyCode::Esc => self.cancel_insert(),
            KeyCode::Char(c) => {
                if c == 's' {
                    proof {
                        reveal_strlit("");
                        assert(""@ =~= Seq::<char>::empty());
                    }
                    let v = Value::string("");
                    assert(v@ == Val::Str(Seq::empty()));
                    self.commit_insert(v);
                } else if c == 'n' {
                    self.commit_insert(Value::integer(0));
                } else if c == 'f' {
                    self.commit_insert(Value::float(0));
                } else if c == 'b' {
                    self.commit_insert(Value::bool(false));
                } else if c == 'a' {
                    self.commit_insert(Value::array());
                } else if c == 'o' {
                    self.commit_insert(Value::object());
                }
            },
            _ => {},
        }
    }

    fn search_mode_key<F: Fn(u64) -> String>(&mut self, key: Key, float_text: &F)
        requires
            old(self).searching,
            old(self).scroll_fits(),
            forall|x: u64| #[trigger] float_text.requires((x,)),
            deterministic(*float_text),
        ensures
            search_key_pressed(*float_text, old(self)@, key, final(self)@),
    {
        match key.code {
            KeyCode::Enter => self.commit_search(float_text),
            KeyCode::Esc => self.cancel_search(),
            KeyCode::Backspace => {
                if chars_of(self.search_query.as_str()).len() > 0 {
                    self.search_query = without_last(&self.search_query);
                    self.run_search(float_text);
                }
            },
            KeyCode::Char(c) => {
                crate::text::push_char(&mut self.search_query, c);
                self.run_search(float_text);
            },
            _ => {},
        }
    }

    #[verifier::spinoff_prover]
    #[verifier::rlimit(80)]
    fn normal_mode_key<F: Fn(u64) -> String>(&mut self, key: Key, float_text: &F) -> (a: Action)
        requires
            !busy(old(self)@),
            !old(self).searching,
            ready(old(self)@),
            forall|x: u64| #[trigger] float_text.requires((x,)),
        ensures
            normal_key(*float_text, old(self)@, key, final(self)@, a),
    {
        let ctrl = key.control;
        if key.code == KeyCode::Char('s') && ctrl {
            return Action::Save;
        }
        match key.code {
            KeyCode::Up => self.cursor_up(),
            KeyCode::Down => self.cursor_down(),
            KeyCode::Left => self.collapse(),
            KeyCode::Right => self.expand(),
            KeyCode::Enter => {
                let rows = visible_row_paths(&self.tree, self.expanded.as_slice());
                proof {
                    if self.cursor_index < rows@.len() {
                        assert(crate::widgets::row_path_ok(rows@[self.cursor_index as int], rows_of(self@)[self.cursor_index as int]));
                    }
                }
                if self.cursor_index < rows.len() && !rows[self.cursor_index].1 {
                    self.toggle_expand();
                } else {
                    let path = self.cursor_path();
                    if path.len() != 0 {
                        self.start_edit(float_text);
                    }
                }
            },
            KeyCode::Home => self.cursor_home(),
            KeyCode::End => self.cursor_end(),
            KeyCode::PageUp => self.cursor_page_up(),
            KeyCode::PageDown => self.cursor_page_down(),
            KeyCode::Char(c) => {
                if c == 'q' || c == 'Q' {
                    self.should_quit = true;
                } else if c == ' ' {
                    let path = self.cursor_path();
                    let on_bool = path.len() != 0 && match self.tree.get(&path) {
                        Some(Value::Bool(_)) => true,
                        _ => false,
                    };
                    if on_bool {
                        self.start_edit(float_text);
                    }
                } else if c == 'e' && ctrl {
                    self.expand_all();
                } else if c == 'r' && ctrl {
                    self.collapse_all();
                } else if c == 'z' && ctrl {
                    self.undo();
                } else if c == 'y' && ctrl {
                    self.redo();
                } else if c == '/' {
                    self.start_search();
                } else if c == 'n' {
                    self.search_next();
                } else if c == 'N' {
                    self.search_prev();
                } else if c == 'i' {
                    self.insert_node();
                } else if c == 'd' {
                    self.delete_node();
                } else if c == 'R' {
                    self.start_rename();
                } else if c == 'D' {
                    self.duplicate_node();
                } else if c == 'x' && ctrl {
                    self.cut_node();
                } else if c == 'p' && ctrl {
                    self.paste_node();
                } else if c == 't' && ctrl {
                    self.cycle_theme();
                }
            },
            _ => {},
        }
        Action::Nothing
    }

    /// Handle a key press (see [`key_ok`]); returns what the caller must do
    /// next. `float_text` gives the decimal text of a float, `parse_float`
    /// reads a float's bits from text.
    pub fn handle_key<F: Fn(u64) -> String, P: Fn(&str) -> Option<u64>>(
        &mut self,
        key: Key,
        float_text: &F,
        parse_float: &P,
    ) -> (a: Action)
        requires
            ready(old(self)@),
            forall|x: u64| #[trigger] float_text.requires((x,)),
            deterministic(*float_text),
            forall|x: &str| #[trigger] parse_float.requires((x,)),
        ensures
            key_ok(*float_text, *parse_float, old(self)@, key, final(self)@, a),
    {
        if self.editing {
            self.edit_mode_key(key, parse_float)
        } else if self.renaming {
            self.rename_mode_key(key);
            Action::Nothing
        } else if self.confirming_delete {
            self.confirm_mode_key(key);
            Action::Nothing
        } else if self.inserting {
            self.insert_mode_key(key);
            Action::Nothing
        } else if self.searching {
            self.search_mode_key(key, float_text);
            Action::Nothing
        } else {
            self.normal_mode_key(key, float_text)
        }
    }
}

/// The state after switching to the next theme preset, wrapping around.
pub open spec fn theme_cycled(s: AppView) -> AppView {
    let i = ((s.theme_index + 1) % (PRESET_COUNT as int)) as usize;
    AppView {
        theme_index: i,
        theme_name: preset_name(i as int),
        theme_colors: preset_colors(i as int),
        status: "Theme: "@ + preset_name(i as int) + " — Ctrl+T to cycle"@,
        ..s
    }
}

/// The state after switching themes `n` times.
pub open spec fn theme_cycled_times(s: AppView, n: nat) -> AppView
    decreases n,
{
    if n == 0 {
        s
    } else {
        theme_cycled(theme_cycled_times(s, (n - 1) as nat))
    }
}

// ── laws ────────────────────────────────────────────────────────────

/// Undo right after a change that was recorded for undo restores the tree
/// from before the change, and a redo after that brings the change back.
pub proof fn law_undo_reverts_recorded_change(s: AppView, t: AppView, u: AppView, w: AppView)
    requires
        valid_history(s.history),
        t.history == record_spec(s.history, s.tree),
        !t.editing,
        !t.searching,
        undo_ok(t, u),
        redo_ok(u, w),
    ensures
        u.tree == s.tree,
        w.tree == t.tree,
{
    crate::history::law_record_then_undo(s.history, s.tree, t.tree);
    crate::history::law_operations_keep_bound(s.history, s.tree);
    crate::history::law_undo_then_redo(t.history, t.tree);
}

/// Committing an edit that changes the tree, then undoing, gives back the
/// tree from before the edit.
pub proof fn law_undo_reverts_commit<P: Fn(&str) -> Option<u64>>(
    parse: P,
    s: AppView,
    t: AppView,
    u: AppView,
)
    requires
        valid_history(s.history),
        !s.searching,
        commit_edit_ok(parse, s, t),
        t.tree != s.tree,
        undo_ok(t, u),
    ensures
        u.tree == s.tree,
{
    crate::history::law_record_then_undo(s.history, s.tree, t.tree);
    match get_at(s.tree, s.edit_path) {
        Some(Val::Float(_)) => {
            let (arg, r) = choose|arg: &str, r: Option<u64>|
                arg@ == trim(s.edit_buffer) && #[trigger] parse.ensures((arg,), r) && match r {
                    Some(b) => t == stored(s, Val::Float(b)),
                    None => t == AppView { status: "Invalid float: '"@ + s.edit_buffer + "'"@, ..s },
                };
        },
        _ => {},
    }
}

/// Confirming a delete that removes a node, then undoing, gives back the
/// tree from before the delete.
pub proof fn law_undo_reverts_delete(s: AppView, t: AppView, u: AppView)
    requires
        valid_history(s.history),
        !s.editing,
        !s.searching,
        confirm_delete_ok(s, t),
        undo_ok(t, u),
    ensures
        u.tree == s.tree,
{
    crate::history::law_record_then_undo(s.history, s.tree, t.tree);
}

/// Switching themes once per preset comes back to the theme in use, and
/// every preset is shown on the way.
pub proof fn law_theme_cycle_returns(s: AppView)
    requires
        s.theme_index < PRESET_COUNT,
    ensures
        theme_cycled_times(s, PRESET_COUNT as nat).theme_index == s.theme_index,
        forall|k: nat| #![trigger theme_cycled_times(s, k)] 0 < k <= PRESET_COUNT ==>
            theme_cycled_times(s, k).theme_index == (s.theme_index + k) % (PRESET_COUNT as int),
{
    assert forall|k: nat| #![trigger theme_cycled_times(s, k)] 0 < k <= PRESET_COUNT implies
        theme_cycled_times(s, k).theme_index == (s.theme_index + k) % (PRESET_COUNT as int) by {
        lemma_cycled_index(s, k);
    }
    lemma_cycled_index(s, PRESET_COUNT as nat);
}

proof fn lemma_cycled_index(s: AppView, k: nat)
    requires
        s.theme_index < PRESET_COUNT,
    ensures
        theme_cycled_times(s, k).theme_index == (s.theme_index + k) % (PRESET_COUNT as int),
    decreases k,
{
    if k > 0 {
        lemma_cycled_index(s, (k - 1) as nat);
        let j = theme_cycled_times(s, (k - 1) as nat).theme_index;
        assert(((j + 1) % 6) == ((s.theme_index + k) % 6)) by (nonlinear_arith)
            requires
                j == (s.theme_index + k - 1) % 6,
                k >= 1,
                s.theme_index >= 0,
        ;
    }
}

/// Committing a rename to a free key moves the value to the new key, which
/// is the trimmed buffer; the old key is gone, and the edit is recorded for
/// undo.
pub proof fn law_commit_rename_moves_value(s: AppView, t: AppView, q: Seq<Seg>, old_k: Seq<char>, es: Seq<(Seq<char>, Val)>)
    requires
        commit_rename_ok(s, t),
        s.renaming,
        crate::tree::laws::well_formed(s.tree),
        s.rename_path == q.push(Seg::Key(old_k)),
        get_at(s.tree, q) == Some(Val::Object(es)),
        key_index(es, old_k) is Some,
        trim(s.rename_buffer).len() > 0,
        key_index(es, trim(s.rename_buffer)) is None,
    ensures
        get_at(t.tree, q.push(Seg::Key(trim(s.rename_buffer)))) == get_at(s.tree, s.rename_path),
        get_at(s.tree, s.rename_path) is Some,
        get_at(t.tree, s.rename_path) is None,
        t.status == "Renamed to '"@ + trim(s.rename_buffer) + "' — Ctrl+Z undo"@,
        t.history == record_spec(s.history, s.tree),
        !t.renaming,
        t.modified,
{
    let k = trim(s.rename_buffer);
    let p = s.rename_path;
    assert(p.drop_last() =~= q);
    assert(p.last() == Seg::Key(old_k));
    assert(rename_spec(s.tree, p, k).1 is Ok);
    crate::tree::laws::law_rename_then_get(s.tree, p, k);
}

/// Duplicating array item `i` puts a copy of it directly after it, shifting
/// the later items up by one, and says where the copy went; the cursor and
/// the rest of the state stay as they were.
pub proof fn law_duplicate_item_follows(s: AppView, t: AppView, q: Seq<Seg>, i: usize, a: Seq<Val>)
    requires
        duplicate_node_ok(s, t),
        !busy(s),
        cursor_path_of(s) == q.push(Seg::Index(i)),
        get_at(s.tree, q) == Some(Val::Array(a)),
        i < a.len(),
        a.len() < usize::MAX,
    ensures
        get_at(t.tree, q) == Some(Val::Array(a.insert(i + 1, a[i as int]))),
        t.status == "Duplicated as "@ + ("["@ + decimal((i + 1) as nat) + "]"@) + " — Ctrl+Z undo"@,
        t.history == record_spec(s.history, s.tree),
        t.modified,
        t == (AppView { tree: t.tree, history: t.history, modified: true, status: t.status, ..s }),
{
    let p = q.push(Seg::Index(i));
    lemma_get_at_push(s.tree, q, Seg::Index(i));
    let target = q.push(Seg::Index((i + 1) as usize));
    assert(p.drop_last() =~= q);
    assert(target.drop_last() =~= q);
    let np = Val::Array(a.insert(i + 1, a[i as int]));
    crate::tree::model::lemma_get_replace_same(s.tree, q, np);
}

/// Duplicating the object entry under key `k` adds a copy under `k_copy`
/// when that key is free, leaving the original in place and the cursor
/// where it was.
pub proof fn law_duplicate_entry_copies(s: AppView, t: AppView, q: Seq<Seg>, k: Seq<char>, es: Seq<(Seq<char>, Val)>)
    requires
        duplicate_node_ok(s, t),
        !busy(s),
        cursor_path_of(s) == q.push(Seg::Key(k)),
        get_at(s.tree, q) == Some(Val::Object(es)),
        crate::tree::value::key_index(es, k) is Some,
        crate::tree::value::key_index(es, k + "_copy"@) is None,
    ensures
        get_at(t.tree, q) == Some(Val::Object(es.push((k + "_copy"@, es[crate::tree::value::key_index(es, k)->0].1)))),
        t.status == "Duplicated as "@ + (k + "_copy"@) + " — Ctrl+Z undo"@,
        t.history == record_spec(s.history, s.tree),
        t == (AppView { tree: t.tree, history: t.history, modified: true, status: t.status, ..s }),
{
    let p = q.push(Seg::Key(k));
    lemma_get_at_push(s.tree, q, Seg::Key(k));
    let target = q.push(Seg::Key(k + "_copy"@));
    assert(p.drop_last() =~= q);
    assert(target.drop_last() =~= q);
    let j = crate::tree::value::key_index(es, k)->0;
    let np = Val::Object(es.push((k + "_copy"@, es[j].1)));
    crate::tree::model::lemma_get_replace_same(s.tree, q, np);
}

// ── search finds array items ────────────────────────────────────────

/// Path `r` leads from `v` to `x`, an item of an array.
pub open spec fn leads_to_item(v: Val, r: Seq<Seg>, x: Val) -> bool {
    &&& r.len() >= 1
    &&& get_at(v, r) == Some(x)
    &&& r.last() is Index
    &&& get_at(v, r.drop_last()) matches Some(Val::Array(_))
}

/// The text of leaf `x`, lowercased, contains `q`.
pub open spec fn text_matches<F: Fn(u64) -> String>(f: F, x: Val, q: Seq<char>) -> bool {
    search_text(f, x) matches Some(t) && contains(lowercase_of(t), q)
}

proof fn lemma_push_keeps(acc: Seq<Seq<Seg>>, e: Seq<Seg>, x: Seq<Seg>)
    requires
        acc.contains(x),
    ensures
        acc.push(e).contains(x),
{
    let i = choose|i: int| 0 <= i < acc.len() && acc[i] == x;
    assert(acc.push(e)[i] == x);
}

proof fn lemma_hits_keep<F: Fn(u64) -> String>(f: F, k: Seq<char>, v: Val, cp: Seq<Seg>, q: Seq<char>, acc: Seq<Seq<Seg>>, x: Seq<Seg>)
    requires
        acc.contains(x),
    ensures
        entry_hits(f, k, v, cp, q, acc).contains(x),
        item_hits(f, v, cp, q, acc).contains(x),
{
    lemma_push_keeps(acc, cp, x);
    if contains(lowercase_of(k), q) {
        lemma_push_keeps(acc.push(cp), cp, x);
    }
}

/// Searching only adds results.
proof fn lemma_node_keeps<F: Fn(u64) -> String>(f: F, v: Val, p: Seq<Seg>, q: Seq<char>, acc: Seq<Seq<Seg>>, x: Seq<Seg>)
    requires
        acc.contains(x),
    ensures
        search_node(f, v, p, q, acc).contains(x),
    decreases v,
{
    match v {
        Val::Object(es) => lemma_entries_keep(f, es, p, q, acc, x),
        Val::Array(a) => lemma_items_keep(f, a, p, q, acc, x),
        _ => {},
    }
}

proof fn lemma_entries_keep<F: Fn(u64) -> String>(f: F, es: Seq<(Seq<char>, Val)>, p: Seq<Seg>, q: Seq<char>, acc: Seq<Seq<Seg>>, x: Seq<Seg>)
    requires
        acc.contains(x),
    ensures
        search_entries(f, es, p, q, acc).contains(x),
    decreases es,
{
    if es.len() > 0 {
        assert(decreases_to!(es => es.drop_last()));
        assert(decreases_to!(es => es[es.len() - 1]));
        assert(decreases_to!(es[es.len() - 1] => es[es.len() - 1].1));
        lemma_entries_keep(f, es.drop_last(), p, q, acc, x);
        let a1 = search_entries(f, es.drop_last(), p, q, acc);
        let k = es[es.len() - 1].0;
        let v = es[es.len() - 1].1;
        let cp = p.push(Seg::Key(k));
        lemma_hits_keep(f, k, v, cp, q, a1, x);
        lemma_node_keeps(f, v, cp, q, entry_hits(f, k, v, cp, q, a1), x);
    }
}

proof fn lemma_items_keep<F: Fn(u64) -> String>(f: F, a: Seq<Val>, p: Seq<Seg>, q: Seq<char>, acc: Seq<Seq<Seg>>, x: Seq<Seg>)
    requires
        acc.contains(x),
    ensures
        search_items(f, a, p, q, acc).contains(x),
    decreases a,
{
    if a.len() > 0 {
        assert(decreases_to!(a => a.drop_last()));
        assert(decreases_to!(a => a[a.len() - 1]));
        lemma_items_keep(f, a.drop_last(), p, q, acc, x);
        let a1 = search_items(f, a.drop_last(), p, q, acc);
        let v = a[a.len() - 1];
        let cp = p.push(Seg::Index((a.len() - 1) as usize));
        lemma_hits_keep(f, seq![], v, cp, q, a1, x);
        lemma_node_keeps(f, v, cp, q, item_hits(f, v, cp, q, a1), x);
    }
}

/// Path `r` (not the root) leads from `v` to a node that search matches
/// under query `q`: an array item by its text, an object entry by its key
/// or its text.
pub open spec fn found_at<F: Fn(u64) -> String>(f: F, v: Val, r: Seq<Seg>, q: Seq<char>) -> bool {
    &&& r.len() >= 1
    &&& get_at(v, r) is Some
    &&& match get_at(v, r.drop_last()) {
        Some(Val::Array(_)) => text_matches(f, get_at(v, r)->0, q),
        Some(Val::Object(_)) => (r.last() matches Seg::Key(k) && contains(lowercase_of(k), q))
            || text_matches(f, get_at(v, r)->0, q),
        _ => false,
    }
}

/// Searching a node finds every matching node below it.
proof fn lemma_node_finds<F: Fn(u64) -> String>(f: F, v: Val, base: Seq<Seg>, q: Seq<char>, acc: Seq<Seq<Seg>>, r: Seq<Seg>)
    requires
        found_at(f, v, r, q),
    ensures
        search_node(f, v, base, q, acc).contains(base + r),
    decreases v,
{
    let seg = r[0];
    let rest = r.drop_first();
    assert(child(v, seg) is Some);
    let c = child(v, seg)->0;
    assert(get_at(c, rest) == get_at(v, r));
    assert(base + r =~= base.push(seg) + rest);
    if r.len() > 1 {
        assert(r.drop_last().drop_first() =~= rest.drop_last());
        assert(r.drop_last()[0] == seg);
        assert(rest.last() == r.last());
        assert(get_at(v, r.drop_last()) == get_at(c, rest.drop_last()));
        assert(found_at(f, c, rest, q));
    } else {
        assert(r.drop_last() =~= Seq::<Seg>::empty());
        assert(rest =~= Seq::<Seg>::empty());
        assert(r.last() == seg);
    }
    match (seg, v) {
        (Seg::Key(k), Val::Object(es)) => {
            crate::tree::value::lemma_key_index(es, k);
            let j = crate::tree::value::key_index(es, k)->0;
            lemma_entries_finds(f, es, base, q, acc, j, rest);
        },
        (Seg::Index(i), Val::Array(a)) => {
            lemma_items_finds(f, a, base, q, acc, i as int, rest);
        },
        _ => {},
    }
}

proof fn lemma_entries_finds<F: Fn(u64) -> String>(
    f: F,
    es: Seq<(Seq<char>, Val)>,
    base: Seq<Seg>,
    q: Seq<char>,
    acc: Seq<Seq<Seg>>,
    j: int,
    r: Seq<Seg>,
)
    requires
        0 <= j < es.len(),
        (r.len() == 0 && (contains(lowercase_of(es[j].0), q) || text_matches(f, es[j].1, q)))
            || found_at(f, es[j].1, r, q),
    ensures
        search_entries(f, es, base, q, acc).contains(base.push(Seg::Key(es[j].0)) + r),
    decreases es,
{
    assert(decreases_to!(es => es.drop_last()));
    assert(decreases_to!(es => es[es.len() - 1]));
    assert(decreases_to!(es[es.len() - 1] => es[es.len() - 1].1));
    let a1 = search_entries(f, es.drop_last(), base, q, acc);
    let k = es[es.len() - 1].0;
    let v = es[es.len() - 1].1;
    let cp = base.push(Seg::Key(k));
    let target = base.push(Seg::Key(es[j].0)) + r;
    let h = entry_hits(f, k, v, cp, q, a1);
    if j == es.len() - 1 {
        if r.len() == 0 && (contains(lowercase_of(k), q) || text_matches(f, v, q)) {
            assert(target =~= cp);
            let a2 = if contains(lowercase_of(k), q) { a1.push(cp) } else { a1 };
            if contains(lowercase_of(k), q) {
                assert(a2[a1.len() as int] == cp);
                if !(h == a2) {
                    lemma_push_keeps(a2, cp, cp);
                }
            } else {
                if h != a2 {
                    assert(h[a2.len() as int] == cp);
                }
            }
            assert(h.contains(cp));
            lemma_node_keeps(f, v, cp, q, h, target);
        } else {
            lemma_node_finds(f, v, cp, q, h, r);
        }
    } else {
        assert(es.drop_last()[j] == es[j]);
        lemma_entries_finds(f, es.drop_last(), base, q, acc, j, r);
        lemma_hits_keep(f, k, v, cp, q, a1, target);
        lemma_node_keeps(f, v, cp, q, h, target);
    }
}

proof fn lemma_items_finds<F: Fn(u64) -> String>(
    f: F,
    a: Seq<Val>,
    base: Seq<Seg>,
    q: Seq<char>,
    acc: Seq<Seq<Seg>>,
    i: int,
    r: Seq<Seg>,
)
    requires
        0 <= i < a.len(),
        (r.len() == 0 && text_matches(f, a[i], q)) || found_at(f, a[i], r, q),
    ensures
        search_items(f, a, base, q, acc).contains(base.push(Seg::Index(i as usize)) + r),
    decreases a,
{
    assert(decreases_to!(a => a.drop_last()));
    assert(decreases_to!(a => a[a.len() - 1]));
    let a1 = search_items(f, a.drop_last(), base, q, acc);
    let v = a[a.len() - 1];
    let cp = base.push(Seg::Index((a.len() - 1) as usize));
    let target = base.push(Seg::Index(i as usize)) + r;
    if i == a.len() - 1 {
        if r.len() == 0 && text_matches(f, v, q) {
            assert(target =~= cp);
            let h = item_hits(f, v, cp, q, a1);
            assert(h == a1.push(cp));
            assert(h[a1.len() as int] == cp);
            lemma_node_keeps(f, v, cp, q, h, target);
        } else {
            lemma_node_finds(f, v, cp, q, item_hits(f, v, cp, q, a1), r);
        }
    } else {
        assert(a.drop_last()[i] == a[i]);
        lemma_items_finds(f, a.drop_last(), base, q, acc, i, r);
        lemma_hits_keep(f, seq![], v, cp, q, a1, target);
        lemma_node_keeps(f, v, cp, q, item_hits(f, v, cp, q, a1), target);
    }
}

/// Search finds every node that matches the query: every array item whose
/// text, lowercased, contains the lowercased query, and every object entry
/// whose key or text does; wherever it stands in the tree.
pub proof fn law_search_finds_matches<F: Fn(u64) -> String>(f: F, tree: Val, query: Seq<char>, r: Seq<Seg>)
    requires
        query.len() > 0,
        found_at(f, tree, r, lowercase_of(query)),
    ensures
        search_results_for(f, tree, query).contains(r),
{
    lemma_node_finds(f, tree, Seq::empty(), lowercase_of(query), Seq::empty(), r);
    assert(Seq::<Seg>::empty() + r =~= r);
}

/// In particular, search finds every array item whose text matches.
pub proof fn law_search_finds_array_items<F: Fn(u64) -> String>(f: F, tree: Val, query: Seq<char>, r: Seq<Seg>, x: Val)
    requires
        query.len() > 0,
        leads_to_item(tree, r, x),
        text_matches(f, x, lowercase_of(query)),
    ensures
        search_results_for(f, tree, query).contains(r),
{
    law_search_finds_matches(f, tree, query, r);
}

// ── search finds only matches ───────────────────────────────────────

/// Every array in `v` can be indexed by a `usize` (true of every value held
/// in memory).
pub open spec fn indexable(v: Val) -> bool
    decreases v,
{
    match v {
        Val::Object(es) => forall|i: int| 0 <= i < es.len() ==> indexable(#[trigger] es[i].1),
        Val::Array(a) => a.len() <= usize::MAX && forall|i: int| 0 <= i < a.len() ==> indexable(#[trigger] a[i]),
        _ => true,
    }
}

/// `x` is `base` followed by a path under which search matches a node of `v`.
pub open spec fn found_below<F: Fn(u64) -> String>(f: F, v: Val, base: Seq<Seg>, q: Seq<char>, x: Seq<Seg>) -> bool {
    &&& base.len() <= x.len()
    &&& x.subrange(0, base.len() as int) == base
    &&& found_at(f, v, x.subrange(base.len() as int, x.len() as int), q)
}

proof fn lemma_push_has(s: Seq<Seq<Seg>>, e: Seq<Seg>, x: Seq<Seg>)
    requires
        s.push(e).contains(x),
    ensures
        s.contains(x) || x == e,
{
    let i = choose|i: int| 0 <= i < s.push(e).len() && s.push(e)[i] == x;
    if i < s.len() {
        assert(s[i] == x);
    }
}

/// A result that one entry or item adds is the path of that entry or item.
proof fn lemma_hits_only<F: Fn(u64) -> String>(f: F, k: Seq<char>, v: Val, cp: Seq<Seg>, q: Seq<char>, acc: Seq<Seq<Seg>>, x: Seq<Seg>)
    ensures
        entry_hits(f, k, v, cp, q, acc).contains(x) ==> acc.contains(x) || (x == cp && (
            contains(lowercase_of(k), q) || text_matches(f, v, q))),
        item_hits(f, v, cp, q, acc).contains(x) ==> acc.contains(x) || (x == cp && text_matches(f, v, q)),
{
    let a2 = if contains(lowercase_of(k), q) { acc.push(cp) } else { acc };
    if entry_hits(f, k, v, cp, q, acc).contains(x) {
        if entry_hits(f, k, v, cp, q, acc) != a2 {
            lemma_push_has(a2, cp, x);
        }
        if a2.contains(x) && contains(lowercase_of(k), q) {
            lemma_push_has(acc, cp, x);
        }
    }
    if item_hits(f, v, cp, q, acc).contains(x) && item_hits(f, v, cp, q, acc) != acc {
        lemma_push_has(acc, cp, x);
    }
}

/// A path into the leading entries of an object leads to the same node in
/// the whole object.
proof fn lemma_found_in_entries<F: Fn(u64) -> String>(f: F, es: Seq<(Seq<char>, Val)>, r: Seq<Seg>, q: Seq<char>)
    requires
        es.len() > 0,
        found_at(f, Val::Object(es.drop_last()), r, q),
    ensures
        found_at(f, Val::Object(es), r, q),
{
    let pre = es.drop_last();
    let k = r[0]->Key_0;
    assert(child(Val::Object(pre), r[0]) is Some);
    crate::tree::value::lemma_key_index(pre, k);
    crate::tree::value::lemma_key_index(es, k);
    let j = key_index(pre, k)->0;
    assert(pre[j] == es[j]);
    assert forall|i: int| 0 <= i < j implies es[i].0 != k by {
        assert(pre[i] == es[i]);
    }
    assert(crate::tree::value::is_first_key(es, k, j));
    assert(child(Val::Object(es), r[0]) == child(Val::Object(pre), r[0]));
    if r.len() > 1 {
        assert(r.drop_last()[0] == r[0]);
        assert(r.drop_last().drop_first() =~= r.drop_first().drop_last());
    }
}

/// A path into the leading items of an array leads to the same node in the
/// whole array.
proof fn lemma_found_in_items<F: Fn(u64) -> String>(f: F, a: Seq<Val>, r: Seq<Seg>, q: Seq<char>)
    requires
        a.len() > 0,
        found_at(f, Val::Array(a.drop_last()), r, q),
    ensures
        found_at(f, Val::Array(a), r, q),
{
    let pre = a.drop_last();
    assert(child(Val::Array(pre), r[0]) is Some);
    let i = r[0]->Index_0;
    assert(pre[i as int] == a[i as int]);
    assert(child(Val::Array(a), r[0]) == child(Val::Array(pre), r[0]));
    if r.len() > 1 {
        assert(r.drop_last()[0] == r[0]);
    }
}

/// A match found below child `c` of `v` (reached by `seg`) is a match below `v`.
proof fn lemma_found_through<F: Fn(u64) -> String>(f: F, v: Val, seg: Seg, c: Val, base: Seq<Seg>, q: Seq<char>, x: Seq<Seg>)
    requires
        child(v, seg) == Some(c),
        found_below(f, c, base.push(seg), q, x),
    ensures
        found_below(f, v, base, q, x),
{
    let cp = base.push(seg);
    let r = x.subrange(base.len() as int, x.len() as int);
    let r2 = x.subrange(cp.len() as int, x.len() as int);
    assert(x.subrange(0, base.len() as int) =~= cp.subrange(0, base.len() as int));
    assert(cp.subrange(0, base.len() as int) =~= base);
    assert(r[0] == x.subrange(0, cp.len() as int)[base.len() as int]);
    assert(r[0] == seg);
    assert(r.drop_first() =~= r2);
    assert(get_at(v, r) == get_at(c, r2));
    assert(r.drop_last()[0] == seg);
    assert(r.drop_last().drop_first() =~= r2.drop_last());
    assert(get_at(v, r.drop_last()) == get_at(c, r2.drop_last()));
    assert(r.last() == r2.last());
}

/// The path of an entry or item of `v` that matches itself is a match below `v`.
proof fn lemma_found_here<F: Fn(u64) -> String>(f: F, v: Val, seg: Seg, c: Val, base: Seq<Seg>, q: Seq<char>)
    requires
        child(v, seg) == Some(c),
        (v is Array && text_matches(f, c, q)) || (v is Object && ((seg matches Seg::Key(k) && contains(lowercase_of(k), q))
            || text_matches(f, c, q))),
    ensures
        found_below(f, v, base, q, base.push(seg)),
{
    let x = base.push(seg);
    let r = x.subrange(base.len() as int, x.len() as int);
    assert(x.subrange(0, base.len() as int) =~= base);
    assert(r =~= seq![seg]);
    assert(r.drop_first() =~= Seq::<Seg>::empty());
    assert(r.drop_last() =~= Seq::<Seg>::empty());
    assert(r[0] == seg);
    assert(get_at(c, r.drop_first()) == Some(c));
    assert(get_at(v, r) == Some(c));
}

/// Every result of searching under `v` was there before or is a match below `v`.
proof fn lemma_node_sound<F: Fn(u64) -> String>(f: F, v: Val, base: Seq<Seg>, q: Seq<char>, acc: Seq<Seq<Seg>>, x: Seq<Seg>)
    requires
        crate::tree::laws::well_formed(v),
        indexable(v),
        search_node(f, v, base, q, acc).contains(x),
    ensures
        acc.contains(x) || found_below(f, v, base, q, x),
    decreases v,
{
    match v {
        Val::Object(es) => lemma_entries_sound(f, es, base, q, acc, x),
        Val::Array(a) => lemma_items_sound(f, a, base, q, acc, x),
        _ => {},
    }
}

proof fn lemma_entries_sound<F: Fn(u64) -> String>(f: F, es: Seq<(Seq<char>, Val)>, base: Seq<Seg>, q: Seq<char>, acc: Seq<Seq<Seg>>, x: Seq<Seg>)
    requires
        crate::tree::laws::well_formed(Val::Object(es)),
        indexable(Val::Object(es)),
        search_entries(f, es, base, q, acc).contains(x),
    ensures
        acc.contains(x) || found_below(f, Val::Object(es), base, q, x),
    decreases es,
{
    if es.len() > 0 {
        assert(decreases_to!(es => es.drop_last()));
        assert(decreases_to!(es => es[es.len() - 1]));
        assert(decreases_to!(es[es.len() - 1] => es[es.len() - 1].1));
        let n = es.len() - 1;
        let pre = es.drop_last();
        let a1 = search_entries(f, pre, base, q, acc);
        let k = es[n].0;
        let v = es[n].1;
        let cp = base.push(Seg::Key(k));
        let h = entry_hits(f, k, v, cp, q, a1);
        assert(crate::tree::laws::well_formed(v));
        assert(indexable(v));
        lemma_node_sound(f, v, cp, q, h, x);
        crate::tree::value::lemma_key_index(es, k);
        assert(crate::tree::value::is_first_key(es, k, n));
        assert(child(Val::Object(es), Seg::Key(k)) == Some(v));
        if found_below(f, v, cp, q, x) {
            lemma_found_through(f, Val::Object(es), Seg::Key(k), v, base, q, x);
        } else {
            lemma_hits_only(f, k, v, cp, q, a1, x);
            if a1.contains(x) {
                assert forall|i: int| 0 <= i < pre.len() implies crate::tree::laws::well_formed(#[trigger] pre[i].1)
                    && indexable(pre[i].1) by {
                    assert(pre[i] == es[i]);
                }
                assert(indexable(Val::Object(pre)));
                assert(crate::tree::laws::well_formed(Val::Object(pre)));
                lemma_entries_sound(f, pre, base, q, acc, x);
                if found_below(f, Val::Object(pre), base, q, x) {
                    lemma_found_in_entries(f, es, x.subrange(base.len() as int, x.len() as int), q);
                }
            } else {
                lemma_found_here(f, Val::Object(es), Seg::Key(k), v, base, q);
            }
        }
    }
}

proof fn lemma_items_sound<F: Fn(u64) -> String>(f: F, a: Seq<Val>, base: Seq<Seg>, q: Seq<char>, acc: Seq<Seq<Seg>>, x: Seq<Seg>)
    requires
        crate::tree::laws::well_formed(Val::Array(a)),
        indexable(Val::Array(a)),
        search_items(f, a, base, q, acc).contains(x),
    ensures
        acc.contains(x) || found_below(f, Val::Array(a), base, q, x),
    decreases a,
{
    if a.len() > 0 {
        assert(decreases_to!(a => a.drop_last()));
        assert(decreases_to!(a => a[a.len() - 1]));
        let n = a.len() - 1;
        let pre = a.drop_last();
        let a1 = search_items(f, pre, base, q, acc);
        let v = a[n];
        let cp = base.push(Seg::Index(n as usize));
        let h = item_hits(f, v, cp, q, a1);
        assert(crate::tree::laws::well_formed(v));
        assert(indexable(v));
        lemma_node_sound(f, v, cp, q, h, x);
        assert(child(Val::Array(a), Seg::Index(n as usize)) == Some(v));
        if found_below(f, v, cp, q, x) {
            lemma_found_through(f, Val::Array(a), Seg::Index(n as usize), v, base, q, x);
        } else {
            lemma_hits_only(f, seq![], v, cp, q, a1, x);
            if a1.contains(x) {
                assert forall|i: int| 0 <= i < pre.len() implies crate::tree::laws::well_formed(#[trigger] pre[i])
                    && indexable(pre[i]) by {
                    assert(pre[i] == a[i]);
                }
                assert(indexable(Val::Array(pre)));
                lemma_items_sound(f, pre, base, q, acc, x);
                if found_below(f, Val::Array(pre), base, q, x) {
                    lemma_found_in_items(f, a, x.subrange(base.len() as int, x.len() as int), q);
                }
            } else {
                lemma_found_here(f, Val::Array(a), Seg::Index(n as usize), v, base, q);
            }
        }
    }
}

/// Search finds nothing but matches: every result is the path of an array
/// item whose text, lowercased, contains the lowercased query, or of an
/// object entry whose key or text does; an empty query finds nothing.
pub proof fn law_search_finds_only_matches<F: Fn(u64) -> String>(f: F, tree: Val, query: Seq<char>, r: Seq<Seg>)
    requires
        crate::tree::laws::well_formed(tree),
        indexable(tree),
        search_results_for(f, tree, query).contains(r),
    ensures
        query.len() > 0,
        found_at(f, tree, r, lowercase_of(query)),
{
    if query.len() == 0 {
        let i = choose|i: int| 0 <= i < search_results_for(f, tree, query).len() && search_results_for(f, tree, query)[i] == r;
        assert(false);
    } else {
        lemma_node_sound(f, tree, Seq::empty(), lowercase_of(query), Seq::empty(), r);
        assert(r.subrange(0, r.len() as int) =~= r);
    }
}

// ── search lists each match once ────────────────────────────────────

/// Path `x` lies strictly below path `p`.
pub open spec fn strictly_below(p: Seq<Seg>, x: Seq<Seg>) -> bool {
    p.len() < x.len() && x.subrange(0, p.len() as int) == p
}

/// `x` lies below one of the entries `es` of the object at `p`.
pub open spec fn under_entry(es: Seq<(Seq<char>, Val)>, p: Seq<Seg>, x: Seq<Seg>) -> bool {
    &&& strictly_below(p, x)
    &&& x[p.len() as int] matches Seg::Key(k)
    &&& key_index(es, k) is Some
}

/// `x` lies below one of the first `n` items of the array at `p`.
pub open spec fn under_item(n: nat, p: Seq<Seg>, x: Seq<Seg>) -> bool {
    &&& strictly_below(p, x)
    &&& x[p.len() as int] matches Seg::Index(i)
    &&& i < n
}

proof fn lemma_push_distinct(s: Seq<Seq<Seg>>, e: Seq<Seg>)
    requires
        s.no_duplicates(),
        !s.contains(e),
    ensures
        s.push(e).no_duplicates(),
{
    let t = s.push(e);
    assert forall|i: int, j: int| 0 <= i < t.len() && 0 <= j < t.len() && i != j implies t[i] != t[j] by {
        if i == s.len() {
            assert(t[j] == s[j]);
        } else if j == s.len() {
            assert(t[i] == s[i]);
        } else {
            assert(t[i] == s[i] && t[j] == s[j]);
        }
    }
}

/// Looking at one entry or item adds its path at most once.
proof fn lemma_hits_distinct<F: Fn(u64) -> String>(f: F, k: Seq<char>, v: Val, cp: Seq<Seg>, q: Seq<char>, acc: Seq<Seq<Seg>>)
    requires
        acc.no_duplicates(),
        !acc.contains(cp),
    ensures
        entry_hits(f, k, v, cp, q, acc).no_duplicates(),
        item_hits(f, v, cp, q, acc).no_duplicates(),
{
    lemma_push_distinct(acc, cp);
}

proof fn lemma_below_step(p: Seq<Seg>, seg: Seg, x: Seq<Seg>)
    ensures
        strictly_below(p, p.push(seg)),
        p.push(seg)[p.len() as int] == seg,
        strictly_below(p.push(seg), x) ==> strictly_below(p, x) && x[p.len() as int] == seg,
{
    let cp = p.push(seg);
    assert(cp.subrange(0, p.len() as int) =~= p);
    if strictly_below(cp, x) {
        assert(x.subrange(0, p.len() as int) =~= cp.subrange(0, p.len() as int));
        assert(x[p.len() as int] == x.subrange(0, cp.len() as int)[p.len() as int]);
    }
}

proof fn lemma_node_distinct<F: Fn(u64) -> String>(f: F, v: Val, p: Seq<Seg>, q: Seq<char>, acc: Seq<Seq<Seg>>)
    requires
        crate::tree::laws::well_formed(v),
        indexable(v),
        acc.no_duplicates(),
        forall|x: Seq<Seg>| acc.contains(x) ==> !strictly_below(p, x),
    ensures
        search_node(f, v, p, q, acc).no_duplicates(),
        forall|x: Seq<Seg>| search_node(f, v, p, q, acc).contains(x) ==> acc.contains(x) || strictly_below(p, x),
    decreases v,
{
    match v {
        Val::Object(es) => lemma_entries_distinct(f, es, p, q, acc),
        Val::Array(a) => lemma_items_distinct(f, a, p, q, acc),
        _ => {},
    }
}

proof fn lemma_entries_distinct<F: Fn(u64) -> String>(f: F, es: Seq<(Seq<char>, Val)>, p: Seq<Seg>, q: Seq<char>, acc: Seq<Seq<Seg>>)
    requires
        crate::tree::laws::well_formed(Val::Object(es)),
        indexable(Val::Object(es)),
        acc.no_duplicates(),
        forall|x: Seq<Seg>| acc.contains(x) ==> !strictly_below(p, x),
    ensures
        search_entries(f, es, p, q, acc).no_duplicates(),
        forall|x: Seq<Seg>| #[trigger] search_entries(f, es, p, q, acc).contains(x) ==> acc.contains(x) || under_entry(es, p, x),
    decreases es,
{
    if es.len() > 0 {
        assert(decreases_to!(es => es.drop_last()));
        assert(decreases_to!(es => es[es.len() - 1]));
        assert(decreases_to!(es[es.len() - 1] => es[es.len() - 1].1));
        let n = es.len() - 1;
        let pre = es.drop_last();
        let k = es[n].0;
        let v = es[n].1;
        let cp = p.push(Seg::Key(k));
        assert forall|i: int| 0 <= i < pre.len() implies crate::tree::laws::well_formed(#[trigger] pre[i].1)
            && indexable(pre[i].1) by {
            assert(pre[i] == es[i]);
        }
        assert(crate::tree::laws::well_formed(Val::Object(pre)));
        assert(indexable(Val::Object(pre)));
        lemma_entries_distinct(f, pre, p, q, acc);
        let a1 = search_entries(f, pre, p, q, acc);
        // a key of the leading entries is not the last key
        assert forall|k2: Seq<char>| key_index(pre, k2) is Some implies k2 != k && key_index(es, k2) is Some by {
            crate::tree::value::lemma_key_index(pre, k2);
            crate::tree::value::lemma_key_index(es, k2);
            let j = key_index(pre, k2)->0;
            assert(pre[j] == es[j]);
        }
        lemma_below_step(p, Seg::Key(k), cp);
        assert(!a1.contains(cp)) by {
            if a1.contains(cp) {
                assert(cp[p.len() as int] == Seg::Key(k));
            }
        }
        lemma_hits_distinct(f, k, v, cp, q, a1);
        let h = entry_hits(f, k, v, cp, q, a1);
        assert forall|x: Seq<Seg>| h.contains(x) implies !strictly_below(cp, x) by {
            lemma_hits_only(f, k, v, cp, q, a1, x);
            lemma_below_step(p, Seg::Key(k), x);
            if x == cp {
                assert(!(cp.len() < x.len()));
            }
        }
        assert(crate::tree::laws::well_formed(v));
        assert(indexable(v));
        lemma_node_distinct(f, v, cp, q, h);
        crate::tree::value::lemma_key_index(es, k);
        assert forall|x: Seq<Seg>| #[trigger] search_entries(f, es, p, q, acc).contains(x) implies acc.contains(x) || under_entry(es, p, x) by {
            lemma_below_step(p, Seg::Key(k), x);
            if !strictly_below(cp, x) {
                lemma_hits_only(f, k, v, cp, q, a1, x);
            }
        }
    }
}

proof fn lemma_items_distinct<F: Fn(u64) -> String>(f: F, a: Seq<Val>, p: Seq<Seg>, q: Seq<char>, acc: Seq<Seq<Seg>>)
    requires
        crate::tree::laws::well_formed(Val::Array(a)),
        indexable(Val::Array(a)),
        acc.no_duplicates(),
        forall|x: Seq<Seg>| acc.contains(x) ==> !strictly_below(p, x),
    ensures
        search_items(f, a, p, q, acc).no_duplicates(),
        forall|x: Seq<Seg>| #[trigger] search_items(f, a, p, q, acc).contains(x) ==> acc.contains(x) || under_item(a.len(), p, x),
    decreases a,
{
    if a.len() > 0 {
        assert(decreases_to!(a => a.drop_last()));
        assert(decreases_to!(a => a[a.len() - 1]));
        let n = a.len() - 1;
        let pre = a.drop_last();
        let v = a[n];
        let cp = p.push(Seg::Index(n as usize));
        assert forall|i: int| 0 <= i < pre.len() implies crate::tree::laws::well_formed(#[trigger] pre[i])
            && indexable(pre[i]) by {
            assert(pre[i] == a[i]);
        }
        assert(indexable(Val::Array(pre)));
        lemma_items_distinct(f, pre, p, q, acc);
        let a1 = search_items(f, pre, p, q, acc);
        lemma_below_step(p, Seg::Index(n as usize), cp);
        assert(!a1.contains(cp)) by {
            if a1.contains(cp) {
                assert(cp[p.len() as int] == Seg::Index(n as usize));
            }
        }
        lemma_hits_distinct(f, seq![], v, cp, q, a1);
        let h = item_hits(f, v, cp, q, a1);
        assert forall|x: Seq<Seg>| h.contains(x) implies !strictly_below(cp, x) by {
            lemma_hits_only(f, seq![], v, cp, q, a1, x);
            lemma_below_step(p, Seg::Index(n as usize), x);
            if x == cp {
                assert(!(cp.len() < x.len()));
            }
        }
        assert(crate::tree::laws::well_formed(v));
        assert(indexable(v));
        lemma_node_distinct(f, v, cp, q, h);
        assert forall|x: Seq<Seg>| #[trigger] search_items(f, a, p, q, acc).contains(x) implies acc.contains(x) || under_item(a.len(), p, x) by {
            lemma_below_step(p, Seg::Index(n as usize), x);
            if !strictly_below(cp, x) {
                lemma_hits_only(f, seq![], v, cp, q, a1, x);
            }
        }
    }
}

/// Search lists each matching node once, even an object entry whose key and
/// text both match.
pub proof fn law_search_results_distinct<F: Fn(u64) -> String>(f: F, tree: Val, query: Seq<char>)
    requires
        crate::tree::laws::well_formed(tree),
        indexable(tree),
    ensures
        search_results_for(f, tree, query).no_duplicates(),
{
    if query.len() > 0 {
        lemma_node_distinct(f, tree, Seq::empty(), lowercase_of(query), Seq::empty());
    }
}

// ── search keeps document order ─────────────────────────────────────

/// `x` stands before `y` in `s`.
pub open spec fn comes_before(s: Seq<Seq<Seg>>, x: Seq<Seg>, y: Seq<Seg>) -> bool {
    exists|m: int, n: int| 0 <= m < n < s.len() && s[m] == x && s[n] == y
}

/// `big` starts with `small`.
pub open spec fn starts_with_results(big: Seq<Seq<Seg>>, small: Seq<Seq<Seg>>) -> bool {
    small.len() <= big.len() && forall|k: int| 0 <= k < small.len() ==> big[k] == small[k]
}

proof fn lemma_before_kept(small: Seq<Seq<Seg>>, big: Seq<Seq<Seg>>, x: Seq<Seg>, y: Seq<Seg>)
    requires
        starts_with_results(big, small),
        comes_before(small, x, y),
    ensures
        comes_before(big, x, y),
{
    let (m, n) = choose|m: int, n: int| 0 <= m < n < small.len() && small[m] == x && small[n] == y;
    assert(big[m] == x && big[n] == y);
}

/// Searching only appends to what was found before.
proof fn lemma_node_appends<F: Fn(u64) -> String>(f: F, v: Val, p: Seq<Seg>, q: Seq<char>, acc: Seq<Seq<Seg>>)
    ensures
        starts_with_results(search_node(f, v, p, q, acc), acc),
    decreases v,
{
    match v {
        Val::Object(es) => lemma_entries_appends(f, es, p, q, acc),
        Val::Array(a) => lemma_items_appends(f, a, p, q, acc),
        _ => {},
    }
}

proof fn lemma_hits_append<F: Fn(u64) -> String>(f: F, k: Seq<char>, v: Val, cp: Seq<Seg>, q: Seq<char>, acc: Seq<Seq<Seg>>)
    ensures
        starts_with_results(entry_hits(f, k, v, cp, q, acc), acc),
        starts_with_results(item_hits(f, v, cp, q, acc), acc),
{
    let a2 = if contains(lowercase_of(k), q) { acc.push(cp) } else { acc };
    assert(starts_with_results(a2, acc));
    assert(starts_with_results(a2.push(cp), acc));
    assert(starts_with_results(acc.push(cp), acc));
}

proof fn lemma_entries_appends<F: Fn(u64) -> String>(f: F, es: Seq<(Seq<char>, Val)>, p: Seq<Seg>, q: Seq<char>, acc: Seq<Seq<Seg>>)
    ensures
        starts_with_results(search_entries(f, es, p, q, acc), acc),
    decreases es,
{
    if es.len() > 0 {
        assert(decreases_to!(es => es.drop_last()));
        assert(decreases_to!(es => es[es.len() - 1]));
        assert(decreases_to!(es[es.len() - 1] => es[es.len() - 1].1));
        lemma_entries_appends(f, es.drop_last(), p, q, acc);
        let a1 = search_entries(f, es.drop_last(), p, q, acc);
        let k = es[es.len() - 1].0;
        let v = es[es.len() - 1].1;
        let cp = p.push(Seg::Key(k));
        lemma_hits_append(f, k, v, cp, q, a1);
        let h = entry_hits(f, k, v, cp, q, a1);
        lemma_node_appends(f, v, cp, q, h);
    }
}

proof fn lemma_items_appends<F: Fn(u64) -> String>(f: F, a: Seq<Val>, p: Seq<Seg>, q: Seq<char>, acc: Seq<Seq<Seg>>)
    ensures
        starts_with_results(search_items(f, a, p, q, acc), acc),
    decreases a,
{
    if a.len() > 0 {
        assert(decreases_to!(a => a.drop_last()));
        assert(decreases_to!(a => a[a.len() - 1]));
        lemma_items_appends(f, a.drop_last(), p, q, acc);
        let a1 = search_items(f, a.drop_last(), p, q, acc);
        let v = a[a.len() - 1];
        let cp = p.push(Seg::Index((a.len() - 1) as usize));
        lemma_hits_append(f, seq![], v, cp, q, a1);
        lemma_node_appends(f, v, cp, q, item_hits(f, v, cp, q, a1));
    }
}

/// Two matching items of one array are found in their order.
proof fn lemma_items_order<F: Fn(u64) -> String>(f: F, a: Seq<Val>, p: Seq<Seg>, q: Seq<char>, acc: Seq<Seq<Seg>>, i: usize, j: usize)
    requires
        i < j < a.len(),
        text_matches(f, a[i as int], q),
        text_matches(f, a[j as int], q),
    ensures
        comes_before(search_items(f, a, p, q, acc), p.push(Seg::Index(i)), p.push(Seg::Index(j))),
    decreases a,
{
    assert(decreases_to!(a => a.drop_last()));
    assert(decreases_to!(a => a[a.len() - 1]));
    let pre = a.drop_last();
    let a1 = search_items(f, pre, p, q, acc);
    let v = a[a.len() - 1];
    let cp = p.push(Seg::Index((a.len() - 1) as usize));
    let h = item_hits(f, v, cp, q, a1);
    lemma_hits_append(f, seq![], v, cp, q, a1);
    lemma_node_appends(f, v, cp, q, h);
    if j + 1 < a.len() {
        assert(pre[i as int] == a[i as int] && pre[j as int] == a[j as int]);
        lemma_items_order(f, pre, p, q, acc, i, j);
        lemma_before_kept(a1, h, p.push(Seg::Index(i)), p.push(Seg::Index(j)));
    } else {
        assert(pre[i as int] == a[i as int]);
        lemma_items_finds(f, pre, p, q, acc, i as int, Seq::empty());
        assert(p.push(Seg::Index(i)) + Seq::<Seg>::empty() =~= p.push(Seg::Index(i)));
        let m = choose|m: int| 0 <= m < a1.len() && a1[m] == p.push(Seg::Index(i));
        assert(cp == p.push(Seg::Index(j)));
        assert(h == a1.push(cp));
        assert(h[m] == p.push(Seg::Index(i)) && h[a1.len() as int] == cp);
    }
    lemma_before_kept(h, search_node(f, v, cp, q, h), p.push(Seg::Index(i)), p.push(Seg::Index(j)));
}

/// Two matching items of an array at path `r` below `v` are found in order.
proof fn lemma_node_order<F: Fn(u64) -> String>(f: F, v: Val, base: Seq<Seg>, q: Seq<char>, acc: Seq<Seq<Seg>>, r: Seq<Seg>, a: Seq<Val>, i: usize, j: usize)
    requires
        get_at(v, r) == Some(Val::Array(a)),
        i < j < a.len(),
        text_matches(f, a[i as int], q),
        text_matches(f, a[j as int], q),
    ensures
        comes_before(search_node(f, v, base, q, acc), (base + r).push(Seg::Index(i)), (base + r).push(Seg::Index(j))),
    decreases v,
{
    if r.len() == 0 {
        assert(base + r =~= base);
        lemma_items_order(f, a, base, q, acc, i, j);
    } else {
        let seg = r[0];
        let rest = r.drop_first();
        let c = child(v, seg)->0;
        assert(get_at(c, rest) == get_at(v, r));
        assert(base + r =~= base.push(seg) + rest);
        match (seg, v) {
            (Seg::Key(k), Val::Object(es)) => {
                crate::tree::value::lemma_key_index(es, k);
                let jx = key_index(es, k)->0;
                lemma_entries_order(f, es, base, q, acc, jx, rest, a, i, j);
            },
            (Seg::Index(ix), Val::Array(b)) => {
                lemma_items_order_below(f, b, base, q, acc, ix as int, rest, a, i, j);
            },
            _ => {},
        }
    }
}

proof fn lemma_entries_order<F: Fn(u64) -> String>(
    f: F,
    es: Seq<(Seq<char>, Val)>,
    base: Seq<Seg>,
    q: Seq<char>,
    acc: Seq<Seq<Seg>>,
    jx: int,
    r: Seq<Seg>,
    a: Seq<Val>,
    i: usize,
    j: usize,
)
    requires
        0 <= jx < es.len(),
        get_at(es[jx].1, r) == Some(Val::Array(a)),
        i < j < a.len(),
        text_matches(f, a[i as int], q),
        text_matches(f, a[j as int], q),
    ensures
        comes_before(
            search_entries(f, es, base, q, acc),
            (base.push(Seg::Key(es[jx].0)) + r).push(Seg::Index(i)),
            (base.push(Seg::Key(es[jx].0)) + r).push(Seg::Index(j)),
        ),
    decreases es,
{
    assert(decreases_to!(es => es.drop_last()));
    assert(decreases_to!(es => es[es.len() - 1]));
    assert(decreases_to!(es[es.len() - 1] => es[es.len() - 1].1));
    let a1 = search_entries(f, es.drop_last(), base, q, acc);
    let k = es[es.len() - 1].0;
    let v = es[es.len() - 1].1;
    let cp = base.push(Seg::Key(k));
    let h = entry_hits(f, k, v, cp, q, a1);
    let x = (base.push(Seg::Key(es[jx].0)) + r).push(Seg::Index(i));
    let y = (base.push(Seg::Key(es[jx].0)) + r).push(Seg::Index(j));
    if jx == es.len() - 1 {
        lemma_node_order(f, v, cp, q, h, r, a, i, j);
    } else {
        assert(es.drop_last()[jx] == es[jx]);
        lemma_entries_order(f, es.drop_last(), base, q, acc, jx, r, a, i, j);
        lemma_hits_append(f, k, v, cp, q, a1);
        lemma_before_kept(a1, h, x, y);
        lemma_node_appends(f, v, cp, q, h);
        lemma_before_kept(h, search_node(f, v, cp, q, h), x, y);
    }
}

proof fn lemma_items_order_below<F: Fn(u64) -> String>(
    f: F,
    b: Seq<Val>,
    base: Seq<Seg>,
    q: Seq<char>,
    acc: Seq<Seq<Seg>>,
    ix: int,
    r: Seq<Seg>,
    a: Seq<Val>,
    i: usize,
    j: usize,
)
    requires
        0 <= ix < b.len(),
        ix <= usize::MAX,
        get_at(b[ix], r) == Some(Val::Array(a)),
        i < j < a.len(),
        text_matches(f, a[i as int], q),
        text_matches(f, a[j as int], q),
    ensures
        comes_before(
            search_items(f, b, base, q, acc),
            (base.push(Seg::Index(ix as usize)) + r).push(Seg::Index(i)),
            (base.push(Seg::Index(ix as usize)) + r).push(Seg::Index(j)),
        ),
    decreases b,
{
    assert(decreases_to!(b => b.drop_last()));
    assert(decreases_to!(b => b[b.len() - 1]));
    let a1 = search_items(f, b.drop_last(), base, q, acc);
    let v = b[b.len() - 1];
    let cp = base.push(Seg::Index((b.len() - 1) as usize));
    let h = item_hits(f, v, cp, q, a1);
    let x = (base.push(Seg::Index(ix as usize)) + r).push(Seg::Index(i));
    let y = (base.push(Seg::Index(ix as usize)) + r).push(Seg::Index(j));
    if ix == b.len() - 1 {
        lemma_node_order(f, v, cp, q, h, r, a, i, j);
    } else {
        assert(b.drop_last()[ix] == b[ix]);
        lemma_items_order_below(f, b.drop_last(), base, q, acc, ix, r, a, i, j);
        lemma_hits_append(f, seq![], v, cp, q, a1);
        lemma_before_kept(a1, h, x, y);
        lemma_node_appends(f, v, cp, q, h);
        lemma_before_kept(h, search_node(f, v, cp, q, h), x, y);
    }
}

/// Search lists the matching items of an array in their order in the
/// array, so stepping through the results walks down the array.
pub proof fn law_search_keeps_item_order<F: Fn(u64) -> String>(f: F, tree: Val, query: Seq<char>, q: Seq<Seg>, a: Seq<Val>, i: usize, j: usize)
    requires
        query.len() > 0,
        get_at(tree, q) == Some(Val::Array(a)),
        i < j < a.len(),
        text_matches(f, a[i as int], lowercase_of(query)),
        text_matches(f, a[j as int], lowercase_of(query)),
    ensures
        comes_before(search_results_for(f, tree, query), q.push(Seg::Index(i)), q.push(Seg::Index(j))),
{
    lemma_node_order(f, tree, Seq::empty(), lowercase_of(query), Seq::empty(), q, a, i, j);
    assert(Seq::<Seg>::empty() + q =~= q);
}

// ── laws of the structural edits ────────────────────────────────────

/// Committing an insert into an object adds the value under the first free
/// `new_key…` candidate, at the end; into an array, appends it. Either way
/// the edit is recorded for undo and the type picker closes.
pub proof fn law_commit_insert_adds(s: AppView, x: Val, t: AppView)
    requires
        commit_insert_ok(s, x, t),
        s.inserting,
        get_at(s.tree, s.insert_container_path) matches Some(Val::Object(es)) ==> es.len() + 1 < usize::MAX,
        get_at(s.tree, s.insert_container_path) matches Some(Val::Array(a)) ==> a.len() < usize::MAX,
        is_container(get_at(s.tree, s.insert_container_path)),
    ensures
        !t.inserting,
        t.history == record_spec(s.history, s.tree),
        t.modified,
        get_at(s.tree, s.insert_container_path) matches Some(Val::Object(es)) ==> {
            let k = candidate_key(fresh_index(es));
            &&& !has_key(es, k)
            &&& get_at(t.tree, s.insert_container_path) == Some(Val::Object(es.push((k, x))))
        },
        get_at(s.tree, s.insert_container_path) matches Some(Val::Array(a)) ==> get_at(
            t.tree,
            s.insert_container_path,
        ) == Some(Val::Array(a.push(x))),
{
    let c = s.insert_container_path;
    match get_at(s.tree, c) {
        Some(Val::Object(es)) => {
            law_fresh_key_is_free(es);
            let k = candidate_key(fresh_index(es));
            let target = c.push(Seg::Key(k));
            assert(target.drop_last() =~= c);
            crate::tree::model::lemma_get_replace_same(s.tree, c, Val::Object(es.push((k, x))));
        },
        Some(Val::Array(a)) => {
            let target = c.push(Seg::Index(a.len() as usize));
            assert(target.drop_last() =~= c);
            assert(a.insert(a.len() as int, x) =~= a.push(x));
            crate::tree::model::lemma_get_replace_same(s.tree, c, Val::Array(a.push(x)));
        },
        _ => {},
    }
}

/// Pasting next to an array item appends the clipboard's node to that
/// array, empties the clipboard and says where the node went.
pub proof fn law_paste_into_array_appends(s: AppView, t: AppView, a: Seq<Val>)
    requires
        paste_node_ok(s, t),
        !busy(s),
        s.clipboard is Some,
        cursor_path_of(s).len() > 0,
        get_at(s.tree, cursor_path_of(s).drop_last()) == Some(Val::Array(a)),
        a.len() < usize::MAX,
    ensures
        get_at(t.tree, cursor_path_of(s).drop_last()) == Some(Val::Array(a.push((s.clipboard->0).1))),
        t.clipboard is None,
        t.history == record_spec(s.history, s.tree),
        t.status == "Pasted as "@ + ("["@ + decimal(a.len()) + "]"@) + " — Ctrl+Z undo"@,
{
    let parent = cursor_path_of(s).drop_last();
    let v = (s.clipboard->0).1;
    let target = parent.push(Seg::Index(a.len() as usize));
    assert(target.drop_last() =~= parent);
    assert(a.insert(a.len() as int, v) =~= a.push(v));
    crate::tree::model::lemma_get_replace_same(s.tree, parent, Val::Array(a.push(v)));
}

/// Cutting puts the node under the cursor, with its path, on the clipboard
/// and takes it out of the tree: an object entry is gone, an array item is
/// removed with the later items shifting down.
pub proof fn law_cut_moves_to_clipboard(s: AppView, t: AppView)
    requires
        cut_node_ok(s, t),
        !busy(s),
        cursor_path_of(s).len() > 0,
        get_at(s.tree, cursor_path_of(s)) is Some,
        crate::tree::laws::well_formed(s.tree),
    ensures
        t.clipboard == Some((cursor_path_of(s), get_at(s.tree, cursor_path_of(s))->0)),
        t.history == record_spec(s.history, s.tree),
        cursor_path_of(s).last() is Key ==> get_at(t.tree, cursor_path_of(s)) is None,
        ({
            let p = cursor_path_of(s);
            get_at(s.tree, p.drop_last()) matches Some(Val::Array(a)) ==> (p.last() matches Seg::Index(i) && get_at(
                t.tree,
                p.drop_last(),
            ) == Some(Val::Array(a.remove(i as int))))
        }),
{
    let p = cursor_path_of(s);
    let q = p.drop_last();
    assert(p =~= q.push(p.last()));
    lemma_get_at_push(s.tree, q, p.last());
    let par = get_at(s.tree, q)->0;
    match (p.last(), par) {
        (Seg::Key(k), Val::Object(es)) => {
            crate::tree::value::lemma_key_index(es, k);
        },
        (Seg::Index(i), Val::Array(a)) => {
            crate::tree::model::lemma_get_replace_same(s.tree, q, Val::Array(a.remove(i as int)));
        },
        _ => {},
    }
    assert(delete_spec(s.tree, p).1 is Ok);
    if p.last() is Key {
        crate::tree::laws::law_delete_key_then_get(s.tree, p);
    }
}

} // verus!
