# confui

A terminal editor that shows a TOML, JSON or YAML config file as a tree and
lets you browse, edit, insert, delete, rename, cut and paste nodes, search,
undo and redo, and save.

The editor's logic is a Verus library (`src/`), proved against its contracts:

- `tree` — the value tree, paths, and the operations on them, with laws
  (what a read gives after a write, which operations undo each other, what a
  write leaves alone);
- `history` — bounded undo/redo (100 steps);
- `parser` — format detection, the JSON/YAML/TOML document models and their
  conversions to and from trees (with round-trip laws), and the plan that
  saves a TOML file while keeping the text of every unchanged entry;
- `app` — the editor state and what each key press does to it;
- `widgets`, `validation`, `theme`, `plugins` — tree lines and previews,
  value checks, colour themes, the `Cargo.toml` plugin.

`app/` is the program around it: arguments, terminal drawing, reading and
writing files through serde_json, serde_yaml and toml_edit.

Objects keep their keys in an insertion-ordered map of the library's own
(`tree::value::ObjectMap`, keys and values in two vectors). An outside map
type cannot hold the tree's own `Value` type in a form Verus accepts, and
keeping the values in their own vector lets `Value::get_mut` hand out a
mutable reference to one value while the map's keys stay distinct.
