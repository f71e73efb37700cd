use confui::app::{Action, App, Key, KeyCode};
use confui::parser::Format;
use confui::tree::value::ObjectMap;
use confui::tree::{Path, PathSegment, Value};
use confui::widgets::TreeLine;

fn obj(entries: Vec<(&str, Value)>) -> Value {
    let mut m = ObjectMap::new();
    for (k, v) in entries {
        m.insert(k.to_string(), v);
    }
    Value::Object(m)
}

fn test_tree() -> Value {
    obj(vec![
        (
            "server",
            obj(vec![("host", Value::string("0.0.0.0")), ("port", Value::integer(8080))]),
        ),
        ("items", Value::Array(vec![Value::string("a"), Value::integer(42)])),
        ("count", Value::integer(100)),
    ])
}

fn make_app(tree: Value) -> App {
    App::new(tree, Format::Toml, "test.toml")
}

fn ft(b: u64) -> String {
    f64::from_bits(b).to_string()
}

fn pf(s: &str) -> Option<u64> {
    s.parse::<f64>().ok().map(|f| f.to_bits())
}

fn lines(app: &App) -> Vec<TreeLine> {
    app.compute_visible_lines(&ft)
}

fn row_of(app: &App, key: &str) -> usize {
    lines(app).iter().position(|l| l.key == key).unwrap()
}

fn key(code: KeyCode) -> Key {
    Key { code, control: false }
}

fn press(app: &mut App, code: KeyCode) -> Action {
    app.handle_key(key(code), &ft, &pf)
}

fn p(keys: &[&str]) -> Path {
    keys.iter().map(|k| PathSegment::from(*k)).collect()
}

#[test]
fn app_navigation() {
    let mut app = make_app(test_tree());
    assert_eq!(app.cursor_index, 0);
    app.cursor_down();
    assert_eq!(app.cursor_index, 1);
    app.cursor_down();
    assert_eq!(app.cursor_index, 2);
    app.cursor_up();
    assert_eq!(app.cursor_index, 1);
    app.cursor_home();
    assert_eq!(app.cursor_index, 0);
    app.cursor_end();
    let ls = lines(&app);
    assert_eq!(app.cursor_index, ls.len() - 1);
}

#[test]
fn app_expand_collapse() {
    let mut app = make_app(test_tree());
    let initial_count = lines(&app).len();
    app.cursor_index = row_of(&app, "server");
    app.collapse();
    let after_collapse = lines(&app).len();
    assert!(after_collapse < initial_count);
    app.expand();
    assert_eq!(lines(&app).len(), initial_count);
}

#[test]
fn app_expand_all_collapse_all() {
    let mut app = make_app(test_tree());
    app.collapse_all();
    assert_eq!(lines(&app).len(), 4);
    app.expand_all();
    assert!(lines(&app).len() > 4);
}

#[test]
fn test_quit() {
    let mut app = make_app(test_tree());
    assert!(!app.should_quit);
    press(&mut app, KeyCode::Char('q'));
    assert!(app.should_quit);
}

#[test]
fn edit_string_value_start_commit() {
    let mut app = make_app(test_tree());
    app.cursor_index = row_of(&app, "host");
    app.start_edit(&ft);
    assert!(app.editing);
    assert_eq!(app.edit_buffer, "0.0.0.0");
    assert_eq!(app.edit_cursor, 7);
    assert_eq!(app.edit_path, p(&["server", "host"]));

    app.edit_insert_char('9');
    assert_eq!(app.edit_buffer, "0.0.0.09");
    assert_eq!(app.edit_cursor, 8);

    app.commit_edit(&pf);
    assert!(!app.editing);
    assert!(app.modified);
    assert_eq!(app.tree.get(&p(&["server", "host"])), Some(&Value::string("0.0.0.09")));
}

#[test]
fn edit_string_cancel_restores() {
    let mut app = make_app(test_tree());
    app.cursor_index = row_of(&app, "host");
    app.start_edit(&ft);
    assert!(app.editing);
    app.edit_insert_char('X');
    assert_eq!(app.edit_buffer, "0.0.0.0X");
    app.cancel_edit();
    assert!(!app.editing);
    assert!(!app.modified);
    assert_eq!(app.tree.get(&p(&["server", "host"])), Some(&Value::string("0.0.0.0")));
}

#[test]
fn edit_int_value_validates() {
    let mut app = make_app(test_tree());
    app.cursor_index = row_of(&app, "port");
    app.start_edit(&ft);
    assert!(app.editing);
    assert_eq!(app.edit_buffer, "8080");

    app.edit_buffer.clear();
    app.edit_cursor = 0;
    app.edit_insert_char('a');
    app.commit_edit(&pf);
    assert!(app.editing);
    assert!(app.status.contains("Invalid integer"));

    app.edit_buffer.clear();
    app.edit_cursor = 0;
    app.edit_insert_char('9');
    app.edit_insert_char('0');
    app.commit_edit(&pf);
    assert!(!app.editing);
    assert_eq!(app.tree.get(&p(&["server", "port"])), Some(&Value::integer(90)));
}

#[test]
fn edit_bool_toggles_immediately() {
    let mut app = make_app(obj(vec![
        ("enabled", Value::bool(true)),
        ("count", Value::integer(42)),
    ]));
    app.cursor_index = row_of(&app, "enabled");
    assert_eq!(app.tree.get(&p(&["enabled"])), Some(&Value::bool(true)));
    app.start_edit(&ft);
    assert!(!app.editing);
    assert!(app.modified);
    assert_eq!(app.tree.get(&p(&["enabled"])), Some(&Value::bool(false)));
}

#[test]
fn edit_cursor_movement() {
    let mut app = make_app(test_tree());
    app.cursor_index = row_of(&app, "host");
    app.start_edit(&ft);
    assert_eq!(app.edit_cursor, 7);
    app.edit_cursor_left();
    assert_eq!(app.edit_cursor, 6);
    app.edit_cursor_left();
    assert_eq!(app.edit_cursor, 5);
    app.edit_cursor_right();
    assert_eq!(app.edit_cursor, 6);
    app.edit_cursor_home();
    assert_eq!(app.edit_cursor, 0);
    app.edit_cursor_end();
    assert_eq!(app.edit_cursor, 7);
    app.edit_cursor_home();
    app.edit_insert_char('x');
    assert_eq!(app.edit_buffer, "x0.0.0.0");
    assert_eq!(app.edit_cursor, 1);
}

#[test]
fn edit_delete_backspace() {
    let mut app = make_app(test_tree());
    app.cursor_index = row_of(&app, "host");
    app.start_edit(&ft);
    assert_eq!(app.edit_buffer, "0.0.0.0");
    app.edit_delete_before_cursor();
    assert_eq!(app.edit_buffer, "0.0.0.");
    assert_eq!(app.edit_cursor, 6);
    app.edit_cursor_left();
    assert_eq!(app.edit_cursor, 5);
    app.edit_delete_at_cursor();
    assert_eq!(app.edit_buffer, "0.0.0");
    assert_eq!(app.edit_cursor, 5);
}

#[test]
fn modified_indicator_updates() {
    let mut app = make_app(test_tree());
    assert!(!app.modified);
    app.cursor_index = row_of(&app, "host");
    app.start_edit(&ft);
    app.commit_edit(&pf);
    assert!(app.modified);
}

#[test]
fn enter_on_container_toggles_expand() {
    let mut app = make_app(test_tree());
    app.cursor_index = 1;
    let before = lines(&app).len();
    press(&mut app, KeyCode::Enter);
    assert!(lines(&app).len() < before);
}

#[test]
fn enter_on_leaf_enters_edit_mode() {
    let mut app = make_app(test_tree());
    app.cursor_index = row_of(&app, "host");
    press(&mut app, KeyCode::Enter);
    assert!(app.editing);
    assert_eq!(app.edit_buffer, "0.0.0.0");
}

#[test]
fn esc_cancels_edit() {
    let mut app = make_app(test_tree());
    app.cursor_index = row_of(&app, "host");
    press(&mut app, KeyCode::Enter);
    assert!(app.editing);
    press(&mut app, KeyCode::Esc);
    assert!(!app.editing);
    assert!(!app.modified);
}

#[test]
fn insert_node_twice_does_not_collide() {
    let mut app = make_app(test_tree());
    app.cursor_index = row_of(&app, "count");
    app.insert_node();
    assert!(app.inserting);
    app.commit_insert(Value::string(""));
    assert!(app.status.contains("Inserted string 'new_key'"), "{}", app.status);
    assert_eq!(app.tree.get(&p(&["new_key"])), Some(&Value::string("")));

    app.insert_node();
    app.commit_insert(Value::string(""));
    assert!(app.status.contains("Inserted string 'new_key_2'"), "{}", app.status);
    assert!(app.tree.get(&p(&["new_key"])).is_some());
    assert!(app.tree.get(&p(&["new_key_2"])).is_some());
}

#[test]
fn insert_node_type_picker_can_be_cancelled() {
    let mut app = make_app(test_tree());
    app.cursor_index = row_of(&app, "count");
    app.insert_node();
    assert!(app.inserting);
    app.cancel_insert();
    assert!(!app.inserting);
    assert!(app.tree.get(&p(&["new_key"])).is_none());
    assert!(!app.modified);
}

#[test]
fn insert_node_can_create_object_and_array() {
    let mut app = make_app(test_tree());
    app.cursor_index = row_of(&app, "count");
    app.insert_node();
    app.commit_insert(Value::object());
    assert_eq!(app.tree.get(&p(&["new_key"])), Some(&Value::object()));
    app.insert_node();
    app.commit_insert(Value::array());
    assert_eq!(app.tree.get(&p(&["new_key_2"])), Some(&Value::array()));
}

#[test]
fn insert_node_on_container_row_inserts_as_child() {
    let mut app = make_app(test_tree());
    app.cursor_index = row_of(&app, "server");
    app.insert_node();
    app.commit_insert(Value::integer(0));
    assert_eq!(app.tree.get(&p(&["server", "new_key"])), Some(&Value::integer(0)));
    assert!(app.tree.get(&p(&["new_key"])).is_none());
}

#[test]
fn insert_node_into_empty_object() {
    let mut app = make_app(obj(vec![("empty", Value::object())]));
    app.cursor_index = row_of(&app, "empty");
    app.insert_node();
    assert!(app.inserting);
    app.commit_insert(Value::bool(true));
    assert_eq!(app.tree.get(&p(&["empty", "new_key"])), Some(&Value::bool(true)));
}

#[test]
fn insert_node_at_root() {
    let mut app = make_app(test_tree());
    app.cursor_index = 0;
    assert!(app.cursor_path().is_empty());
    app.insert_node();
    assert!(app.inserting);
    app.commit_insert(Value::float(1.5f64.to_bits()));
    assert_eq!(app.tree.get(&p(&["new_key"])), Some(&Value::float(1.5f64.to_bits())));
}

#[test]
fn cut_then_paste_reinserts_value() {
    let mut app = make_app(test_tree());
    app.cursor_index = row_of(&app, "count");
    app.cut_node();
    assert!(app.tree.get(&p(&["count"])).is_none());
    assert!(app.clipboard.is_some());

    app.cursor_index = row_of(&app, "host");
    app.paste_node();
    assert!(app.clipboard.is_none(), "paste error: {}", app.status);
    assert_eq!(app.tree.get(&p(&["server", "count"])), Some(&Value::integer(100)));
}

// ── more scenarios ──────────────────────────────────────────────────

#[test]
fn opening_state() {
    let app = App::new(test_tree(), Format::Json, "Cargo.toml");
    assert_eq!(app.active_plugin.as_deref(), Some("Cargo.toml"));
    assert_eq!(lines(&app).len(), 8);
    assert!(!app.history.can_undo());
    assert_eq!(app.theme.name, "Dark");
}

#[test]
fn first_row_is_the_root() {
    let app = make_app(test_tree());
    let ls = lines(&app);
    assert!(ls[0].path.is_empty());
    assert_eq!(ls[0].depth, 0);
}

#[test]
fn undo_and_redo_an_edit() {
    let mut app = make_app(test_tree());
    app.cursor_index = row_of(&app, "host");
    app.start_edit(&ft);
    app.edit_insert_char('1');
    app.commit_edit(&pf);
    assert_eq!(app.tree.get(&p(&["server", "host"])), Some(&Value::string("0.0.0.01")));
    app.undo();
    assert_eq!(app.tree, test_tree());
    app.redo();
    assert_eq!(app.tree.get(&p(&["server", "host"])), Some(&Value::string("0.0.0.01")));
}

#[test]
fn delete_needs_confirmation() {
    let mut app = make_app(test_tree());
    app.cursor_index = row_of(&app, "count");
    press(&mut app, KeyCode::Char('d'));
    assert!(app.confirming_delete);
    assert!(app.tree.get(&p(&["count"])).is_some());
    press(&mut app, KeyCode::Char('y'));
    assert!(!app.confirming_delete);
    assert!(app.tree.get(&p(&["count"])).is_none());
    assert!(app.modified);
}

#[test]
fn space_toggles_a_boolean() {
    let mut app = make_app(obj(vec![("on", Value::bool(false))]));
    app.cursor_index = row_of(&app, "on");
    press(&mut app, KeyCode::Char(' '));
    assert_eq!(app.tree.get(&p(&["on"])), Some(&Value::bool(true)));
}

#[test]
fn ctrl_s_asks_to_save() {
    let mut app = make_app(test_tree());
    let a = app.handle_key(Key { code: KeyCode::Char('s'), control: true }, &ft, &pf);
    assert_eq!(a, Action::Save);
    assert_eq!(press(&mut app, KeyCode::Down), Action::Nothing);
}

#[test]
fn rename_a_key() {
    let mut app = make_app(test_tree());
    app.cursor_index = row_of(&app, "count");
    app.start_rename();
    assert!(app.renaming);
    assert_eq!(app.rename_buffer, "count");
    app.rename_buffer = "total".to_string();
    app.commit_rename();
    assert!(!app.renaming);
    assert_eq!(app.tree.get(&p(&["total"])), Some(&Value::integer(100)));
    assert!(app.tree.get(&p(&["count"])).is_none());
}

#[test]
fn duplicate_an_object_entry() {
    let mut app = make_app(test_tree());
    app.cursor_index = row_of(&app, "count");
    app.duplicate_node();
    assert_eq!(app.tree.get(&p(&["count_copy"])), Some(&Value::integer(100)));
}

#[test]
fn search_finds_keys_and_values() {
    let mut app = make_app(test_tree());
    app.collapse_all();
    app.start_search();
    app.search_query = "host".to_string();
    app.commit_search(&ft);
    assert_eq!(app.search_results, vec![p(&["server", "host"])]);
    assert_eq!(app.cursor_path(), p(&["server", "host"]));
}

#[test]
fn cycle_theme_goes_round() {
    let mut app = make_app(test_tree());
    for _ in 0..6 {
        app.cycle_theme();
    }
    assert_eq!(app.theme_index, 0);
    app.cycle_theme();
    assert_eq!(app.theme.name, "Light");
}

#[test]
fn readiness_follows_the_edit_cursor() {
    let mut app = make_app(obj(vec![("s", Value::string("é"))]));
    assert!(app.is_ready());
    app.cursor_index = row_of(&app, "s");
    app.start_edit(&ft);
    assert_eq!(app.edit_cursor, 2);
    assert!(app.is_ready());
    app.edit_cursor = 1;
    assert!(!app.is_ready());
}

#[test]
fn inserting_skips_taken_candidate_keys() {
    let mut app = make_app(obj(vec![
        ("new_key", Value::Null),
        ("new_key_2", Value::Null),
        ("new_key_3", Value::Null),
    ]));
    app.cursor_index = 0;
    app.insert_node();
    app.commit_insert(Value::integer(7));
    assert_eq!(app.tree.get(&p(&["new_key_4"])), Some(&Value::integer(7)));
}

#[test]
fn the_registry_survives_key_presses() {
    let mut app = App::new(test_tree(), Format::Toml, "Cargo.toml");
    for code in [KeyCode::Down, KeyCode::Enter, KeyCode::Esc, KeyCode::Char('d'), KeyCode::Esc] {
        press(&mut app, code);
    }
    assert_eq!(app.plugins.all().len(), 1);
}
