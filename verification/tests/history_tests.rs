use confui::history::History;
use confui::tree::value::ObjectMap;
use confui::tree::{Path, PathSegment, Value};

fn make_tree(v: i64) -> Value {
    let mut m = ObjectMap::new();
    m.insert("count".to_string(), Value::Int(v));
    Value::Object(m)
}

fn count_path() -> Path {
    vec![PathSegment::from("count")]
}

fn count_of(v: &Value) -> Option<&Value> {
    v.get(&count_path())
}

#[test]
fn history_initial_state() {
    let h = History::new(make_tree(0));
    assert!(!h.can_undo());
    assert!(!h.can_redo());
}

#[test]
fn history_record_undo_redo() {
    let mut h = History::new(make_tree(0));
    h.record(make_tree(0));
    h.record(make_tree(1));
    assert!(h.can_undo());

    let restored = h.undo(make_tree(2)).unwrap();
    assert_eq!(count_of(&restored), Some(&Value::Int(1)));
    assert!(h.can_redo());

    let restored = h.undo(make_tree(1)).unwrap();
    assert_eq!(count_of(&restored), Some(&Value::Int(0)));
    assert!(!h.can_undo());

    let restored = h.redo(make_tree(0)).unwrap();
    assert_eq!(count_of(&restored), Some(&Value::Int(1)));

    let restored = h.redo(make_tree(1)).unwrap();
    assert_eq!(count_of(&restored), Some(&Value::Int(2)));
    assert!(!h.can_redo());
}

#[test]
fn history_undo_clears_redo_on_new_record() {
    let mut h = History::new(make_tree(0));
    h.record(make_tree(0));
    h.record(make_tree(1));

    let restored = h.undo(make_tree(2)).unwrap();
    assert_eq!(count_of(&restored), Some(&Value::Int(1)));
    assert!(h.can_redo());

    h.record(make_tree(1));
    assert!(!h.can_redo());

    let restored = h.undo(make_tree(1)).unwrap();
    assert_eq!(count_of(&restored), Some(&Value::Int(1)));

    let restored = h.undo(make_tree(1)).unwrap();
    assert_eq!(count_of(&restored), Some(&Value::Int(0)));
}

#[test]
fn history_undo_past_beginning() {
    let mut h = History::new(make_tree(0));
    assert!(h.undo(make_tree(0)).is_none());
}

#[test]
fn history_redo_past_end() {
    let mut h = History::new(make_tree(0));
    assert!(h.redo(make_tree(0)).is_none());
}

#[test]
fn history_max_undo_bounded() {
    let mut h = History::new(make_tree(0));
    for i in 0..101 {
        h.record(make_tree(i));
    }
    assert!(h.undo_len() <= 101);
    let restored = h.undo(make_tree(101)).unwrap();
    assert_eq!(count_of(&restored), Some(&Value::Int(100)));
}

#[test]
fn history_reset() {
    let mut h = History::new(make_tree(0));
    h.record(make_tree(0));
    h.record(make_tree(1));
    h.reset(make_tree(99));
    assert!(!h.can_undo());
    assert!(!h.can_redo());
    let restored = h.undo(make_tree(99));
    assert!(restored.is_none());
}

// ── laws on concrete values ─────────────────────────────────────────

#[test]
fn undo_then_redo_gives_back_the_current_state() {
    let mut h = History::new(make_tree(0));
    h.record(make_tree(5));
    let back = h.undo(make_tree(6)).unwrap();
    assert_eq!(count_of(&back), Some(&Value::Int(5)));
    let forward = h.redo(back).unwrap();
    assert_eq!(count_of(&forward), Some(&Value::Int(6)));
}

#[test]
fn undo_stack_never_exceeds_its_bound() {
    let mut h = History::new(make_tree(0));
    for i in 0..250 {
        h.record(make_tree(i));
        assert!(h.undo_len() <= 101);
    }
    assert_eq!(h.undo_len(), 101);
}

#[test]
fn undo_keeps_the_newest_hundred_states() {
    let mut h = History::new(make_tree(0));
    for i in 0..150 {
        h.record(make_tree(i));
    }
    let mut last = None;
    while let Some(v) = h.undo(make_tree(-1)) {
        last = Some(v);
    }
    assert_eq!(count_of(&last.unwrap()), Some(&Value::Int(50)));
}

#[test]
fn a_hundred_undo_steps_after_a_hundred_records() {
    let mut h = History::new(make_tree(0));
    for i in 0..100 {
        h.record(make_tree(i));
    }
    let mut n = 0;
    while h.undo(make_tree(-1)).is_some() {
        n += 1;
    }
    assert_eq!(n, 100);
}

#[test]
fn fewer_records_give_as_many_undo_steps() {
    let mut h = History::new(make_tree(0));
    for i in 0..7 {
        h.record(make_tree(i));
    }
    let mut n = 0;
    while h.undo(make_tree(-1)).is_some() {
        n += 1;
    }
    assert_eq!(n, 7);
}
