use confui::tree::value::ObjectMap;
use confui::tree::{Path, PathSegment, TreeError, Value};

fn obj(entries: Vec<(&str, Value)>) -> Value {
    let mut m = ObjectMap::new();
    for (k, v) in entries {
        m.insert(k.to_string(), v);
    }
    Value::Object(m)
}

fn p(segs: Vec<PathSegment>) -> Path {
    segs
}

fn k(s: &str) -> PathSegment {
    PathSegment::from(s)
}

fn i(n: usize) -> PathSegment {
    PathSegment::from(n)
}

fn sample_tree() -> Value {
    obj(vec![
        (
            "server",
            obj(vec![
                ("host", Value::string("0.0.0.0")),
                ("port", Value::integer(8080)),
                ("enabled", Value::bool(true)),
            ]),
        ),
        (
            "items",
            Value::Array(vec![
                Value::string("a"),
                Value::integer(42),
                Value::float(1.5f64.to_bits()),
                Value::Null,
                obj(vec![("key", Value::string("val"))]),
            ]),
        ),
        ("count", Value::integer(100)),
        ("ratio", Value::float(0.5f64.to_bits())),
        ("active", Value::bool(false)),
        ("label", Value::Null),
    ])
}

// ── paths ───────────────────────────────────────────────────────────

#[test]
fn path_from_str() {
    let p: Path = vec!["a".into(), "b".into(), "c".into()];
    assert_eq!(p.len(), 3);
}

#[test]
fn path_from_usize() {
    let p: Path = vec![0usize.into(), 1usize.into()];
    assert_eq!(p.len(), 2);
}

#[test]
fn path_macro() {
    let p = vec![PathSegment::from("server"), PathSegment::from("port")];
    assert_eq!(
        p,
        vec![
            PathSegment::Key("server".into()),
            PathSegment::Key("port".into())
        ]
    );

    let p = vec![PathSegment::from("items"), PathSegment::from(0usize), PathSegment::from("name")];
    assert_eq!(
        p,
        vec![
            PathSegment::Key("items".into()),
            PathSegment::Index(0),
            PathSegment::Key("name".into()),
        ]
    );
}

// ── helpers ─────────────────────────────────────────────────────────

#[test]
fn is_leaf_string() {
    assert!(Value::string("hello").is_leaf());
}

#[test]
fn is_leaf_int() {
    assert!(Value::integer(42).is_leaf());
}

#[test]
fn is_leaf_float() {
    assert!(Value::float(1.5f64.to_bits()).is_leaf());
}

#[test]
fn is_leaf_bool() {
    assert!(Value::bool(true).is_leaf());
}

#[test]
fn is_leaf_null() {
    assert!(Value::Null.is_leaf());
}

#[test]
fn is_not_leaf_object() {
    assert!(!Value::object().is_leaf());
}

#[test]
fn is_not_leaf_array() {
    assert!(!Value::array().is_leaf());
}

#[test]
fn type_name_variants() {
    assert_eq!(Value::object().type_label(), "object");
    assert_eq!(Value::array().type_label(), "array");
    assert_eq!(Value::string("x").type_label(), "string");
    assert_eq!(Value::integer(0).type_label(), "int");
    assert_eq!(Value::float(0.0f64.to_bits()).type_label(), "float");
    assert_eq!(Value::bool(false).type_label(), "bool");
    assert_eq!(Value::Null.type_label(), "null");
}

// ── get ─────────────────────────────────────────────────────────────

#[test]
fn get_root_value_empty_path() {
    let tree = sample_tree();
    let val = tree.get(&p(vec![]));
    assert!(val.is_some());
    assert_eq!(val.unwrap().type_label(), "object");
}

#[test]
fn get_existing_key() {
    let tree = sample_tree();
    let val = tree.get(&p(vec![k("server")]));
    assert!(val.is_some());
    assert_eq!(val.unwrap().type_label(), "object");
}

#[test]
fn get_nested_value() {
    let tree = sample_tree();
    let val = tree.get(&p(vec![k("server"), k("port")]));
    assert_eq!(val, Some(&Value::integer(8080)));
}

#[test]
fn get_nested_string() {
    let tree = sample_tree();
    let val = tree.get(&p(vec![k("server"), k("host")]));
    assert_eq!(val, Some(&Value::string("0.0.0.0")));
}

#[test]
fn get_array_index() {
    let tree = sample_tree();
    let val = tree.get(&p(vec![k("items"), i(0)]));
    assert_eq!(val, Some(&Value::string("a")));
}

#[test]
fn get_array_index_int() {
    let tree = sample_tree();
    let val = tree.get(&p(vec![k("items"), i(1)]));
    assert_eq!(val, Some(&Value::integer(42)));
}

#[test]
fn get_array_index_float() {
    let tree = sample_tree();
    let val = tree.get(&p(vec![k("items"), i(2)]));
    assert_eq!(val, Some(&Value::float(1.5f64.to_bits())));
}

#[test]
fn get_array_index_null() {
    let tree = sample_tree();
    let val = tree.get(&p(vec![k("items"), i(3)]));
    assert_eq!(val, Some(&Value::Null));
}

#[test]
fn get_nested_object_in_array() {
    let tree = sample_tree();
    let val = tree.get(&p(vec![k("items"), i(4), k("key")]));
    assert_eq!(val, Some(&Value::string("val")));
}

#[test]
fn get_path_not_found_nonexistent_key() {
    let tree = sample_tree();
    assert_eq!(tree.get(&p(vec![k("nope")])), None);
}

#[test]
fn get_path_not_found_wrong_type() {
    let tree = sample_tree();
    assert_eq!(tree.get(&p(vec![k("count"), k("nested")])), None);
}

#[test]
fn get_array_index_out_of_bounds() {
    let tree = sample_tree();
    assert_eq!(tree.get(&p(vec![k("items"), i(99)])), None);
}

#[test]
fn get_scalar_from_root() {
    let tree = Value::integer(42);
    assert_eq!(tree.get(&p(vec![])), Some(&Value::integer(42)));
}

// ── set ─────────────────────────────────────────────────────────────

#[test]
fn set_existing_key() {
    let mut tree = sample_tree();
    let old = tree.set(&p(vec![k("server"), k("port")]), Value::integer(443)).unwrap();
    assert_eq!(old, Value::integer(8080));
    assert_eq!(tree.get(&p(vec![k("server"), k("port")])), Some(&Value::integer(443)));
}

#[test]
fn set_array_element() {
    let mut tree = sample_tree();
    let old = tree.set(&p(vec![k("items"), i(0)]), Value::string("z")).unwrap();
    assert_eq!(old, Value::string("a"));
    assert_eq!(tree.get(&p(vec![k("items"), i(0)])), Some(&Value::string("z")));
}

#[test]
fn set_path_not_found() {
    let mut tree = sample_tree();
    let result = tree.set(&p(vec![k("server"), k("missing_key")]), Value::integer(1));
    assert_eq!(result, Err(TreeError::PathNotFound));
}

#[test]
fn set_wrong_type_object_expected() {
    let mut tree = sample_tree();
    let result = tree.set(&p(vec![k("count"), k("nested")]), Value::integer(1));
    assert_eq!(
        result,
        Err(TreeError::WrongType("set".into(), "object".into(), "int".into()))
    );
}

#[test]
fn set_wrong_type_array_expected() {
    let mut tree = sample_tree();
    let result = tree.set(&p(vec![k("count"), i(0)]), Value::integer(1));
    assert_eq!(
        result,
        Err(TreeError::WrongType("set".into(), "array".into(), "int".into()))
    );
}

#[test]
fn set_index_out_of_bounds() {
    let mut tree = sample_tree();
    let result = tree.set(&p(vec![k("items"), i(99)]), Value::integer(1));
    assert_eq!(result, Err(TreeError::IndexOutOfBounds(99)));
}

#[test]
fn set_root_operation_error() {
    let mut tree = sample_tree();
    let result = tree.set(&p(vec![]), Value::Null);
    assert_eq!(result, Err(TreeError::RootOperation("set".into())));
}

// ── insert ──────────────────────────────────────────────────────────

#[test]
fn insert_new_key_into_object() {
    let mut tree = sample_tree();
    tree.insert(&p(vec![k("server"), k("timeout")]), Value::integer(30)).unwrap();
    assert_eq!(tree.get(&p(vec![k("server"), k("timeout")])), Some(&Value::integer(30)));
}

#[test]
fn insert_key_already_exists() {
    let mut tree = sample_tree();
    let result = tree.insert(&p(vec![k("server"), k("host")]), Value::string("new"));
    assert_eq!(result, Err(TreeError::KeyAlreadyExists("host".into())));
}

#[test]
fn insert_into_array_at_end() {
    let mut tree = sample_tree();
    tree.insert(&p(vec![k("items"), i(5)]), Value::string("new_item")).unwrap();
    assert_eq!(tree.get(&p(vec![k("items"), i(5)])), Some(&Value::string("new_item")));
    assert_eq!(tree.get(&p(vec![k("items"), i(0)])), Some(&Value::string("a")));
}

#[test]
fn insert_into_array_at_index() {
    let mut tree = sample_tree();
    tree.insert(&p(vec![k("items"), i(0)]), Value::string("first")).unwrap();
    assert_eq!(tree.get(&p(vec![k("items"), i(0)])), Some(&Value::string("first")));
    assert_eq!(tree.get(&p(vec![k("items"), i(1)])), Some(&Value::string("a")));
}

#[test]
fn insert_index_out_of_bounds() {
    let mut tree = sample_tree();
    let result = tree.insert(&p(vec![k("items"), i(99)]), Value::string("x"));
    assert_eq!(result, Err(TreeError::IndexOutOfBounds(99)));
}

#[test]
fn insert_wrong_type() {
    let mut tree = sample_tree();
    let result = tree.insert(&p(vec![k("count"), k("x")]), Value::integer(1));
    assert_eq!(
        result,
        Err(TreeError::WrongType("insert".into(), "object".into(), "int".into()))
    );
}

#[test]
fn insert_root_error() {
    let mut tree = sample_tree();
    let result = tree.insert(&p(vec![]), Value::Null);
    assert_eq!(result, Err(TreeError::RootOperation("insert".into())));
}

// ── delete ──────────────────────────────────────────────────────────

#[test]
fn delete_existing_key() {
    let mut tree = sample_tree();
    let removed = tree.delete(&p(vec![k("server"), k("port")])).unwrap();
    assert_eq!(removed, Value::integer(8080));
    assert_eq!(tree.get(&p(vec![k("server"), k("port")])), None);
}

#[test]
fn delete_array_element() {
    let mut tree = sample_tree();
    let removed = tree.delete(&p(vec![k("items"), i(0)])).unwrap();
    assert_eq!(removed, Value::string("a"));
    assert_eq!(tree.get(&p(vec![k("items"), i(0)])), Some(&Value::integer(42)));
}

#[test]
fn delete_path_not_found() {
    let mut tree = sample_tree();
    let result = tree.delete(&p(vec![k("missing")]));
    assert_eq!(result, Err(TreeError::PathNotFound));
}

#[test]
fn delete_index_out_of_bounds() {
    let mut tree = sample_tree();
    let result = tree.delete(&p(vec![k("items"), i(99)]));
    assert_eq!(result, Err(TreeError::IndexOutOfBounds(99)));
}

#[test]
fn delete_wrong_type() {
    let mut tree = sample_tree();
    let result = tree.delete(&p(vec![k("count"), k("x")]));
    assert_eq!(
        result,
        Err(TreeError::WrongType("delete".into(), "object".into(), "int".into()))
    );
}

#[test]
fn delete_root_error() {
    let mut tree = sample_tree();
    let result = tree.delete(&p(vec![]));
    assert_eq!(result, Err(TreeError::RootOperation("delete".into())));
}

// ── rename_key ──────────────────────────────────────────────────────

#[test]
fn rename_existing_key() {
    let mut tree = sample_tree();
    tree.rename_key(&p(vec![k("server"), k("host")]), "address").unwrap();
    assert_eq!(tree.get(&p(vec![k("server"), k("host")])), None);
    assert_eq!(tree.get(&p(vec![k("server"), k("address")])), Some(&Value::string("0.0.0.0")));
}

#[test]
fn rename_key_not_found() {
    let mut tree = sample_tree();
    let result = tree.rename_key(&p(vec![k("server"), k("nope")]), "x");
    assert_eq!(result, Err(TreeError::PathNotFound));
}

#[test]
fn rename_key_already_exists() {
    let mut tree = sample_tree();
    let result = tree.rename_key(&p(vec![k("server"), k("host")]), "port");
    assert_eq!(result, Err(TreeError::KeyAlreadyExists("port".into())));
}

#[test]
fn rename_on_wrong_type() {
    let mut tree = sample_tree();
    let result = tree.rename_key(&p(vec![k("count"), k("x")]), "y");
    assert_eq!(
        result,
        Err(TreeError::WrongType("rename_key".into(), "object".into(), "int".into()))
    );
}

#[test]
fn rename_with_index_segment_error() {
    let mut tree = sample_tree();
    let result = tree.rename_key(&p(vec![k("items"), i(0)]), "new_name");
    assert_eq!(
        result,
        Err(TreeError::WrongType(
            "rename_key".into(),
            "object key".into(),
            "array index".into()
        ))
    );
}

#[test]
fn rename_root_error() {
    let mut tree = sample_tree();
    let result = tree.rename_key(&p(vec![]), "x");
    assert_eq!(result, Err(TreeError::RootOperation("rename_key".into())));
}

// ── move_value ──────────────────────────────────────────────────────

#[test]
fn move_between_keys() {
    let mut tree = sample_tree();
    tree.move_value(&p(vec![k("server"), k("host")]), &p(vec![k("server"), k("address")]))
        .unwrap();
    assert_eq!(tree.get(&p(vec![k("server"), k("host")])), None);
    assert_eq!(tree.get(&p(vec![k("server"), k("address")])), Some(&Value::string("0.0.0.0")));
}

#[test]
fn move_source_equals_target_error() {
    let mut tree = sample_tree();
    let result = tree.move_value(&p(vec![k("server"), k("host")]), &p(vec![k("server"), k("host")]));
    assert_eq!(result, Err(TreeError::SourceEqualsTarget));
}

#[test]
fn move_source_not_found() {
    let mut tree = sample_tree();
    let result = tree.move_value(&p(vec![k("missing")]), &p(vec![k("server"), k("x")]));
    assert_eq!(result, Err(TreeError::PathNotFound));
}

#[test]
fn move_to_existing_key_error() {
    let mut tree = sample_tree();
    let result = tree.move_value(&p(vec![k("server"), k("host")]), &p(vec![k("server"), k("port")]));
    assert_eq!(result, Err(TreeError::KeyAlreadyExists("port".into())));
}

// ── conversions ─────────────────────────────────────────────────────

#[test]
fn from_string() {
    let v: Value = "hello".to_string().into();
    assert_eq!(v, Value::string("hello"));
}

#[test]
fn from_str() {
    let v: Value = "hello".into();
    assert_eq!(v, Value::string("hello"));
}

#[test]
fn from_i64() {
    let v: Value = 42i64.into();
    assert_eq!(v, Value::integer(42));
}

#[test]
fn from_bool() {
    let v: Value = true.into();
    assert_eq!(v, Value::bool(true));
}

#[test]
fn from_vec() {
    let v: Value = vec![Value::integer(1), Value::integer(2)].into();
    assert_eq!(v, Value::Array(vec![Value::integer(1), Value::integer(2)]));
}

// ── further cases ───────────────────────────────────────────────────

#[test]
fn error_messages_read_as_displayed() {
    assert_eq!(TreeError::PathNotFound.message(), "path not found");
    assert_eq!(
        TreeError::WrongType("set".into(), "object".into(), "int".into()).message(),
        "cannot set: expected object, got int"
    );
    assert_eq!(TreeError::KeyAlreadyExists("a".into()).message(), "key already exists: `a`");
    assert_eq!(TreeError::IndexOutOfBounds(7).message(), "index out of bounds: 7");
    assert_eq!(TreeError::RootOperation("delete".into()).message(), "cannot delete on root value");
    assert_eq!(
        TreeError::SourceEqualsTarget.message(),
        "source and destination paths are the same"
    );
}

#[test]
fn set_then_get_reads_the_written_value() {
    let mut tree = sample_tree();
    let path = p(vec![k("items"), i(4), k("key")]);
    tree.set(&path, Value::integer(-3)).unwrap();
    assert_eq!(tree.get(&path), Some(&Value::integer(-3)));
}

#[test]
fn insert_then_delete_restores_the_tree() {
    let mut tree = sample_tree();
    let path = p(vec![k("server"), k("tls")]);
    tree.insert(&path, Value::bool(true)).unwrap();
    let removed = tree.delete(&path).unwrap();
    assert_eq!(removed, Value::bool(true));
    assert_eq!(tree, sample_tree());
}

#[test]
fn rename_moves_the_key_last() {
    let mut tree = sample_tree();
    tree.rename_key(&p(vec![k("server"), k("host")]), "address").unwrap();
    match tree.get(&p(vec![k("server")])) {
        Some(Value::Object(m)) => {
            assert_eq!(m.len(), 3);
            assert_eq!(m.key_at(2), "address");
        }
        _ => panic!("server should stay an object"),
    }
}

#[test]
fn object_equality_ignores_key_order() {
    let a = obj(vec![("x", Value::integer(1)), ("y", Value::integer(2))]);
    let b = obj(vec![("y", Value::integer(2)), ("x", Value::integer(1))]);
    assert_eq!(a, b);
    assert_ne!(a, obj(vec![("x", Value::integer(1))]));
}

#[test]
fn float_equality_follows_ieee() {
    assert_ne!(Value::float(f64::NAN.to_bits()), Value::float(f64::NAN.to_bits()));
    assert_eq!(Value::float(0.0f64.to_bits()), Value::float((-0.0f64).to_bits()));
}

#[test]
fn object_map_insert_replaces_in_place() {
    let mut m = ObjectMap::new();
    assert!(m.insert("a".into(), Value::integer(1)).is_none());
    assert!(m.insert("b".into(), Value::integer(2)).is_none());
    assert_eq!(m.insert("a".into(), Value::integer(3)), Some(Value::integer(1)));
    assert_eq!(m.len(), 2);
    assert_eq!(m.key_at(0), "a");
    assert_eq!(m.value_at(0), &Value::integer(3));
    assert_eq!(m.shift_remove("a"), Some(Value::integer(3)));
    assert_eq!(m.key_at(0), "b");
}

// ── laws on concrete values ─────────────────────────────────────────

#[test]
fn set_leaves_other_nodes_unchanged() {
    let mut t = sample_tree();
    let before = sample_tree();
    t.set(&p(vec![k("server"), k("port")]), Value::integer(1)).unwrap();
    for q in [
        p(vec![k("server"), k("host")]),
        p(vec![k("items"), i(4), k("key")]),
        p(vec![k("count")]),
    ] {
        assert_eq!(t.get(&q), before.get(&q));
    }
}

#[test]
fn lookup_along_joined_paths() {
    let t = sample_tree();
    let a = p(vec![k("items")]);
    let b = p(vec![i(4), k("key")]);
    let joined: Path = a.iter().chain(b.iter()).cloned().collect();
    assert_eq!(t.get(&joined), t.get(&a).and_then(|c| c.get(&b)));
    assert_eq!(t.get(&joined), Some(&Value::string("val")));
}

#[test]
fn renaming_back_restores_every_lookup() {
    let mut t = sample_tree();
    t.rename_key(&p(vec![k("server"), k("host")]), "address").unwrap();
    assert!(t.get(&p(vec![k("server"), k("host")])).is_none());
    t.rename_key(&p(vec![k("server"), k("address")]), "host").unwrap();
    let before = sample_tree();
    for q in [
        p(vec![k("server"), k("host")]),
        p(vec![k("server"), k("port")]),
        p(vec![k("server"), k("enabled")]),
        p(vec![k("count")]),
    ] {
        assert_eq!(t.get(&q), before.get(&q));
    }
    assert_eq!(t, before);
}

#[test]
fn get_mut_and_modify() {
    let mut tree = sample_tree();
    let val = tree.get_mut(&p(vec![k("server"), k("port")]));
    assert!(val.is_some());
    if let Some(Value::Int(port)) = val {
        *port = 9090;
    }
    assert_eq!(tree.get(&p(vec![k("server"), k("port")])), Some(&Value::integer(9090)));
}

#[test]
fn get_mut_nonexistent() {
    let mut tree = sample_tree();
    assert!(tree.get_mut(&p(vec![k("missing")])).is_none());
}

#[test]
fn get_mut_into_an_array_item() {
    let mut tree = sample_tree();
    if let Some(v) = tree.get_mut(&p(vec![k("items"), i(0)])) {
        *v = Value::string("z");
    }
    assert_eq!(tree.get(&p(vec![k("items"), i(0)])), Some(&Value::string("z")));
    assert!(tree.get_mut(&p(vec![k("items"), i(9)])).is_none());
    assert!(tree.get_mut(&p(vec![k("count"), k("x")])).is_none());
}

#[test]
fn paths_are_shown_with_slashes() {
    assert_eq!(confui::tree::path::path_text(&p(vec![])), "/");
    assert_eq!(confui::tree::path::path_text(&p(vec![k("items"), i(4), k("key")])), "/items/[4]/key");
}
