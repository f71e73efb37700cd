use confui::parser::json::{json_to_value, value_to_json, JsonNode, JsonNumber};
use confui::parser::toml::{populate_table, table_to_value, TomlItem, TomlValue};
use confui::parser::yaml::{value_to_yaml, yaml_key_to_string, yaml_to_value, YamlKey, YamlNode};
use confui::plugins::cargo_toml::CargoTomlPlugin;
use confui::plugins::{Plugin, PluginRegistry};
use confui::tree::value::ObjectMap;
use confui::tree::{Path, PathSegment, Value};
use confui::validation::Severity;
use confui::widgets::{format_leaf_preview, format_value_detailed, visible_lines};

fn obj(entries: Vec<(&str, Value)>) -> Value {
    let mut m = ObjectMap::new();
    for (k, v) in entries {
        m.insert(k.to_string(), v);
    }
    Value::Object(m)
}

fn ft(b: u64) -> String {
    f64::from_bits(b).to_string()
}

fn p(keys: &[&str]) -> Path {
    keys.iter().map(|k| PathSegment::from(*k)).collect()
}

fn int_num(i: i64) -> JsonNode {
    JsonNode::Number(JsonNumber { int: Some(i), float_bits: Some((i as f64).to_bits()) })
}

// ── JSON ────────────────────────────────────────────────────────────

#[test]
fn json_object_becomes_tree() {
    let j = JsonNode::Object(vec![
        ("name".to_string(), JsonNode::String("x".to_string())),
        ("n".to_string(), int_num(3)),
        (
            "f".to_string(),
            JsonNode::Number(JsonNumber { int: None, float_bits: Some(2.5f64.to_bits()) }),
        ),
        ("list".to_string(), JsonNode::Array(vec![JsonNode::Bool(true), JsonNode::Null])),
    ]);
    let v = json_to_value(&j);
    assert_eq!(
        v,
        obj(vec![
            ("name", Value::string("x")),
            ("n", Value::integer(3)),
            ("f", Value::float(2.5f64.to_bits())),
            ("list", Value::Array(vec![Value::bool(true), Value::Null])),
        ])
    );
}

#[test]
fn json_duplicate_key_keeps_first_position_and_last_value() {
    let j = JsonNode::Object(vec![
        ("a".to_string(), int_num(1)),
        ("b".to_string(), int_num(2)),
        ("a".to_string(), int_num(3)),
    ]);
    let v = json_to_value(&j);
    match &v {
        Value::Object(m) => {
            assert_eq!(m.key_at(0), "a");
            assert_eq!(m.value_at(0), &Value::integer(3));
            assert_eq!(m.len(), 2);
        }
        _ => panic!("not an object"),
    }
}

#[test]
fn json_round_trip_of_a_tree() {
    let t = obj(vec![
        ("s", Value::string("v")),
        ("i", Value::integer(-7)),
        ("a", Value::Array(vec![obj(vec![("k", Value::Null)])])),
    ]);
    assert_eq!(json_to_value(&value_to_json(&t)), t);
}

#[test]
fn json_non_finite_float_is_written_as_zero() {
    match value_to_json(&Value::float(f64::INFINITY.to_bits())) {
        JsonNode::Number(n) => {
            assert_eq!(n.float_bits.map(f64::from_bits), Some(0.0));
        }
        other => panic!("unexpected {other:?}"),
    }
}

// ── YAML ────────────────────────────────────────────────────────────

#[test]
fn yaml_keys_read_as_text() {
    assert_eq!(yaml_key_to_string(&YamlKey::Bool(true)), "true");
    assert_eq!(yaml_key_to_string(&YamlKey::Null), "null");
    assert_eq!(yaml_key_to_string(&YamlKey::Number("12".to_string())), "12");
}

#[test]
fn yaml_mapping_becomes_tree() {
    let y = YamlNode::Mapping(vec![
        (YamlKey::Str("a".to_string()), YamlNode::Tagged(Box::new(YamlNode::Bool(false)))),
        (YamlKey::Number("1".to_string()), YamlNode::Sequence(vec![YamlNode::Null])),
    ]);
    assert_eq!(
        yaml_to_value(&y),
        obj(vec![("a", Value::bool(false)), ("1", Value::Array(vec![Value::Null]))])
    );
}

#[test]
fn yaml_round_trip_of_a_tree() {
    let t = obj(vec![("x", Value::float(0.25f64.to_bits())), ("y", Value::string(""))]);
    assert_eq!(yaml_to_value(&value_to_yaml(&t)), t);
}

// ── TOML ────────────────────────────────────────────────────────────

#[test]
fn toml_table_becomes_tree() {
    let tbl = vec![
        ("title".to_string(), TomlItem::Value(TomlValue::String("t".to_string()))),
        (
            "when".to_string(),
            TomlItem::Value(TomlValue::Datetime("2024-01-01T00:00:00Z".to_string())),
        ),
        (
            "server".to_string(),
            TomlItem::Table(vec![("port".to_string(), TomlItem::Value(TomlValue::Integer(80)))]),
        ),
        (
            "bins".to_string(),
            TomlItem::ArrayOfTables(vec![vec![(
                "name".to_string(),
                TomlItem::Value(TomlValue::Boolean(true)),
            )]]),
        ),
    ];
    assert_eq!(
        table_to_value(&tbl),
        obj(vec![
            ("title", Value::string("t")),
            ("when", Value::string("2024-01-01T00:00:00Z")),
            ("server", obj(vec![("port", Value::integer(80))])),
            ("bins", Value::Array(vec![obj(vec![("name", Value::bool(true))])])),
        ])
    );
}

#[test]
fn toml_written_table_reads_back() {
    let t = obj(vec![
        ("name", Value::string("demo")),
        ("server", obj(vec![("host", Value::string("h")), ("port", Value::integer(1))])),
        ("list", Value::Array(vec![Value::integer(1), Value::integer(2)])),
        ("tables", Value::Array(vec![obj(vec![("k", Value::bool(true))])])),
    ]);
    let tbl = populate_table(&t);
    assert_eq!(table_to_value(&tbl), t);
}

#[test]
fn toml_null_is_left_out() {
    let t = obj(vec![("gone", Value::Null), ("kept", Value::integer(1))]);
    let tbl = populate_table(&t);
    assert_eq!(table_to_value(&tbl), obj(vec![("kept", Value::integer(1))]));
}

// ── plugins ─────────────────────────────────────────────────────────

#[test]
fn cargo_plugin_matches_only_cargo_toml() {
    let plugin = CargoTomlPlugin::new();
    assert!(plugin.matches_file("Cargo.toml"));
    assert!(!plugin.matches_file("cargo.toml"));
    assert_eq!(plugin.name(), "Cargo.toml");
}

#[test]
fn cargo_plugin_docs() {
    let plugin = CargoTomlPlugin::new();
    assert_eq!(
        plugin.docs_for(&p(&["package", "license"])),
        Some("SPDX license identifier (e.g. \"MIT\", \"Apache-2.0\").".to_string())
    );
    assert_eq!(plugin.docs_for(&p(&["package", "unknown"])), None);
    assert_eq!(plugin.docs_for(&Vec::new()), None);
}

#[test]
fn cargo_plugin_validation() {
    let plugin = CargoTomlPlugin::new();
    let m = plugin.validate(&p(&["package", "edition"]), &Value::string("2020"));
    assert_eq!(m.len(), 1);
    assert_eq!(m[0].severity, Severity::Warning);
    assert_eq!(m[0].message, "Unknown Rust edition '2020'. Valid values: 2015, 2018, 2021, 2024");
    assert!(plugin.validate(&p(&["package", "edition"]), &Value::string("2021")).is_empty());
    let m = plugin.validate(&p(&["package", "version"]), &Value::string("1.0"));
    assert_eq!(m[0].message, "Version '1.0' does not follow semver (expected major.minor.patch)");
    assert!(plugin.validate(&p(&["version"]), &Value::string("1.0.0")).is_empty());
    let m = plugin.validate(&p(&["name"]), &Value::string(""));
    assert_eq!(m[0].severity, Severity::Error);
    assert_eq!(m[0].message, "Package name must not be empty");
    let m = plugin.validate(&p(&["name"]), &Value::string("my crate"));
    assert_eq!(m.len(), 1);
    assert!(plugin.validate(&p(&["name"]), &Value::string("my-crate_2")).is_empty());
}

#[test]
fn registry_finds_first_matching_plugin() {
    let mut reg: PluginRegistry<CargoTomlPlugin> = PluginRegistry::new();
    assert!(reg.find_for_file("Cargo.toml").is_none());
    reg.register(CargoTomlPlugin::new());
    assert!(reg.find_for_file("Cargo.toml").is_some());
    assert!(reg.find_for_file("config.toml").is_none());
    assert_eq!(reg.all().len(), 1);
}

// ── previews ────────────────────────────────────────────────────────

#[test]
fn leaf_previews() {
    assert_eq!(format_leaf_preview(&Value::Null, &ft), "null");
    assert_eq!(format_leaf_preview(&Value::bool(true), &ft), "true");
    assert_eq!(format_leaf_preview(&Value::integer(-4), &ft), "-4");
    assert_eq!(format_leaf_preview(&Value::float(2.0f64.to_bits()), &ft), "2.0");
    assert_eq!(format_leaf_preview(&Value::float(2.5f64.to_bits()), &ft), "2.5");
    assert_eq!(format_leaf_preview(&Value::float(f64::NAN.to_bits()), &ft), "NaN");
    assert_eq!(format_leaf_preview(&Value::string("hi"), &ft), "\"hi\"");
    assert_eq!(format_leaf_preview(&Value::object(), &ft), "{...}");
    assert_eq!(format_leaf_preview(&Value::array(), &ft), "[...]");
}

#[test]
fn long_string_preview_is_cut() {
    let s = "x".repeat(60);
    let expected = format!("\"{}\"...", "x".repeat(47));
    assert_eq!(format_leaf_preview(&Value::string(&s), &ft), expected);
    let fifty = "y".repeat(50);
    assert_eq!(format_leaf_preview(&Value::string(&fifty), &ft), format!("\"{fifty}\""));
}

#[test]
fn detailed_previews() {
    let t = obj(vec![("a", Value::integer(1)), ("b", Value::string("s"))]);
    assert_eq!(format_value_detailed(&t, &ft), "{\n  a: 1\n  b: \"s\"\n}");
    let a = Value::Array(vec![Value::Null, Value::bool(false)]);
    assert_eq!(format_value_detailed(&a, &ft), "[\n  [0]: null\n  [1]: false\n]");
    assert_eq!(format_value_detailed(&Value::string("raw"), &ft), "raw");
}

#[test]
fn visible_lines_follow_expansion() {
    let t = obj(vec![("o", obj(vec![("k", Value::integer(1))])), ("v", Value::Null)]);
    let expanded: Vec<Path> = vec![Vec::new()];
    let ls = visible_lines(&t, &expanded, &ft);
    let keys: Vec<&str> = ls.iter().map(|l| l.key.as_str()).collect();
    assert_eq!(keys.len(), 3);
    assert_eq!(keys[1], "o");
    assert_eq!(keys[2], "v");
    assert!(!ls[1].is_expanded);
    assert!(ls[2].is_leaf);
    let expanded: Vec<Path> = vec![Vec::new(), p(&["o"])];
    let ls = visible_lines(&t, &expanded, &ft);
    assert_eq!(ls.len(), 4);
    assert_eq!(ls[2].key, "k");
    assert_eq!(ls[2].depth, 2);
    assert_eq!(ls[2].path, p(&["o", "k"]));
}
