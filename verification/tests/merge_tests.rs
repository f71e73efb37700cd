use confui::parser::merge::{merge_plan, MergeStep};
use confui::parser::toml::{TomlItem, TomlValue};

fn val(v: TomlValue) -> TomlItem {
    TomlItem::Value(v)
}

fn entry(k: &str, it: TomlItem) -> (String, TomlItem) {
    (k.to_string(), it)
}

fn describe(steps: &[MergeStep]) -> Vec<String> {
    steps
        .iter()
        .map(|s| match s {
            MergeStep::Remove(k) => format!("remove {k}"),
            MergeStep::Keep(k) => format!("keep {k}"),
            MergeStep::Replace(k, _) => format!("replace {k}"),
            MergeStep::Descend(k, sub) => format!("descend {k} {:?}", describe(sub)),
        })
        .collect()
}

#[test]
fn unchanged_entries_are_kept_and_changed_ones_replaced() {
    let old = vec![
        entry("count", val(TomlValue::Integer(100))),
        entry("gone", val(TomlValue::Boolean(true))),
        entry("when", val(TomlValue::Datetime("2024-01-01T00:00:00Z".to_string()))),
    ];
    let fresh = vec![
        entry("count", val(TomlValue::Integer(200))),
        entry("when", val(TomlValue::String("2024-01-01T00:00:00Z".to_string()))),
        entry("new", val(TomlValue::Integer(1))),
    ];
    let plan = merge_plan(&old, &fresh);
    assert_eq!(describe(&plan), vec!["remove gone", "replace count", "keep when", "replace new"]);
}

#[test]
fn changed_tables_are_merged_key_by_key() {
    let old = vec![entry(
        "server",
        TomlItem::Table(vec![
            entry("host", val(TomlValue::String("0.0.0.0".to_string()))),
            entry("port", val(TomlValue::Integer(80))),
        ]),
    )];
    let fresh = vec![entry(
        "server",
        TomlItem::Table(vec![
            entry("host", val(TomlValue::String("1.2.3.4".to_string()))),
            entry("port", val(TomlValue::Integer(80))),
        ]),
    )];
    let plan = merge_plan(&old, &fresh);
    assert_eq!(describe(&plan), vec!["descend server [\"replace host\", \"keep port\"]"]);
}

#[test]
fn an_empty_old_table_gives_only_replacements() {
    let fresh = vec![entry("a", val(TomlValue::Float(1.5f64.to_bits())))];
    let plan = merge_plan(&Vec::new(), &fresh);
    assert_eq!(describe(&plan), vec!["replace a"]);
    match &plan[0] {
        MergeStep::Replace(_, TomlItem::Value(TomlValue::Float(b))) => assert_eq!(*b, 1.5f64.to_bits()),
        other => panic!("unexpected {other:?}"),
    }
}
