use confui::parser::detect::file_extension;
use confui::parser::Format;

#[test]
fn detect_by_extension_toml() {
    assert_eq!(Format::detect("config.toml", ""), Format::Toml);
}

#[test]
fn detect_by_extension_json() {
    assert_eq!(Format::detect("config.json", ""), Format::Json);
}

#[test]
fn detect_by_extension_yaml() {
    assert_eq!(Format::detect("config.yaml", ""), Format::Yaml);
}

#[test]
fn detect_by_extension_yml() {
    assert_eq!(Format::detect("config.yml", ""), Format::Yaml);
}

#[test]
fn detect_by_extension_uppercase() {
    assert_eq!(Format::detect("config.JSON", ""), Format::Json);
}

#[test]
fn detect_by_content_json() {
    assert_eq!(Format::detect("config.unknown", r#"{"key": "value"}"#), Format::Json);
}

#[test]
fn detect_by_content_json_array() {
    assert_eq!(Format::detect("config.unknown", "[1, 2, 3]"), Format::Json);
}

#[test]
fn detect_by_content_yaml_fallback() {
    assert_eq!(Format::detect("config.unknown", "key: value\n"), Format::Yaml);
}

#[test]
fn detect_unknown_extension_falls_back() {
    assert_eq!(Format::detect("config.ini", "key = value\n"), Format::Yaml);
}

// ── extension edge cases, as std::path::Path::extension has them ──

#[test]
fn extension_of_plain_file() {
    assert_eq!(file_extension("dir/config.toml"), Some("toml".to_string()));
}

#[test]
fn extension_uses_last_dot() {
    assert_eq!(file_extension("archive.tar.gz"), Some("gz".to_string()));
}

#[test]
fn dot_file_has_no_extension() {
    assert_eq!(file_extension(".bashrc"), None);
    assert_eq!(file_extension("dir/.json"), None);
}

#[test]
fn no_dot_no_extension() {
    assert_eq!(file_extension("Makefile"), None);
}

#[test]
fn trailing_slash_is_ignored() {
    assert_eq!(file_extension("a/b.json/"), Some("json".to_string()));
}

#[test]
fn dot_dot_has_no_extension() {
    assert_eq!(file_extension(".."), None);
    assert_eq!(file_extension("a/.."), None);
}

#[test]
fn trailing_dot_gives_empty_extension() {
    assert_eq!(file_extension("name."), Some(String::new()));
}

#[test]
fn leading_whitespace_before_json_content() {
    assert_eq!(Format::detect("noext", "  \n\t{\"a\": 1}"), Format::Json);
    assert_eq!(Format::detect_from_content("   "), Format::Yaml);
    assert_eq!(Format::detect_from_content(""), Format::Yaml);
}

#[test]
fn extension_decides_before_content() {
    assert_eq!(Format::detect("x.toml", "{\"a\": 1}"), Format::Toml);
    assert_eq!(Format::detect("x.YML", "[1]"), Format::Yaml);
}

#[test]
fn extensions_name_formats() {
    assert_eq!(confui::parser::detect::format_for_extension("toml"), Some(Format::Toml));
    assert_eq!(confui::parser::detect::format_for_extension("json"), Some(Format::Json));
    assert_eq!(confui::parser::detect::format_for_extension("yml"), Some(Format::Yaml));
    assert_eq!(confui::parser::detect::format_for_extension("yaml"), Some(Format::Yaml));
    assert_eq!(confui::parser::detect::format_for_extension("TOML"), None);
    assert_eq!(confui::parser::detect::format_for_extension("ini"), None);
}
