use confui::theme::{config_is_readable, dark, hex_readable, light, parse_hex, preset, theme_from_config, ThemeConfig, PRESET_COUNT};

fn s(x: &str) -> Option<String> {
    Some(x.to_string())
}

fn empty_config() -> ThemeConfig {
    ThemeConfig {
        name: None,
        top_bar_bg: None,
        top_bar_fg: None,
        accent_bg: None,
        accent_fg: None,
        tree_key: None,
        tree_value: None,
        tree_icon: None,
        cursor_bg: None,
        cursor_fg: None,
        panel_header: None,
        panel_text: None,
        status_bg: None,
        status_fg: None,
        edit_status_bg: None,
        edit_bg: None,
        edit_cursor: None,
        edit_cursor_bg: None,
        validation_error: None,
        validation_warning: None,
        highlight_bg: None,
        highlight_fg: None,
    }
}

#[test]
fn parse_hex_valid() {
    assert_eq!(parse_hex("#ff0000"), Some((255, 0, 0)));
    assert_eq!(parse_hex("#00ff00"), Some((0, 255, 0)));
    assert_eq!(parse_hex("#0000ff"), Some((0, 0, 255)));
    assert_eq!(parse_hex("#ffffff"), Some((255, 255, 255)));
    assert_eq!(parse_hex("#000000"), Some((0, 0, 0)));
}

#[test]
fn parse_hex_invalid() {
    assert_eq!(parse_hex("ff0000"), None);
    assert_eq!(parse_hex("#fff"), None);
    assert_eq!(parse_hex("#gggggg"), None);
    assert_eq!(parse_hex(""), None);
}

/// Read a theme file's text into a configuration (the program does this
/// with a serde derive; here the table is read field by field).
fn config_from_toml(text: &str) -> ThemeConfig {
    let t: toml::Table = toml::from_str(text).unwrap();
    let f = |k: &str| t.get(k).and_then(|v| v.as_str()).map(|v| v.to_string());
    ThemeConfig {
        name: f("name"),
        top_bar_bg: f("top_bar_bg"),
        top_bar_fg: f("top_bar_fg"),
        accent_bg: f("accent_bg"),
        accent_fg: f("accent_fg"),
        tree_key: f("tree_key"),
        tree_value: f("tree_value"),
        tree_icon: f("tree_icon"),
        cursor_bg: f("cursor_bg"),
        cursor_fg: f("cursor_fg"),
        panel_header: f("panel_header"),
        panel_text: f("panel_text"),
        status_bg: f("status_bg"),
        status_fg: f("status_fg"),
        edit_status_bg: f("edit_status_bg"),
        edit_bg: f("edit_bg"),
        edit_cursor: f("edit_cursor"),
        edit_cursor_bg: f("edit_cursor_bg"),
        validation_error: f("validation_error"),
        validation_warning: f("validation_warning"),
        highlight_bg: f("highlight_bg"),
        highlight_fg: f("highlight_fg"),
    }
}

#[test]
fn load_from_toml_full() {
    let toml = "\
name = \"Test Theme\"\n\
top_bar_bg = \"#111111\"\n\
top_bar_fg = \"#ffffff\"\n\
accent_bg = \"#222222\"\n\
accent_fg = \"#cccccc\"\n\
tree_key = \"#00ff00\"\n\
tree_value = \"#aaaaaa\"\n\
tree_icon = \"#ffff00\"\n\
cursor_bg = \"#ff0000\"\n\
cursor_fg = \"#000000\"\n\
panel_header = \"#333333\"\n\
panel_text = \"#bbbbbb\"\n\
status_bg = \"#444444\"\n\
status_fg = \"#dddddd\"\n\
edit_status_bg = \"#555555\"\n\
edit_bg = \"#666666\"\n\
edit_cursor = \"#777777\"\n\
edit_cursor_bg = \"#888888\"\n\
validation_error = \"#ff0000\"\n\
validation_warning = \"#ffaa00\"\n\
highlight_bg = \"#cccccc\"\n\
highlight_fg = \"#111111\"\n";
    let cfg = config_from_toml(toml);
    assert!(config_is_readable(&cfg));
    let theme = theme_from_config(&cfg);
    assert_eq!(theme.name, "Test Theme");
    assert_eq!(theme.top_bar_bg, (17, 17, 17));
    assert_eq!(theme.top_bar_fg, (255, 255, 255));
    assert_eq!(theme.tree_key, (0, 255, 0));
    assert_eq!(theme.validation_error, (255, 0, 0));
}

#[test]
fn load_from_toml_partial() {
    let toml = "\
name = \"Partial\"\n\
tree_key = \"#aabbcc\"\n";
    let theme = theme_from_config(&config_from_toml(toml));
    assert_eq!(theme.name, "Partial");
    assert_eq!(theme.tree_key, (170, 187, 204));
    assert_eq!(theme.top_bar_bg, dark().top_bar_bg);
}

#[test]
fn parse_hex_trims_and_accepts_mixed_case() {
    assert_eq!(parse_hex("  #AbCdEf \n"), Some((0xab, 0xcd, 0xef)));
}

#[test]
fn parse_hex_wrong_lengths() {
    assert_eq!(parse_hex("#"), None);
    assert_eq!(parse_hex("#1234567"), None);
    assert_eq!(parse_hex("#12345"), None);
}

#[test]
fn parse_hex_needs_six_hex_digits() {
    assert_eq!(parse_hex("#+f+f+f"), None);
    assert_eq!(parse_hex(" #AbCdEf "), Some((171, 205, 239)));
}

#[test]
fn missing_name_becomes_custom_and_colours_fall_back() {
    let mut cfg = empty_config();
    cfg.cursor_bg = s("not a colour");
    let theme = theme_from_config(&cfg);
    let d = dark();
    assert_eq!(theme.name, "Custom");
    assert_eq!(theme.cursor_bg, d.cursor_bg);
    assert_eq!(theme.highlight_fg, d.highlight_fg);
}

#[test]
fn presets_in_cycle_order() {
    let names: Vec<String> = (0..PRESET_COUNT).map(|i| preset(i).name).collect();
    assert_eq!(names, vec!["Dark", "Light", "Catppuccin", "Nord", "Tokyo Night", "Gruvbox"]);
    assert_eq!(preset(1).top_bar_bg, light().top_bar_bg);
}

#[test]
fn reading_that_would_split_a_character_is_reported() {
    assert!(!hex_readable("#€xyz"));
    assert!(hex_readable("#ééé"));
    assert_eq!(parse_hex("#ééé"), None);
    assert!(hex_readable("no hash"));
}
