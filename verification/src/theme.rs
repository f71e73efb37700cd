//! Theme definitions and loading.
//!
//! Provides preset themes (Dark, Light, Catppuccin, Nord, Tokyo Night,
//! Gruvbox) and custom themes built from a table of hex colour strings.

use vstd::prelude::*;

use crate::text::{owned, trim, trimmed_chars};

verus! {

/// An RGB colour.
pub type Rgb = (u8, u8, u8);

/// A complete set of colours for the TUI.
#[derive(Debug)]
pub struct Theme {
    /// Display name.
    pub name: String,
    /// Background colour for the top bar.
    pub top_bar_bg: Rgb,
    /// Text colour in the top bar.
    pub top_bar_fg: Rgb,
    /// Accent colour (badge background).
    pub accent_bg: Rgb,
    /// Accent text colour.
    pub accent_fg: Rgb,
    /// Tree sidebar — key names.
    pub tree_key: Rgb,
    /// Tree sidebar — value summaries.
    pub tree_value: Rgb,
    /// Tree sidebar — expand/collapse icons.
    pub tree_icon: Rgb,
    /// Tree sidebar — cursor highlight background.
    pub cursor_bg: Rgb,
    /// Tree sidebar — cursor highlight foreground.
    pub cursor_fg: Rgb,
    /// Property panel — section headers.
    pub panel_header: Rgb,
    /// Property panel — normal text.
    pub panel_text: Rgb,
    /// Status bar background (normal mode).
    pub status_bg: Rgb,
    /// Status bar foreground (normal mode).
    pub status_fg: Rgb,
    /// Status bar background (editing mode).
    pub edit_status_bg: Rgb,
    /// Edit buffer background.
    pub edit_bg: Rgb,
    /// Edit cursor colour.
    pub edit_cursor: Rgb,
    /// Edit cursor background.
    pub edit_cursor_bg: Rgb,
    /// Validation error prefix colour.
    pub validation_error: Rgb,
    /// Validation warning prefix colour.
    pub validation_warning: Rgb,
    /// Selection highlight background in lists.
    pub highlight_bg: Rgb,
    /// Selection highlight foreground in lists.
    pub highlight_fg: Rgb,
}

/// The number of preset themes.
pub const PRESET_COUNT: usize = 6;

/// The Dark preset.
pub fn dark() -> (t: Theme)
    ensures
        t.name@ == "Dark"@,
        t.top_bar_bg == (60u8, 60u8, 60u8),
        t.top_bar_fg == (255u8, 255u8, 255u8),
        t.accent_bg == (33u8, 150u8, 243u8),
        t.accent_fg == (255u8, 255u8, 255u8),
        t.tree_key == (0u8, 188u8, 212u8),
        t.tree_value == (200u8, 200u8, 200u8),
        t.tree_icon == (255u8, 235u8, 59u8),
        t.cursor_bg == (255u8, 235u8, 59u8),
        t.cursor_fg == (0u8, 0u8, 0u8),
        t.panel_header == (33u8, 150u8, 243u8),
        t.panel_text == (200u8, 200u8, 200u8),
        t.status_bg == (60u8, 60u8, 60u8),
        t.status_fg == (255u8, 255u8, 255u8),
        t.edit_status_bg == (139u8, 195u8, 74u8),
        t.edit_bg == (60u8, 60u8, 60u8),
        t.edit_cursor == (0u8, 0u8, 0u8),
        t.edit_cursor_bg == (255u8, 235u8, 59u8),
        t.validation_error == (239u8, 83u8, 80u8),
        t.validation_warning == (255u8, 193u8, 7u8),
        t.highlight_bg == (255u8, 235u8, 59u8),
        t.highlight_fg == (0u8, 0u8, 0u8),
{
    Theme {
        name: owned("Dark"),
        top_bar_bg: (60, 60, 60),
        top_bar_fg: (255, 255, 255),
        accent_bg: (33, 150, 243),
        accent_fg: (255, 255, 255),
        tree_key: (0, 188, 212),
        tree_value: (200, 200, 200),
        tree_icon: (255, 235, 59),
        cursor_bg: (255, 235, 59),
        cursor_fg: (0, 0, 0),
        panel_header: (33, 150, 243),
        panel_text: (200, 200, 200),
        status_bg: (60, 60, 60),
        status_fg: (255, 255, 255),
        edit_status_bg: (139, 195, 74),
        edit_bg: (60, 60, 60),
        edit_cursor: (0, 0, 0),
        edit_cursor_bg: (255, 235, 59),
        validation_error: (239, 83, 80),
        validation_warning: (255, 193, 7),
        highlight_bg: (255, 235, 59),
        highlight_fg: (0, 0, 0),
    }
}

/// The Light preset.
pub fn light() -> (t: Theme)
    ensures
        t.name@ == "Light"@,
        t.top_bar_bg == (200u8, 200u8, 200u8),
        t.top_bar_fg == (30u8, 30u8, 30u8),
        t.accent_bg == (33u8, 150u8, 243u8),
        t.accent_fg == (255u8, 255u8, 255u8),
        t.tree_key == (0u8, 105u8, 120u8),
        t.tree_value == (80u8, 80u8, 80u8),
        t.tree_icon == (180u8, 120u8, 0u8),
        t.cursor_bg == (100u8, 181u8, 246u8),
        t.cursor_fg == (255u8, 255u8, 255u8),
        t.panel_header == (21u8, 101u8, 192u8),
        t.panel_text == (50u8, 50u8, 50u8),
        t.status_bg == (200u8, 200u8, 200u8),
        t.status_fg == (30u8, 30u8, 30u8),
        t.edit_status_bg == (139u8, 195u8, 74u8),
        t.edit_bg == (230u8, 230u8, 230u8),
        t.edit_cursor == (255u8, 255u8, 255u8),
        t.edit_cursor_bg == (33u8, 150u8, 243u8),
        t.validation_error == (198u8, 40u8, 40u8),
        t.validation_warning == (180u8, 120u8, 0u8),
        t.highlight_bg == (100u8, 181u8, 246u8),
        t.highlight_fg == (255u8, 255u8, 255u8),
{
    Theme {
        name: owned("Light"),
        top_bar_bg: (200, 200, 200),
        top_bar_fg: (30, 30, 30),
        accent_bg: (33, 150, 243),
        accent_fg: (255, 255, 255),
        tree_key: (0, 105, 120),
        tree_value: (80, 80, 80),
        tree_icon: (180, 120, 0),
        cursor_bg: (100, 181, 246),
        cursor_fg: (255, 255, 255),
        panel_header: (21, 101, 192),
        panel_text: (50, 50, 50),
        status_bg: (200, 200, 200),
        status_fg: (30, 30, 30),
        edit_status_bg: (139, 195, 74),
        edit_bg: (230, 230, 230),
        edit_cursor: (255, 255, 255),
        edit_cursor_bg: (33, 150, 243),
        validation_error: (198, 40, 40),
        validation_warning: (180, 120, 0),
        highlight_bg: (100, 181, 246),
        highlight_fg: (255, 255, 255),
    }
}

/// The Catppuccin preset.
pub fn catppuccin() -> (t: Theme)
    ensures
        t.name@ == "Catppuccin"@,
        t.top_bar_bg == (30u8, 30u8, 46u8),
        t.top_bar_fg == (205u8, 214u8, 244u8),
        t.accent_bg == (137u8, 180u8, 250u8),
        t.accent_fg == (30u8, 30u8, 46u8),
        t.tree_key == (137u8, 180u8, 250u8),
        t.tree_value == (186u8, 194u8, 222u8),
        t.tree_icon == (249u8, 226u8, 175u8),
        t.cursor_bg == (249u8, 226u8, 175u8),
        t.cursor_fg == (30u8, 30u8, 46u8),
        t.panel_header == (137u8, 180u8, 250u8),
        t.panel_text == (186u8, 194u8, 222u8),
        t.status_bg == (30u8, 30u8, 46u8),
        t.status_fg == (205u8, 214u8, 244u8),
        t.edit_status_bg == (166u8, 227u8, 161u8),
        t.edit_bg == (69u8, 71u8, 90u8),
        t.edit_cursor == (30u8, 30u8, 46u8),
        t.edit_cursor_bg == (249u8, 226u8, 175u8),
        t.validation_error == (243u8, 139u8, 168u8),
        t.validation_warning == (249u8, 226u8, 175u8),
        t.highlight_bg == (249u8, 226u8, 175u8),
        t.highlight_fg == (30u8, 30u8, 46u8),
{
    Theme {
        name: owned("Catppuccin"),
        top_bar_bg: (30, 30, 46),
        top_bar_fg: (205, 214, 244),
        accent_bg: (137, 180, 250),
        accent_fg: (30, 30, 46),
        tree_key: (137, 180, 250),
        tree_value: (186, 194, 222),
        tree_icon: (249, 226, 175),
        cursor_bg: (249, 226, 175),
        cursor_fg: (30, 30, 46),
        panel_header: (137, 180, 250),
        panel_text: (186, 194, 222),
        status_bg: (30, 30, 46),
        status_fg: (205, 214, 244),
        edit_status_bg: (166, 227, 161),
        edit_bg: (69, 71, 90),
        edit_cursor: (30, 30, 46),
        edit_cursor_bg: (249, 226, 175),
        validation_error: (243, 139, 168),
        validation_warning: (249, 226, 175),
        highlight_bg: (249, 226, 175),
        highlight_fg: (30, 30, 46),
    }
}

/// The Nord preset.
pub fn nord() -> (t: Theme)
    ensures
        t.name@ == "Nord"@,
        t.top_bar_bg == (46u8, 52u8, 64u8),
        t.top_bar_fg == (216u8, 222u8, 233u8),
        t.accent_bg == (94u8, 129u8, 172u8),
        t.accent_fg == (216u8, 222u8, 233u8),
        t.tree_key == (136u8, 192u8, 208u8),
        t.tree_value == (216u8, 222u8, 233u8),
        t.tree_icon == (235u8, 203u8, 139u8),
        t.cursor_bg == (235u8, 203u8, 139u8),
        t.cursor_fg == (46u8, 52u8, 64u8),
        t.panel_header == (136u8, 192u8, 208u8),
        t.panel_text == (216u8, 222u8, 233u8),
        t.status_bg == (46u8, 52u8, 64u8),
        t.status_fg == (216u8, 222u8, 233u8),
        t.edit_status_bg == (163u8, 190u8, 140u8),
        t.edit_bg == (59u8, 66u8, 82u8),
        t.edit_cursor == (46u8, 52u8, 64u8),
        t.edit_cursor_bg == (235u8, 203u8, 139u8),
        t.validation_error == (191u8, 97u8, 106u8),
        t.validation_warning == (235u8, 203u8, 139u8),
        t.highlight_bg == (235u8, 203u8, 139u8),
        t.highlight_fg == (46u8, 52u8, 64u8),
{
    Theme {
        name: owned("Nord"),
        top_bar_bg: (46, 52, 64),
        top_bar_fg: (216, 222, 233),
        accent_bg: (94, 129, 172),
        accent_fg: (216, 222, 233),
        tree_key: (136, 192, 208),
        tree_value: (216, 222, 233),
        tree_icon: (235, 203, 139),
        cursor_bg: (235, 203, 139),
        cursor_fg: (46, 52, 64),
        panel_header: (136, 192, 208),
        panel_text: (216, 222, 233),
        status_bg: (46, 52, 64),
        status_fg: (216, 222, 233),
        edit_status_bg: (163, 190, 140),
        edit_bg: (59, 66, 82),
        edit_cursor: (46, 52, 64),
        edit_cursor_bg: (235, 203, 139),
        validation_error: (191, 97, 106),
        validation_warning: (235, 203, 139),
        highlight_bg: (235, 203, 139),
        highlight_fg: (46, 52, 64),
    }
}

/// The Tokyo Night preset.
pub fn tokyo_night() -> (t: Theme)
    ensures
        t.name@ == "Tokyo Night"@,
        t.top_bar_bg == (26u8, 27u8, 38u8),
        t.top_bar_fg == (169u8, 177u8, 214u8),
        t.accent_bg == (122u8, 162u8, 247u8),
        t.accent_fg == (26u8, 27u8, 38u8),
        t.tree_key == (122u8, 162u8, 247u8),
        t.tree_value == (169u8, 177u8, 214u8),
        t.tree_icon == (224u8, 175u8, 104u8),
        t.cursor_bg == (224u8, 175u8, 104u8),
        t.cursor_fg == (26u8, 27u8, 38u8),
        t.panel_header == (122u8, 162u8, 247u8),
        t.panel_text == (169u8, 177u8, 214u8),
        t.status_bg == (26u8, 27u8, 38u8),
        t.status_fg == (169u8, 177u8, 214u8),
        t.edit_status_bg == (158u8, 206u8, 106u8),
        t.edit_bg == (41u8, 42u8, 58u8),
        t.edit_cursor == (26u8, 27u8, 38u8),
        t.edit_cursor_bg == (224u8, 175u8, 104u8),
        t.validation_error == (247u8, 118u8, 142u8),
        t.validation_warning == (224u8, 175u8, 104u8),
        t.highlight_bg == (224u8, 175u8, 104u8),
        t.highlight_fg == (26u8, 27u8, 38u8),
{
    Theme {
        name: owned("Tokyo Night"),
        top_bar_bg: (26, 27, 38),
        top_bar_fg: (169, 177, 214),
        accent_bg: (122, 162, 247),
        accent_fg: (26, 27, 38),
        tree_key: (122, 162, 247),
        tree_value: (169, 177, 214),
        tree_icon: (224, 175, 104),
        cursor_bg: (224, 175, 104),
        cursor_fg: (26, 27, 38),
        panel_header: (122, 162, 247),
        panel_text: (169, 177, 214),
        status_bg: (26, 27, 38),
        status_fg: (169, 177, 214),
        edit_status_bg: (158, 206, 106),
        edit_bg: (41, 42, 58),
        edit_cursor: (26, 27, 38),
        edit_cursor_bg: (224, 175, 104),
        validation_error: (247, 118, 142),
        validation_warning: (224, 175, 104),
        highlight_bg: (224, 175, 104),
        highlight_fg: (26, 27, 38),
    }
}

/// The Gruvbox preset.
pub fn gruvbox() -> (t: Theme)
    ensures
        t.name@ == "Gruvbox"@,
        t.top_bar_bg == (40u8, 40u8, 40u8),
        t.top_bar_fg == (235u8, 219u8, 178u8),
        t.accent_bg == (69u8, 133u8, 136u8),
        t.accent_fg == (235u8, 219u8, 178u8),
        t.tree_key == (131u8, 165u8, 152u8),
        t.tree_value == (235u8, 219u8, 178u8),
        t.tree_icon == (215u8, 153u8, 33u8),
        t.cursor_bg == (215u8, 153u8, 33u8),
        t.cursor_fg == (40u8, 40u8, 40u8),
        t.panel_header == (131u8, 165u8, 152u8),
        t.panel_text == (235u8, 219u8, 178u8),
        t.status_bg == (40u8, 40u8, 40u8),
        t.status_fg == (235u8, 219u8, 178u8),
        t.edit_status_bg == (184u8, 187u8, 38u8),
        t.edit_bg == (60u8, 56u8, 54u8),
        t.edit_cursor == (40u8, 40u8, 40u8),
        t.edit_cursor_bg == (215u8, 153u8, 33u8),
        t.validation_error == (204u8, 36u8, 29u8),
        t.validation_warning == (215u8, 153u8, 33u8),
        t.highlight_bg == (215u8, 153u8, 33u8),
        t.highlight_fg == (40u8, 40u8, 40u8),
{
    Theme {
        name: owned("Gruvbox"),
        top_bar_bg: (40, 40, 40),
        top_bar_fg: (235, 219, 178),
        accent_bg: (69, 133, 136),
        accent_fg: (235, 219, 178),
        tree_key: (131, 165, 152),
        tree_value: (235, 219, 178),
        tree_icon: (215, 153, 33),
        cursor_bg: (215, 153, 33),
        cursor_fg: (40, 40, 40),
        panel_header: (131, 165, 152),
        panel_text: (235, 219, 178),
        status_bg: (40, 40, 40),
        status_fg: (235, 219, 178),
        edit_status_bg: (184, 187, 38),
        edit_bg: (60, 56, 54),
        edit_cursor: (40, 40, 40),
        edit_cursor_bg: (215, 153, 33),
        validation_error: (204, 36, 29),
        validation_warning: (215, 153, 33),
        highlight_bg: (215, 153, 33),
        highlight_fg: (40, 40, 40),
    }
}

/// The colours of a theme, in field order.
pub open spec fn theme_colors(t: Theme) -> Seq<Rgb> {
    seq![
        t.top_bar_bg,
        t.top_bar_fg,
        t.accent_bg,
        t.accent_fg,
        t.tree_key,
        t.tree_value,
        t.tree_icon,
        t.cursor_bg,
        t.cursor_fg,
        t.panel_header,
        t.panel_text,
        t.status_bg,
        t.status_fg,
        t.edit_status_bg,
        t.edit_bg,
        t.edit_cursor,
        t.edit_cursor_bg,
        t.validation_error,
        t.validation_warning,
        t.highlight_bg,
        t.highlight_fg,
    ]
}

/// The colours of preset `i`, in field order.
pub open spec fn preset_colors(i: int) -> Seq<Rgb> {
    if i == 0 {
        seq![
            (60u8, 60u8, 60u8),
            (255u8, 255u8, 255u8),
            (33u8, 150u8, 243u8),
            (255u8, 255u8, 255u8),
            (0u8, 188u8, 212u8),
            (200u8, 200u8, 200u8),
            (255u8, 235u8, 59u8),
            (255u8, 235u8, 59u8),
            (0u8, 0u8, 0u8),
            (33u8, 150u8, 243u8),
            (200u8, 200u8, 200u8),
            (60u8, 60u8, 60u8),
            (255u8, 255u8, 255u8),
            (139u8, 195u8, 74u8),
            (60u8, 60u8, 60u8),
            (0u8, 0u8, 0u8),
            (255u8, 235u8, 59u8),
            (239u8, 83u8, 80u8),
            (255u8, 193u8, 7u8),
            (255u8, 235u8, 59u8),
            (0u8, 0u8, 0u8),
        ]
    } else if i == 1 {
        seq![
            (200u8, 200u8, 200u8),
            (30u8, 30u8, 30u8),
            (33u8, 150u8, 243u8),
            (255u8, 255u8, 255u8),
            (0u8, 105u8, 120u8),
            (80u8, 80u8, 80u8),
            (180u8, 120u8, 0u8),
            (100u8, 181u8, 246u8),
            (255u8, 255u8, 255u8),
            (21u8, 101u8, 192u8),
            (50u8, 50u8, 50u8),
            (200u8, 200u8, 200u8),
            (30u8, 30u8, 30u8),
            (139u8, 195u8, 74u8),
            (230u8, 230u8, 230u8),
            (255u8, 255u8, 255u8),
            (33u8, 150u8, 243u8),
            (198u8, 40u8, 40u8),
            (180u8, 120u8, 0u8),
            (100u8, 181u8, 246u8),
            (255u8, 255u8, 255u8),
        ]
    } else if i == 2 {
        seq![
            (30u8, 30u8, 46u8),
            (205u8, 214u8, 244u8),
            (137u8, 180u8, 250u8),
            (30u8, 30u8, 46u8),
            (137u8, 180u8, 250u8),
            (186u8, 194u8, 222u8),
            (249u8, 226u8, 175u8),
            (249u8, 226u8, 175u8),
            (30u8, 30u8, 46u8),
            (137u8, 180u8, 250u8),
            (186u8, 194u8, 222u8),
            (30u8, 30u8, 46u8),
            (205u8, 214u8, 244u8),
            (166u8, 227u8, 161u8),
            (69u8, 71u8, 90u8),
            (30u8, 30u8, 46u8),
            (249u8, 226u8, 175u8),
            (243u8, 139u8, 168u8),
            (249u8, 226u8, 175u8),
            (249u8, 226u8, 175u8),
            (30u8, 30u8, 46u8),
        ]
    } else if i == 3 {
        seq![
            (46u8, 52u8, 64u8),
            (216u8, 222u8, 233u8),
            (94u8, 129u8, 172u8),
            (216u8, 222u8, 233u8),
            (136u8, 192u8, 208u8),
            (216u8, 222u8, 233u8),
            (235u8, 203u8, 139u8),
            (235u8, 203u8, 139u8),
            (46u8, 52u8, 64u8),
            (136u8, 192u8, 208u8),
            (216u8, 222u8, 233u8),
            (46u8, 52u8, 64u8),
            (216u8, 222u8, 233u8),
            (163u8, 190u8, 140u8),
            (59u8, 66u8, 82u8),
            (46u8, 52u8, 64u8),
            (235u8, 203u8, 139u8),
            (191u8, 97u8, 106u8),
            (235u8, 203u8, 139u8),
            (235u8, 203u8, 139u8),
            (46u8, 52u8, 64u8),
        ]
    } else if i == 4 {
        seq![
            (26u8, 27u8, 38u8),
            (169u8, 177u8, 214u8),
            (122u8, 162u8, 247u8),
            (26u8, 27u8, 38u8),
            (122u8, 162u8, 247u8),
            (169u8, 177u8, 214u8),
            (224u8, 175u8, 104u8),
            (224u8, 175u8, 104u8),
            (26u8, 27u8, 38u8),
            (122u8, 162u8, 247u8),
            (169u8, 177u8, 214u8),
            (26u8, 27u8, 38u8),
            (169u8, 177u8, 214u8),
            (158u8, 206u8, 106u8),
            (41u8, 42u8, 58u8),
            (26u8, 27u8, 38u8),
            (224u8, 175u8, 104u8),
            (247u8, 118u8, 142u8),
            (224u8, 175u8, 104u8),
            (224u8, 175u8, 104u8),
            (26u8, 27u8, 38u8),
        ]
    } else {
        seq![
            (40u8, 40u8, 40u8),
            (235u8, 219u8, 178u8),
            (69u8, 133u8, 136u8),
            (235u8, 219u8, 178u8),
            (131u8, 165u8, 152u8),
            (235u8, 219u8, 178u8),
            (215u8, 153u8, 33u8),
            (215u8, 153u8, 33u8),
            (40u8, 40u8, 40u8),
            (131u8, 165u8, 152u8),
            (235u8, 219u8, 178u8),
            (40u8, 40u8, 40u8),
            (235u8, 219u8, 178u8),
            (184u8, 187u8, 38u8),
            (60u8, 56u8, 54u8),
            (40u8, 40u8, 40u8),
            (215u8, 153u8, 33u8),
            (204u8, 36u8, 29u8),
            (215u8, 153u8, 33u8),
            (215u8, 153u8, 33u8),
            (40u8, 40u8, 40u8),
        ]
    }
}

/// The name of preset `i` in cycle order (Dark, Light, Catppuccin, Nord,
/// Tokyo Night, Gruvbox).
pub open spec fn preset_name(i: int) -> Seq<char> {
    if i == 0 {
        "Dark"@
    } else if i == 1 {
        "Light"@
    } else if i == 2 {
        "Catppuccin"@
    } else if i == 3 {
        "Nord"@
    } else if i == 4 {
        "Tokyo Night"@
    } else {
        "Gruvbox"@
    }
}

/// Preset `i` in display/cycle order.
pub fn preset(i: usize) -> (t: Theme)
    requires
        i < PRESET_COUNT,
    ensures
        t.name@ == preset_name(i as int),
        theme_colors(t) == preset_colors(i as int),
{
    if i == 0 {
        dark()
    } else if i == 1 {
        light()
    } else if i == 2 {
        catppuccin()
    } else if i == 3 {
        nord()
    } else if i == 4 {
        tokyo_night()
    } else {
        gruvbox()
    }
}

// ── hex colour parsing ─────────────────────────────────────────────

/// The number of bytes that UTF-8 takes for a character.
pub open spec fn utf8_len(c: char) -> nat {
    if (c as u32) < 0x80 {
        1
    } else if (c as u32) < 0x800 {
        2
    } else if (c as u32) < 0x10000 {
        3
    } else {
        4
    }
}

/// The number of bytes that UTF-8 takes for a string (what `str::len` counts).
pub open spec fn utf8_total(s: Seq<char>) -> nat
    decreases s.len(),
{
    if s.len() == 0 {
        0
    } else {
        utf8_total(s.drop_last()) + utf8_len(s.last())
    }
}

/// The value of a hexadecimal digit, if `c` is one.
pub open spec fn hex_digit(c: char) -> Option<u8> {
    if '0' <= c <= '9' {
        Some(((c as u32) - ('0' as u32)) as u8)
    } else if 'a' <= c <= 'f' {
        Some(((c as u32) - ('a' as u32) + 10) as u8)
    } else if 'A' <= c <= 'F' {
        Some(((c as u32) - ('A' as u32) + 10) as u8)
    } else {
        None
    }
}

/// A two-character chunk read as a base-16 `u8`: two hex digits.
pub open spec fn hex_pair(x: char, y: char) -> Option<u8> {
    match (hex_digit(x), hex_digit(y)) {
        (Some(a), Some(b)) => Some((a * 16 + b) as u8),
        _ => None,
    }
}

/// Reading the two-byte chunk that starts at character `i` (all characters
/// before `i` being one byte long): `None` when the chunk would split a
/// character (slicing panics there), `Some(None)` when it is not a base-16
/// number, `Some(Some(n))` otherwise.
pub open spec fn hex_chunk(u: Seq<char>, i: int) -> Option<Option<u8>> {
    if i >= u.len() {
        Some(None)
    } else if utf8_len(u[i]) >= 3 {
        None
    } else if utf8_len(u[i]) == 2 {
        Some(None)
    } else if i + 1 >= u.len() {
        Some(None)
    } else if utf8_len(u[i + 1]) >= 2 {
        None
    } else {
        Some(hex_pair(u[i], u[i + 1]))
    }
}

/// Reading `rrggbb` (the text after `#`): `None` when the reading panics,
/// `Some(None)` when the text is not a colour, `Some(Some(rgb))` otherwise.
pub open spec fn hex_body(u: Seq<char>) -> Option<Option<Rgb>> {
    if utf8_total(u) != 6 {
        Some(None)
    } else {
        match hex_chunk(u, 0) {
            None => None,
            Some(None) => Some(None),
            Some(Some(r)) => match hex_chunk(u, 2) {
                None => None,
                Some(None) => Some(None),
                Some(Some(g)) => match hex_chunk(u, 4) {
                    None => None,
                    Some(None) => Some(None),
                    Some(Some(b)) => Some(Some((r, g, b))),
                },
            },
        }
    }
}

/// Reading a colour string `"#rrggbb"` (surrounding white space ignored):
/// `None` when the reading panics, `Some(None)` when the text is not a
/// colour, `Some(Some(rgb))` otherwise.
pub open spec fn hex_outcome(s: Seq<char>) -> Option<Option<Rgb>> {
    let t = trim(s);
    if t.len() == 0 || t[0] != '#' {
        Some(None)
    } else {
        hex_body(t.drop_first())
    }
}

proof fn lemma_utf8_total_prefix(s: Seq<char>, j: int)
    requires
        0 <= j <= s.len(),
    ensures
        utf8_total(s.subrange(0, j)) <= utf8_total(s),
    decreases s.len(),
{
    if j < s.len() {
        assert(s.drop_last().subrange(0, j) =~= s.subrange(0, j));
        lemma_utf8_total_prefix(s.drop_last(), j);
    } else {
        assert(s.subrange(0, j) =~= s);
    }
}

pub(crate) fn utf8_len_exec(c: char) -> (r: u64)
    ensures
        r == utf8_len(c),
{
    let n = c as u32;
    if n < 0x80 {
        1
    } else if n < 0x800 {
        2
    } else if n < 0x10000 {
        3
    } else {
        4
    }
}

fn hex_digit_exec(c: char) -> (r: Option<u8>)
    ensures
        r == hex_digit(c),
{
    if '0' <= c && c <= '9' {
        Some(((c as u32) - ('0' as u32)) as u8)
    } else if 'a' <= c && c <= 'f' {
        Some(((c as u32) - ('a' as u32) + 10) as u8)
    } else if 'A' <= c && c <= 'F' {
        Some(((c as u32) - ('A' as u32) + 10) as u8)
    } else {
        None
    }
}

fn hex_pair_exec(x: char, y: char) -> (r: Option<u8>)
    ensures
        r == hex_pair(x, y),
{
    match (hex_digit_exec(x), hex_digit_exec(y)) {
        (Some(a), Some(b)) => Some(a * 16 + b),
        _ => None,
    }
}

fn hex_chunk_exec(u: &Vec<char>, i: usize) -> (r: Option<Option<u8>>)
    ensures
        r == hex_chunk(u@, i as int),
{
    if i >= u.len() {
        Some(None)
    } else {
        let l = utf8_len_exec(u[i]);
        if l >= 3 {
            None
        } else if l == 2 {
            Some(None)
        } else if i + 1 >= u.len() {
            Some(None)
        } else if utf8_len_exec(u[i + 1]) >= 2 {
            None
        } else {
            Some(hex_pair_exec(u[i], u[i + 1]))
        }
    }
}

/// Does reading this colour string panic (a two-byte slice would split a character)?
pub open spec fn hex_panics(s: Seq<char>) -> bool {
    hex_outcome(s) is None
}

/// Read a colour string as [`hex_outcome`] describes it.
fn hex_read(s: &str) -> (r: Option<Option<Rgb>>)
    ensures
        r == hex_outcome(s@),
{
    let t = trimmed_chars(s);
    if t.len() == 0 || t[0] != '#' {
        return Some(None);
    }
    let mut u: Vec<char> = Vec::new();
    let mut i: usize = 1;
    while i < t.len()
        invariant
            1 <= i <= t@.len(),
            u@ == t@.subrange(1, i as int),
        decreases t@.len() - i,
    {
        u.push(t[i]);
        proof {
            assert(t@.subrange(1, i + 1) =~= t@.subrange(1, i as int).push(t@[i as int]));
        }
        i = i + 1;
    }
    proof {
        assert(u@ =~= t@.drop_first());
    }
    let mut total: u64 = 0;
    let mut j: usize = 0;
    while j < u.len()
        invariant
            j <= u@.len(),
            total == utf8_total(u@.subrange(0, j as int)),
            total <= 6,
            u@ == trim(s@).drop_first(),
            trim(s@).len() > 0 && trim(s@)[0] == '#',
        decreases u@.len() - j,
    {
        proof {
            assert(u@.subrange(0, j + 1).drop_last() =~= u@.subrange(0, j as int));
        }
        total = total + utf8_len_exec(u[j]);
        j = j + 1;
        if total > 6 {
            proof {
                lemma_utf8_total_prefix(u@, j as int);
            }
            return Some(None);
        }
    }
    proof {
        assert(u@.subrange(0, u@.len() as int) =~= u@);
    }
    if total != 6 {
        return Some(None);
    }
    let r = match hex_chunk_exec(&u, 0) {
        Some(Some(r)) => r,
        other => return match other {
            None => None,
            _ => Some(None),
        },
    };
    let g = match hex_chunk_exec(&u, 2) {
        Some(Some(g)) => g,
        other => return match other {
            None => None,
            _ => Some(None),
        },
    };
    let b = match hex_chunk_exec(&u, 4) {
        Some(Some(b)) => b,
        other => return match other {
            None => None,
            _ => Some(None),
        },
    };
    Some(Some((r, g, b)))
}

/// Parse a colour string in the form `"#rrggbb"` into an `(r, g, b)` tuple.
pub fn parse_hex(s: &str) -> (r: Option<Rgb>)
    requires
        !hex_panics(s@),
    ensures
        r == hex_outcome(s@)->0,
{
    match hex_read(s) {
        Some(r) => r,
        None => None,
    }
}

/// Whether a colour string can be read without panicking (see [`hex_panics`]).
pub fn hex_readable(s: &str) -> (r: bool)
    ensures
        r == !hex_panics(s@),
{
    hex_read(s).is_some()
}



// ── custom themes ──────────────────────────────────────────────────

/// A custom theme as read from a TOML table: every field optional, colours
/// as `"#rrggbb"` strings.
#[derive(Debug)]
pub struct ThemeConfig {
    pub name: Option<String>,
    pub top_bar_bg: Option<String>,
    pub top_bar_fg: Option<String>,
    pub accent_bg: Option<String>,
    pub accent_fg: Option<String>,
    pub tree_key: Option<String>,
    pub tree_value: Option<String>,
    pub tree_icon: Option<String>,
    pub cursor_bg: Option<String>,
    pub cursor_fg: Option<String>,
    pub panel_header: Option<String>,
    pub panel_text: Option<String>,
    pub status_bg: Option<String>,
    pub status_fg: Option<String>,
    pub edit_status_bg: Option<String>,
    pub edit_bg: Option<String>,
    pub edit_cursor: Option<String>,
    pub edit_cursor_bg: Option<String>,
    pub validation_error: Option<String>,
    pub validation_warning: Option<String>,
    pub highlight_bg: Option<String>,
    pub highlight_fg: Option<String>,
}

/// The colour for an optional colour string: its value when it reads as a
/// colour, the fallback otherwise.
pub open spec fn field_color(f: Option<String>, fallback: Rgb) -> Rgb {
    match f {
        Some(s) => match hex_outcome(s@) {
            Some(Some(c)) => c,
            _ => fallback,
        },
        None => fallback,
    }
}

/// An optional colour string that can be read without panicking.
pub open spec fn field_readable(f: Option<String>) -> bool {
    f matches Some(s) ==> !hex_panics(s@)
}

/// Every colour string of the configuration can be read without panicking.
pub open spec fn config_readable(c: ThemeConfig) -> bool {
    &&& field_readable(c.top_bar_bg)
    &&& field_readable(c.top_bar_fg)
    &&& field_readable(c.accent_bg)
    &&& field_readable(c.accent_fg)
    &&& field_readable(c.tree_key)
    &&& field_readable(c.tree_value)
    &&& field_readable(c.tree_icon)
    &&& field_readable(c.cursor_bg)
    &&& field_readable(c.cursor_fg)
    &&& field_readable(c.panel_header)
    &&& field_readable(c.panel_text)
    &&& field_readable(c.status_bg)
    &&& field_readable(c.status_fg)
    &&& field_readable(c.edit_status_bg)
    &&& field_readable(c.edit_bg)
    &&& field_readable(c.edit_cursor)
    &&& field_readable(c.edit_cursor_bg)
    &&& field_readable(c.validation_error)
    &&& field_readable(c.validation_warning)
    &&& field_readable(c.highlight_bg)
    &&& field_readable(c.highlight_fg)
}

fn field_is_readable(f: &Option<String>) -> (r: bool)
    ensures
        r == field_readable(*f),
{
    match f {
        Some(s) => hex_readable(s.as_str()),
        None => true,
    }
}

/// Whether every colour string of the configuration can be read without
/// panicking (see [`config_readable`]).
pub fn config_is_readable(c: &ThemeConfig) -> (r: bool)
    ensures
        r == config_readable(*c),
{
    field_is_readable(&c.top_bar_bg) && field_is_readable(&c.top_bar_fg)
        && field_is_readable(&c.accent_bg) && field_is_readable(&c.accent_fg)
        && field_is_readable(&c.tree_key) && field_is_readable(&c.tree_value)
        && field_is_readable(&c.tree_icon) && field_is_readable(&c.cursor_bg)
        && field_is_readable(&c.cursor_fg) && field_is_readable(&c.panel_header)
        && field_is_readable(&c.panel_text) && field_is_readable(&c.status_bg)
        && field_is_readable(&c.status_fg) && field_is_readable(&c.edit_status_bg)
        && field_is_readable(&c.edit_bg) && field_is_readable(&c.edit_cursor)
        && field_is_readable(&c.edit_cursor_bg) && field_is_readable(&c.validation_error)
        && field_is_readable(&c.validation_warning) && field_is_readable(&c.highlight_bg)
        && field_is_readable(&c.highlight_fg)
}

fn field(f: &Option<String>, fallback: Rgb) -> (r: Rgb)
    requires
        field_readable(*f),
    ensures
        r == field_color(*f, fallback),
{
    match f {
        Some(s) => match parse_hex(s.as_str()) {
            Some(c) => c,
            None => fallback,
        },
        None => fallback,
    }
}

/// Build a theme from a configuration; any colour that is missing or does
/// not read as `#rrggbb` falls back to the Dark preset, and a missing name
/// becomes "Custom".
pub fn theme_from_config(cfg: &ThemeConfig) -> (t: Theme)
    requires
        config_readable(*cfg),
    ensures
        t.name@ == match cfg.name {
            Some(n) => n@,
            None => "Custom"@,
        },
        t.top_bar_bg == field_color(cfg.top_bar_bg, preset_colors(0)[0]),
        t.top_bar_fg == field_color(cfg.top_bar_fg, preset_colors(0)[1]),
        t.accent_bg == field_color(cfg.accent_bg, preset_colors(0)[2]),
        t.accent_fg == field_color(cfg.accent_fg, preset_colors(0)[3]),
        t.tree_key == field_color(cfg.tree_key, preset_colors(0)[4]),
        t.tree_value == field_color(cfg.tree_value, preset_colors(0)[5]),
        t.tree_icon == field_color(cfg.tree_icon, preset_colors(0)[6]),
        t.cursor_bg == field_color(cfg.cursor_bg, preset_colors(0)[7]),
        t.cursor_fg == field_color(cfg.cursor_fg, preset_colors(0)[8]),
        t.panel_header == field_color(cfg.panel_header, preset_colors(0)[9]),
        t.panel_text == field_color(cfg.panel_text, preset_colors(0)[10]),
        t.status_bg == field_color(cfg.status_bg, preset_colors(0)[11]),
        t.status_fg == field_color(cfg.status_fg, preset_colors(0)[12]),
        t.edit_status_bg == field_color(cfg.edit_status_bg, preset_colors(0)[13]),
        t.edit_bg == field_color(cfg.edit_bg, preset_colors(0)[14]),
        t.edit_cursor == field_color(cfg.edit_cursor, preset_colors(0)[15]),
        t.edit_cursor_bg == field_color(cfg.edit_cursor_bg, preset_colors(0)[16]),
        t.validation_error == field_color(cfg.validation_error, preset_colors(0)[17]),
        t.validation_warning == field_color(cfg.validation_warning, preset_colors(0)[18]),
        t.highlight_bg == field_color(cfg.highlight_bg, preset_colors(0)[19]),
        t.highlight_fg == field_color(cfg.highlight_fg, preset_colors(0)[20]),
{
    let d = dark();
    let name = match &cfg.name {
        Some(n) => n.clone(),
        None => owned("Custom"),
    };
    Theme {
        name,
        top_bar_bg: field(&cfg.top_bar_bg, d.top_bar_bg),
        top_bar_fg: field(&cfg.top_bar_fg, d.top_bar_fg),
        accent_bg: field(&cfg.accent_bg, d.accent_bg),
        accent_fg: field(&cfg.accent_fg, d.accent_fg),
        tree_key: field(&cfg.tree_key, d.tree_key),
        tree_value: field(&cfg.tree_value, d.tree_value),
        tree_icon: field(&cfg.tree_icon, d.tree_icon),
        cursor_bg: field(&cfg.cursor_bg, d.cursor_bg),
        cursor_fg: field(&cfg.cursor_fg, d.cursor_fg),
        panel_header: field(&cfg.panel_header, d.panel_header),
        panel_text: field(&cfg.panel_text, d.panel_text),
        status_bg: field(&cfg.status_bg, d.status_bg),
        status_fg: field(&cfg.status_fg, d.status_fg),
        edit_status_bg: field(&cfg.edit_status_bg, d.edit_status_bg),
        edit_bg: field(&cfg.edit_bg, d.edit_bg),
        edit_cursor: field(&cfg.edit_cursor, d.edit_cursor),
        edit_cursor_bg: field(&cfg.edit_cursor_bg, d.edit_cursor_bg),
        validation_error: field(&cfg.validation_error, d.validation_error),
        validation_warning: field(&cfg.validation_warning, d.validation_warning),
        highlight_bg: field(&cfg.highlight_bg, d.highlight_bg),
        highlight_fg: field(&cfg.highlight_fg, d.highlight_fg),
    }
}

} // verus!
