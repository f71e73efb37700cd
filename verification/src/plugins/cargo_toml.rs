//! Plugin for Cargo.toml files: documentation and validation for common keys.

use vstd::prelude::*;

use super::Plugin;
use crate::text::{alphanumeric, char_is_alphanumeric, chars_of, count_char, count_char_in, owned, push_str, str_eq};
use crate::tree::path::{path_view, Seg};
use crate::tree::value::{lemma_value_view, Val};
use crate::tree::{Path, PathSegment, Value};
use crate::validation::{msgs_view, push_msg, Severity, ValidationMessage};

verus! {

/// Plugin for `Cargo.toml` files.
pub struct CargoTomlPlugin;

/// The last segment of a path, when it is an object key.
pub open spec fn last_key_of(p: Seq<Seg>) -> Option<Seq<char>> {
    if p.len() == 0 {
        None
    } else {
        match p.last() {
            Seg::Key(k) => Some(k),
            Seg::Index(_) => None,
        }
    }
}

/// The documentation shown for a `Cargo.toml` key, if the plugin has any.
pub open spec fn cargo_doc(k: Seq<char>) -> Option<Seq<char>> {
    if k == "name"@ {
        Some("Package name. Must be a valid Rust identifier (kebab-case).\nUsed as the crate name on crates.io."@)
    } else if k == "version"@ {
        Some("Semantic version (e.g. \"0.1.0\"). Should follow semver for Rust crates."@)
    } else if k == "edition"@ {
        Some("Rust edition. Valid values: 2015, 2018, 2021, 2024.\nDetermines which Rust language features are available."@)
    } else if k == "authors"@ {
        Some("List of package authors, typically as \"Name <email>\"."@)
    } else if k == "description"@ {
        Some("A short description of the package.\nDisplayed on crates.io and in `cargo search`."@)
    } else if k == "license"@ {
        Some("SPDX license identifier (e.g. \"MIT\", \"Apache-2.0\")."@)
    } else if k == "repository"@ {
        Some("URL to the package's source repository."@)
    } else if k == "homepage"@ {
        Some("URL to the package's homepage."@)
    } else if k == "documentation"@ {
        Some("URL to the package's documentation.\nDefaults to docs.rs if not set."@)
    } else if k == "readme"@ {
        Some("Path to the README file (relative to Cargo.toml).\nDefaults to \"README.md\"."@)
    } else if k == "keywords"@ {
        Some("List of keywords for crates.io search."@)
    } else if k == "categories"@ {
        Some("List of category labels for crates.io."@)
    } else if k == "publish"@ {
        Some("Whether the package can be published to crates.io.\nSet to `false` to prevent accidental publishing."@)
    } else if k == "resolver"@ {
        Some("Dependency resolver version (\"1\" or \"2\").\nEdition 2021 defaults to \"2\"."@)
    } else {
        None
    }
}

/// May the character appear in a package name?
pub open spec fn name_char_ok(c: char) -> bool {
    alphanumeric(c) || c == '-' || c == '_'
}

/// Is the text one of the known Rust editions?
pub open spec fn known_edition(s: Seq<char>) -> bool {
    s == "2015"@ || s == "2018"@ || s == "2021"@ || s == "2024"@
}

/// The messages the plugin adds for `value` at the key `k`.
pub open spec fn key_messages(k: Seq<char>, v: Val) -> Seq<(Severity, Seq<char>)> {
    match v {
        Val::Str(s) => if k == "edition"@ {
            if !known_edition(s) {
                seq![
                    (
                        Severity::Warning,
                        "Unknown Rust edition '"@ + s + "'. Valid values: 2015, 2018, 2021, 2024"@,
                    ),
                ]
            } else {
                seq![]
            }
        } else if k == "version"@ {
            if count_char(s, '.') + 1 < 3 {
                seq![
                    (
                        Severity::Warning,
                        "Version '"@ + s
                            + "' does not follow semver (expected major.minor.patch)"@,
                    ),
                ]
            } else {
                seq![]
            }
        } else if k == "name"@ {
            if s.len() == 0 {
                seq![(Severity::Error, "Package name must not be empty"@)]
            } else if !(forall|i: int| 0 <= i < s.len() ==> #[trigger] name_char_ok(s[i])) {
                seq![
                    (
                        Severity::Error,
                        "Package name '"@ + s
                            + "' contains invalid characters. Use only letters, numbers, hyphens, and underscores"@,
                    ),
                ]
            } else {
                seq![]
            }
        } else {
            seq![]
        },
        _ => seq![],
    }
}

/// The messages the plugin adds for `value` at path `p`.
pub open spec fn cargo_messages(p: Seq<Seg>, v: Val) -> Seq<(Severity, Seq<char>)> {
    match last_key_of(p) {
        Some(k) => key_messages(k, v),
        None => seq![],
    }
}

/// The last key segment of a path, if the path ends in a key.
pub fn last_key(path: &Path) -> (r: Option<&str>)
    ensures
        match last_key_of(path_view(path@)) {
            Some(k) => r matches Some(x) && x@ == k,
            None => r is None,
        },
{
    if path.len() == 0 {
        return None;
    }
    let ghost pv = path_view(path@);
    proof {
        assert(pv.last() == path@[path@.len() - 1]@);
    }
    match &path[path.len() - 1] {
        PathSegment::Key(k) => Some(k.as_str()),
        PathSegment::Index(_) => None,
    }
}

fn all_name_chars(s: &str) -> (r: bool)
    ensures
        r == (forall|i: int| 0 <= i < s@.len() ==> #[trigger] name_char_ok(s@[i])),
{
    let cs = chars_of(s);
    let mut i: usize = 0;
    while i < cs.len()
        invariant
            i <= cs@.len(),
            cs@ == s@,
            forall|j: int| 0 <= j < i ==> #[trigger] name_char_ok(s@[j]),
        decreases cs@.len() - i,
    {
        let c = cs[i];
        if !(char_is_alphanumeric(c) || c == '-' || c == '_') {
            assert(!name_char_ok(s@[i as int]));
            return false;
        }
        i = i + 1;
    }
    true
}

fn doc_text(key: &str) -> (r: Option<String>)
    ensures
        match cargo_doc(key@) {
            Some(d) => r matches Some(x) && x@ == d,
            None => r is None,
        },
{
    if str_eq(key, "name") {
        Some(owned("Package name. Must be a valid Rust identifier (kebab-case).\nUsed as the crate name on crates.io."))
    } else if str_eq(key, "version") {
        Some(owned("Semantic version (e.g. \"0.1.0\"). Should follow semver for Rust crates."))
    } else if str_eq(key, "edition") {
        Some(owned("Rust edition. Valid values: 2015, 2018, 2021, 2024.\nDetermines which Rust language features are available."))
    } else if str_eq(key, "authors") {
        Some(owned("List of package authors, typically as \"Name <email>\"."))
    } else if str_eq(key, "description") {
        Some(owned("A short description of the package.\nDisplayed on crates.io and in `cargo search`."))
    } else if str_eq(key, "license") {
        Some(owned("SPDX license identifier (e.g. \"MIT\", \"Apache-2.0\")."))
    } else if str_eq(key, "repository") {
        Some(owned("URL to the package's source repository."))
    } else if str_eq(key, "homepage") {
        Some(owned("URL to the package's homepage."))
    } else if str_eq(key, "documentation") {
        Some(owned("URL to the package's documentation.\nDefaults to docs.rs if not set."))
    } else if str_eq(key, "readme") {
        Some(owned("Path to the README file (relative to Cargo.toml).\nDefaults to \"README.md\"."))
    } else if str_eq(key, "keywords") {
        Some(owned("List of keywords for crates.io search."))
    } else if str_eq(key, "categories") {
        Some(owned("List of category labels for crates.io."))
    } else if str_eq(key, "publish") {
        Some(owned("Whether the package can be published to crates.io.\nSet to `false` to prevent accidental publishing."))
    } else if str_eq(key, "resolver") {
        Some(owned("Dependency resolver version (\"1\" or \"2\").\nEdition 2021 defaults to \"2\"."))
    } else {
        None
    }
}

fn key_validate(key: &str, value: &Value, msgs: &mut Vec<ValidationMessage>)
    requires
        msgs_view(old(msgs)@) == Seq::<(Severity, Seq<char>)>::empty(),
    ensures
        msgs_view(final(msgs)@) == key_messages(key@, value@),
{
    proof {
        lemma_value_view(*value);
    }
    match value {
        Value::String(s) => {
            let st = s.as_str();
            if str_eq(key, "edition") {
                if !(str_eq(st, "2015") || str_eq(st, "2018") || str_eq(st, "2021") || str_eq(
                    st,
                    "2024",
                )) {
                    let mut m = owned("Unknown Rust edition '");
                    push_str(&mut m, st);
                    push_str(&mut m, "'. Valid values: 2015, 2018, 2021, 2024");
                    push_msg(msgs, Severity::Warning, m);
                }
            } else if str_eq(key, "version") {
                let dots = count_char_in(st, '.');
                if dots < 2 {
                    let mut m = owned("Version '");
                    push_str(&mut m, st);
                    push_str(&mut m, "' does not follow semver (expected major.minor.patch)");
                    push_msg(msgs, Severity::Warning, m);
                }
            } else if str_eq(key, "name") {
                if chars_of(st).len() == 0 {
                    push_msg(msgs, Severity::Error, owned("Package name must not be empty"));
                } else if !all_name_chars(st) {
                    let mut m = owned("Package name '");
                    push_str(&mut m, st);
                    push_str(
                        &mut m,
                        "' contains invalid characters. Use only letters, numbers, hyphens, and underscores",
                    );
                    push_msg(msgs, Severity::Error, m);
                }
            }
        },
        _ => {},
    }
}

impl CargoTomlPlugin {
    /// Create the plugin.
    pub fn new() -> (r: Self) {
        CargoTomlPlugin
    }
}

impl Plugin for CargoTomlPlugin {
    open spec fn applies_to(&self, file_name: Seq<char>) -> bool {
        file_name == "Cargo.toml"@
    }

    fn name(&self) -> (r: String)
        ensures
            r@ == "Cargo.toml"@,
    {
        owned("Cargo.toml")
    }

    fn description(&self) -> (r: String)
        ensures
            r@ == "Rust package manifest — docs and validation for common keys"@,
    {
        owned("Rust package manifest — docs and validation for common keys")
    }

    fn matches_file(&self, file_name: &str) -> (r: bool) {
        str_eq(file_name, "Cargo.toml")
    }

    fn docs_for(&self, path: &Path) -> (r: Option<String>)
        ensures
            match last_key_of(path_view(path@)) {
                Some(k) => match cargo_doc(k) {
                    Some(d) => r matches Some(x) && x@ == d,
                    None => r is None,
                },
                None => r is None,
            },
    {
        match last_key(path) {
            Some(k) => doc_text(k),
            None => None,
        }
    }

    fn validate(&self, path: &Path, value: &Value) -> (r: Vec<ValidationMessage>)
        ensures
            msgs_view(r@) == cargo_messages(path_view(path@), value@),
    {
        let mut msgs: Vec<ValidationMessage> = Vec::new();
        proof {
            assert(msgs_view(msgs@) =~= Seq::<(Severity, Seq<char>)>::empty());
        }
        match last_key(path) {
            Some(k) => key_validate(k, value, &mut msgs),
            None => {},
        }
        msgs
    }
}

// ── laws ────────────────────────────────────────────────────────────

/// At a key `edition`, the editions 2015, 2018, 2021 and 2024 get no message
/// and any other text gets the one warning that names it.
pub proof fn law_edition_check(p: Seq<Seg>, s: Seq<char>)
    requires
        p.len() > 0,
        p.last() == Seg::Key("edition"@),
    ensures
        s == "2015"@ || s == "2018"@ || s == "2021"@ || s == "2024"@ ==> cargo_messages(p, Val::Str(s))
            == Seq::<(Severity, Seq<char>)>::empty(),
        !(s == "2015"@ || s == "2018"@ || s == "2021"@ || s == "2024"@) ==> cargo_messages(p, Val::Str(s))
            == seq![
            (
                Severity::Warning,
                "Unknown Rust edition '"@ + s + "'. Valid values: 2015, 2018, 2021, 2024"@,
            ),
        ],
{
}

} // verus!
