//! Inline validation for config values.
//!
//! Checks common constraints such as port ranges, number bounds, URL format
//! and IP address format. Validation runs on the selected node and results
//! are shown in the property panel.

use vstd::prelude::*;

use crate::text::{
    contains, has_char, int_text, i64_text, lowercase_of, owned, push_str, starts_with,
    str_contains, str_eq, str_has_char, str_starts_with, to_lowercase,
};
use crate::tree::path::{path_view, Path, PathSegment, Seg};
use crate::tree::value::{Val, Value};

verus! {

broadcast use crate::tree::value::group_value_view;

/// The severity of a validation message.
#[derive(Debug, Clone, Copy, PartialEq, Eq, Structural)]
pub enum Severity {
    /// A hard error: the value is invalid.
    Error,
    /// A soft warning: the value is unusual but not necessarily wrong.
    Warning,
}

/// A single validation message produced for a value.
#[derive(Debug, Clone)]
pub struct ValidationMessage {
    /// How serious this message is.
    pub severity: Severity,
    /// Human-readable explanation.
    pub message: String,
}

/// The view of a message: its severity and its text.
pub open spec fn msg_view(m: ValidationMessage) -> (Severity, Seq<char>) {
    (m.severity, m.message@)
}

/// The views of a list of messages.
pub open spec fn msgs_view(ms: Seq<ValidationMessage>) -> Seq<(Severity, Seq<char>)> {
    ms.map_values(|m: ValidationMessage| msg_view(m))
}

pub(crate) fn push_msg(messages: &mut Vec<ValidationMessage>, severity: Severity, message: String)
    ensures
        msgs_view(final(messages)@) == msgs_view(old(messages)@).push((severity, message@)),
{
    let ghost before = messages@;
    messages.push(ValidationMessage { severity, message });
    proof {
        assert(msgs_view(messages@) =~= msgs_view(before).push((severity, message@)));
    }
}

// ── integers ────────────────────────────────────────────────────────

/// The messages for an integer under key `name`.
pub open spec fn int_messages(name: Seq<char>, value: i64) -> Seq<(Severity, Seq<char>)> {
    let lower = lowercase_of(name);
    let port: Seq<(Severity, Seq<char>)> = if contains(lower, "port"@) {
        if !(1 <= value <= 65535) {
            seq![
                (
                    Severity::Error,
                    "Port must be between 1 and 65535, got "@ + int_text(value as int),
                ),
            ]
        } else if value < 1024 {
            seq![
                (
                    Severity::Warning,
                    "Port "@ + int_text(value as int)
                        + " is a well-known port (0-1023); may require root"@,
                ),
            ]
        } else {
            seq![]
        }
    } else {
        seq![]
    };
    let positive: Seq<(Severity, Seq<char>)> = if (contains(lower, "timeout"@) || contains(
        lower,
        "ttl"@,
    ) || contains(lower, "lifetime"@)) && value <= 0 {
        seq![(Severity::Error, name + " must be positive, got "@ + int_text(value as int))]
    } else {
        seq![]
    };
    let non_negative: Seq<(Severity, Seq<char>)> = if (contains(lower, "count"@) || contains(
        lower,
        "limit"@,
    ) || contains(lower, "size"@) || contains(lower, "max"@) || contains(lower, "length"@))
        && value < 0 {
        seq![(Severity::Error, name + " must be non-negative, got "@ + int_text(value as int))]
    } else {
        seq![]
    };
    port + positive + non_negative
}

/// Validate an integer value based on its key name.
pub fn validate_int(name: &str, value: i64, messages: &mut Vec<ValidationMessage>)
    ensures
        msgs_view(final(messages)@) == msgs_view(old(messages)@) + int_messages(name@, value),
{
    let ghost before = msgs_view(messages@);
    let lower = to_lowercase(name);
    let l = lower.as_str();
    let ghost lw = lowercase_of(name@);
    let text = i64_text(value);
    let ghost port: Seq<(Severity, Seq<char>)> = seq![];
    if str_contains(l, "port") {
        if !(1 <= value && value <= 65535) {
            let mut m = owned("Port must be between 1 and 65535, got ");
            push_str(&mut m, text.as_str());
            push_msg(messages, Severity::Error, m);
            proof {
                port = seq![(Severity::Error, "Port must be between 1 and 65535, got "@ + int_text(value as int))];
            }
        } else if value < 1024 {
            let mut m = owned("Port ");
            push_str(&mut m, text.as_str());
            push_str(&mut m, " is a well-known port (0-1023); may require root");
            push_msg(messages, Severity::Warning, m);
            proof {
                port = seq![
                    (
                        Severity::Warning,
                        "Port "@ + int_text(value as int)
                            + " is a well-known port (0-1023); may require root"@,
                    ),
                ];
            }
        }
    }
    let ghost after_port = msgs_view(messages@);
    proof {
        assert(after_port =~= before + port);
    }
    let ghost positive: Seq<(Severity, Seq<char>)> = seq![];
    if (str_contains(l, "timeout") || str_contains(l, "ttl") || str_contains(l, "lifetime"))
        && value <= 0 {
        let mut m = owned(name);
        push_str(&mut m, " must be positive, got ");
        push_str(&mut m, text.as_str());
        push_msg(messages, Severity::Error, m);
        proof {
            positive = seq![(Severity::Error, name@ + " must be positive, got "@ + int_text(value as int))];
        }
    }
    let ghost after_positive = msgs_view(messages@);
    proof {
        assert(after_positive =~= before + port + positive);
    }
    let ghost non_negative: Seq<(Severity, Seq<char>)> = seq![];
    if (str_contains(l, "count") || str_contains(l, "limit") || str_contains(l, "size")
        || str_contains(l, "max") || str_contains(l, "length")) && value < 0 {
        let mut m = owned(name);
        push_str(&mut m, " must be non-negative, got ");
        push_str(&mut m, text.as_str());
        push_msg(messages, Severity::Error, m);
        proof {
            non_negative = seq![(Severity::Error, name@ + " must be non-negative, got "@ + int_text(value as int))];
        }
    }
    proof {
        assert(msgs_view(messages@) =~= before + port + positive + non_negative);
        assert(int_messages(name@, value) =~= port + positive + non_negative);
        assert(msgs_view(messages@) =~= before + int_messages(name@, value));
    }
}

// ── strings ─────────────────────────────────────────────────────────

/// The messages for a string under key `name`; `is_ip` says whether the
/// string reads as an IPv4 or IPv6 address.
pub open spec fn string_messages(name: Seq<char>, value: Seq<char>, is_ip: bool) -> Seq<
    (Severity, Seq<char>),
> {
    let lower = lowercase_of(name);
    let http = starts_with(value, "http://"@);
    let https = starts_with(value, "https://"@);
    let url: Seq<(Severity, Seq<char>)> = if contains(lower, "url"@) || contains(lower, "uri"@)
        || contains(lower, "endpoint"@) || contains(lower, "host"@) || http || https {
        if !http && !https {
            if contains(value, "://"@) {
                seq![(Severity::Warning, "Unrecognized URI scheme in '"@ + value + "'"@)]
            } else {
                seq![]
            }
        } else {
            let rest = if http {
                value.subrange(7, value.len() as int)
            } else {
                value.subrange(8, value.len() as int)
            };
            if rest.len() == 0 {
                seq![(Severity::Error, "URL '"@ + value + "' has no host"@)]
            } else if !has_char(rest, '.') && !has_char(rest, ':') && rest != "localhost"@ {
                seq![(Severity::Warning, "URL '"@ + value + "' does not look like a valid host"@)]
            } else {
                seq![]
            }
        }
    } else {
        seq![]
    };
    let ip: Seq<(Severity, Seq<char>)> = if (contains(lower, "ip"@) || contains(
        lower,
        "address"@,
    ) || lower == "host"@) && (has_char(value, '.') || has_char(value, ':')) && !is_ip {
        seq![
            (Severity::Warning, "'"@ + value + "' does not appear to be a valid IP address"@),
        ]
    } else {
        seq![]
    };
    let empty: Seq<(Severity, Seq<char>)> = if value.len() == 0 {
        seq![(Severity::Warning, "Value is an empty string"@)]
    } else {
        seq![]
    };
    url + ip + empty
}

fn drop_chars(s: &str, n: usize) -> (r: String)
    requires
        n <= s@.len(),
    ensures
        r@ == s@.subrange(n as int, s@.len() as int),
{
    let cs = crate::text::chars_of(s);
    let mut out: Vec<char> = Vec::new();
    let mut i: usize = n;
    while i < cs.len()
        invariant
            n <= i <= cs@.len(),
            out@ == cs@.subrange(n as int, i as int),
        decreases cs@.len() - i,
    {
        out.push(cs[i]);
        proof {
            assert(cs@.subrange(n as int, i + 1) =~= cs@.subrange(n as int, i as int).push(cs@[i as int]));
        }
        i = i + 1;
    }
    crate::text::string_from_chars(out.as_slice())
}

/// Validate a string value based on its key name and content; `is_ip` says
/// whether the value reads as an IP address.
pub fn validate_string(name: &str, value: &str, is_ip: bool, messages: &mut Vec<ValidationMessage>)
    ensures
        msgs_view(final(messages)@) == msgs_view(old(messages)@) + string_messages(
            name@,
            value@,
            is_ip,
        ),
{
    let ghost before = msgs_view(messages@);
    let lower = to_lowercase(name);
    let l = lower.as_str();
    let http = str_starts_with(value, "http://");
    let https = str_starts_with(value, "https://");
    let ghost url: Seq<(Severity, Seq<char>)> = seq![];
    if str_contains(l, "url") || str_contains(l, "uri") || str_contains(l, "endpoint")
        || str_contains(l, "host") || http || https {
        if !http && !https {
            if str_contains(value, "://") {
                let mut m = owned("Unrecognized URI scheme in '");
                push_str(&mut m, value);
                push_str(&mut m, "'");
                push_msg(messages, Severity::Warning, m);
                proof {
                    url = seq![(Severity::Warning, "Unrecognized URI scheme in '"@ + value@ + "'"@)];
                }
            }
        } else {
            proof {
                reveal_strlit("http://");
                reveal_strlit("https://");
            }
            let rest = if http {
                drop_chars(value, 7)
            } else {
                drop_chars(value, 8)
            };
            if rest.as_str().is_empty() {
                let mut m = owned("URL '");
                push_str(&mut m, value);
                push_str(&mut m, "' has no host");
                push_msg(messages, Severity::Error, m);
                proof {
                    url = seq![(Severity::Error, "URL '"@ + value@ + "' has no host"@)];
                }
            } else if !str_has_char(rest.as_str(), '.') && !str_has_char(rest.as_str(), ':')
                && !str_eq(rest.as_str(), "localhost") {
                let mut m = owned("URL '");
                push_str(&mut m, value);
                push_str(&mut m, "' does not look like a valid host");
                push_msg(messages, Severity::Warning, m);
                proof {
                    url = seq![(Severity::Warning, "URL '"@ + value@ + "' does not look like a valid host"@)];
                }
            }
        }
    }
    let ghost after_url = msgs_view(messages@);
    proof {
        assert(after_url =~= before + url);
    }
    let ghost ip: Seq<(Severity, Seq<char>)> = seq![];
    if (str_contains(l, "ip") || str_contains(l, "address") || str_eq(l, "host"))
        && (str_has_char(value, '.') || str_has_char(value, ':')) && !is_ip {
        let mut m = owned("'");
        push_str(&mut m, value);
        push_str(&mut m, "' does not appear to be a valid IP address");
        push_msg(messages, Severity::Warning, m);
        proof {
            ip = seq![(Severity::Warning, "'"@ + value@ + "' does not appear to be a valid IP address"@)];
        }
    }
    let ghost after_ip = msgs_view(messages@);
    proof {
        assert(after_ip =~= before + url + ip);
    }
    let ghost empty: Seq<(Severity, Seq<char>)> = seq![];
    if value.is_empty() {
        push_msg(messages, Severity::Warning, owned("Value is an empty string"));
        proof {
            empty = seq![(Severity::Warning, "Value is an empty string"@)];
        }
    }
    proof {
        assert(msgs_view(messages@) =~= before + url + ip + empty);
        assert(string_messages(name@, value@, is_ip) =~= url + ip + empty);
    }
}

// ── floats (held by their IEEE-754 bit pattern) ─────────────────────

/// Is the bit pattern a NaN?
pub open spec fn bits_is_nan(b: u64) -> bool {
    (b >> 52u64) & 0x7ffu64 == 0x7ffu64 && b & 0xf_ffff_ffff_ffffu64 != 0
}

/// Is the bit pattern an infinity?
pub open spec fn bits_is_infinite(b: u64) -> bool {
    (b >> 52u64) & 0x7ffu64 == 0x7ffu64 && b & 0xf_ffff_ffff_ffffu64 == 0
}

/// Is the sign bit set?
pub open spec fn bits_sign(b: u64) -> bool {
    b >> 63u64 == 1
}

/// Is the number below zero (`-0.0` is not)?
pub open spec fn bits_below_zero(b: u64) -> bool {
    !bits_is_nan(b) && bits_sign(b) && b & 0x7fff_ffff_ffff_ffffu64 != 0
}

/// Is the number within `[0, 1]`?
pub open spec fn bits_in_unit(b: u64) -> bool {
    !bits_is_nan(b) && ((bits_sign(b) && b & 0x7fff_ffff_ffff_ffffu64 == 0) || (!bits_sign(b)
        && b <= 0x3ff0_0000_0000_0000u64))
}

/// The messages for a float (bit pattern `bits`, shown as `text`) under key `name`.
pub open spec fn float_messages(name: Seq<char>, bits: u64, text: Seq<char>) -> Seq<
    (Severity, Seq<char>),
> {
    let lower = lowercase_of(name);
    let nan: Seq<(Severity, Seq<char>)> = if bits_is_nan(bits) {
        seq![(Severity::Error, "Value is NaN (not a number)"@)]
    } else {
        seq![]
    };
    let inf: Seq<(Severity, Seq<char>)> = if bits_is_infinite(bits) {
        seq![
            (
                Severity::Error,
                "Value is "@ + (if !bits_sign(bits) {
                    "+inf"@
                } else {
                    "-inf"@
                }) + " (infinite)"@,
            ),
        ]
    } else {
        seq![]
    };
    let non_negative: Seq<(Severity, Seq<char>)> = if (contains(lower, "timeout"@) || contains(
        lower,
        "rate"@,
    ) || contains(lower, "probability"@)) && bits_below_zero(bits) {
        seq![(Severity::Error, name + " must be non-negative, got "@ + text)]
    } else {
        seq![]
    };
    let unit: Seq<(Severity, Seq<char>)> = if (contains(lower, "ratio"@) || contains(
        lower,
        "probability"@,
    )) && !bits_is_nan(bits) && !bits_in_unit(bits) {
        seq![
            (
                Severity::Warning,
                name + " is a ratio/probability but value "@ + text + " is outside [0, 1]"@,
            ),
        ]
    } else {
        seq![]
    };
    nan + inf + non_negative + unit
}

/// Validate a float value (its bit pattern, and its text as it is displayed)
/// based on its key name.
pub fn validate_float(name: &str, bits: u64, text: &str, messages: &mut Vec<ValidationMessage>)
    ensures
        msgs_view(final(messages)@) == msgs_view(old(messages)@) + float_messages(
            name@,
            bits,
            text@,
        ),
{
    let ghost before = msgs_view(messages@);
    let is_nan = (bits >> 52u64) & 0x7ffu64 == 0x7ffu64 && bits & 0xf_ffff_ffff_ffffu64 != 0;
    let is_inf = (bits >> 52u64) & 0x7ffu64 == 0x7ffu64 && bits & 0xf_ffff_ffff_ffffu64 == 0;
    let sign = bits >> 63u64 == 1;
    let below_zero = !is_nan && sign && bits & 0x7fff_ffff_ffff_ffffu64 != 0;
    let in_unit = !is_nan && ((sign && bits & 0x7fff_ffff_ffff_ffffu64 == 0) || (!sign && bits
        <= 0x3ff0_0000_0000_0000u64));
    let ghost nan: Seq<(Severity, Seq<char>)> = seq![];
    if is_nan {
        push_msg(messages, Severity::Error, owned("Value is NaN (not a number)"));
        proof {
            nan = seq![(Severity::Error, "Value is NaN (not a number)"@)];
        }
    }
    let ghost inf: Seq<(Severity, Seq<char>)> = seq![];
    let ghost after_nan = msgs_view(messages@);
    if is_inf {
        let mut m = owned("Value is ");
        if !sign {
            push_str(&mut m, "+inf");
        } else {
            push_str(&mut m, "-inf");
        }
        push_str(&mut m, " (infinite)");
        push_msg(messages, Severity::Error, m);
        proof {
            inf = seq![
                (
                    Severity::Error,
                    "Value is "@ + (if !bits_sign(bits) {
                        "+inf"@
                    } else {
                        "-inf"@
                    }) + " (infinite)"@,
                ),
            ];
        }
    }
    proof {
        assert(msgs_view(messages@) =~= before + nan + inf);
    }
    let lower = to_lowercase(name);
    let l = lower.as_str();
    let ghost non_negative: Seq<(Severity, Seq<char>)> = seq![];
    if (str_contains(l, "timeout") || str_contains(l, "rate") || str_contains(l, "probability"))
        && below_zero {
        let mut m = owned(name);
        push_str(&mut m, " must be non-negative, got ");
        push_str(&mut m, text);
        push_msg(messages, Severity::Error, m);
        proof {
            non_negative = seq![(Severity::Error, name@ + " must be non-negative, got "@ + text@)];
        }
    }
    proof {
        assert(msgs_view(messages@) =~= before + nan + inf + non_negative);
    }
    let ghost unit: Seq<(Severity, Seq<char>)> = seq![];
    if (str_contains(l, "ratio") || str_contains(l, "probability")) && !is_nan && !in_unit {
        let mut m = owned(name);
        push_str(&mut m, " is a ratio/probability but value ");
        push_str(&mut m, text);
        push_str(&mut m, " is outside [0, 1]");
        push_msg(messages, Severity::Warning, m);
        proof {
            unit = seq![
                (
                    Severity::Warning,
                    name@ + " is a ratio/probability but value "@ + text@ + " is outside [0, 1]"@,
                ),
            ];
        }
    }
    proof {
        assert(msgs_view(messages@) =~= before + nan + inf + non_negative + unit);
        assert(float_messages(name@, bits, text@) =~= nan + inf + non_negative + unit);
    }
}

// ── dispatch ────────────────────────────────────────────────────────

/// The key name that a path ends in (empty for an index or the root).
pub open spec fn key_name(p: Seq<Seg>) -> Seq<char> {
    if p.len() == 0 {
        Seq::empty()
    } else {
        match p.last() {
            Seg::Key(k) => k,
            Seg::Index(_) => Seq::empty(),
        }
    }
}

/// The messages for `v` at path `p`; `is_ip` says whether a string value
/// reads as an IP address, `float_text` is how a float value is displayed.
pub open spec fn value_messages(p: Seq<Seg>, v: Val, is_ip: bool, float_text: Seq<char>) -> Seq<
    (Severity, Seq<char>),
> {
    match v {
        Val::Int(i) => int_messages(key_name(p), i),
        Val::Float(b) => float_messages(key_name(p), b, float_text),
        Val::Str(s) => string_messages(key_name(p), s, is_ip),
        _ => Seq::empty(),
    }
}

/// Run all applicable validators on `value` at the given `path`.
///
/// `is_ip` says whether a string value reads as an IPv4/IPv6 address and
/// `float_text` is how a float value is displayed; both are decided outside
/// the library (they rest on std's address parser and float formatting).
pub fn validate_value(path: &Path, value: &Value, is_ip: bool, float_text: &str) -> (r: Vec<
    ValidationMessage,
>)
    ensures
        msgs_view(r@) == value_messages(path_view(path@), value@, is_ip, float_text@),
{
    let mut messages: Vec<ValidationMessage> = Vec::new();
    let name: &str = if path.len() == 0 {
        ""
    } else {
        match &path[path.len() - 1] {
            PathSegment::Key(k) => k.as_str(),
            PathSegment::Index(_) => "",
        }
    };
    proof {
        reveal_strlit("");
        assert(msgs_view(messages@) =~= Seq::<(Severity, Seq<char>)>::empty());
        if path@.len() > 0 {
            assert(path_view(path@).last() == path@[path@.len() - 1]@);
        }
        assert(name@ == key_name(path_view(path@)));
    }
    match value {
        Value::Int(i) => validate_int(name, *i, &mut messages),
        Value::Float(b) => validate_float(name, *b, float_text, &mut messages),
        Value::String(s) => validate_string(name, s.as_str(), is_ip, &mut messages),
        _ => {},
    }
    proof {
        assert(msgs_view(messages@) =~= value_messages(path_view(path@), value@, is_ip, float_text@));
    }
    messages
}

// ── laws ────────────────────────────────────────────────────────────

/// A timeout, TTL or lifetime (by its key, in any case) that is not positive
/// gets an error naming the key and the value.
pub proof fn law_not_positive_is_an_error(name: Seq<char>, value: i64)
    requires
        contains(lowercase_of(name), "timeout"@) || contains(lowercase_of(name), "ttl"@)
            || contains(lowercase_of(name), "lifetime"@),
        value <= 0,
    ensures
        int_messages(name, value).contains(
            (Severity::Error, name + " must be positive, got "@ + int_text(value as int)),
        ),
{
    let m = int_messages(name, value);
    let e = (Severity::Error, name + " must be positive, got "@ + int_text(value as int));
    let port_len: int = if contains(lowercase_of(name), "port"@) && (!(1 <= value <= 65535) || value < 1024) { 1 } else { 0 };
    assert(m[port_len] == e);
}

/// An integer gets a message only for these reasons: its key names a port,
/// or names a timeout, TTL or lifetime and the value is not positive, or
/// names a count, limit, size, maximum or length and the value is negative.
pub proof fn law_int_messages_have_reasons(name: Seq<char>, value: i64)
    ensures
        !contains(lowercase_of(name), "port"@)
            && !((contains(lowercase_of(name), "timeout"@) || contains(lowercase_of(name), "ttl"@)
            || contains(lowercase_of(name), "lifetime"@)) && value <= 0)
            && !((contains(lowercase_of(name), "count"@) || contains(lowercase_of(name), "limit"@)
            || contains(lowercase_of(name), "size"@) || contains(lowercase_of(name), "max"@)
            || contains(lowercase_of(name), "length"@)) && value < 0)
            ==> int_messages(name, value).len() == 0,
{
}

/// A count, limit, size, maximum or length (by its key) that is negative
/// gets an error naming the key and the value.
pub proof fn law_negative_count_is_an_error(name: Seq<char>, value: i64)
    requires
        contains(lowercase_of(name), "count"@) || contains(lowercase_of(name), "limit"@)
            || contains(lowercase_of(name), "size"@) || contains(lowercase_of(name), "max"@)
            || contains(lowercase_of(name), "length"@),
        value < 0,
    ensures
        int_messages(name, value).contains(
            (Severity::Error, name + " must be non-negative, got "@ + int_text(value as int)),
        ),
{
    let m = int_messages(name, value);
    let e = (Severity::Error, name + " must be non-negative, got "@ + int_text(value as int));
    assert(m[m.len() - 1] == e);
}

/// A port (by its key) outside 1..=65535 gets an error, and one below 1024
/// a warning; a port in 1024..=65535 gets no port message.
pub proof fn law_port_range(name: Seq<char>, value: i64)
    requires
        contains(lowercase_of(name), "port"@),
    ensures
        !(1 <= value <= 65535) ==> int_messages(name, value)[0] == (
            Severity::Error,
            "Port must be between 1 and 65535, got "@ + int_text(value as int),
        ),
        1 <= value < 1024 ==> int_messages(name, value)[0] == (
            Severity::Warning,
            "Port "@ + int_text(value as int) + " is a well-known port (0-1023); may require root"@,
        ),
        1024 <= value <= 65535 ==> forall|i: int|
            0 <= i < int_messages(name, value).len() ==> #[trigger] int_messages(name, value)[i].0 == Severity::Error
                && !(int_messages(name, value)[i].1 =~= "Port must be between 1 and 65535, got "@ + int_text(value as int)),
{
    reveal_strlit("Port must be between 1 and 65535, got ");
    reveal_strlit(" must be positive, got ");
    reveal_strlit(" must be non-negative, got ");
    if 1024 <= value <= 65535 {
        let m = int_messages(name, value);
        assert forall|i: int| 0 <= i < m.len() implies #[trigger] m[i].0 == Severity::Error
            && !(m[i].1 =~= "Port must be between 1 and 65535, got "@ + int_text(value as int)) by {
            if m[i].1 =~= "Port must be between 1 and 65535, got "@ + int_text(value as int) {
                assert(m[i].1.len() > 0);
            }
        }
    }
}

/// An empty string gets a warning; a URL that is only a scheme gets an
/// error that it has no host; a string under an address-like key that has a
/// `.` or `:` and does not read as an IP address gets a warning.
pub proof fn law_string_checks(name: Seq<char>, value: Seq<char>, is_ip: bool)
    ensures
        value.len() == 0 ==> string_messages(name, value, is_ip).len() > 0
            && string_messages(name, value, is_ip).last() == (Severity::Warning, "Value is an empty string"@),
        (value == "http://"@ || value == "https://"@) ==> string_messages(name, value, is_ip)[0] == (
            Severity::Error,
            "URL '"@ + value + "' has no host"@,
        ),
        (contains(lowercase_of(name), "ip"@) || contains(lowercase_of(name), "address"@)
            || lowercase_of(name) == "host"@) && (has_char(value, '.') || has_char(value, ':'))
            && !is_ip ==> string_messages(name, value, is_ip).contains(
            (Severity::Warning, "'"@ + value + "' does not appear to be a valid IP address"@),
        ),
{
    reveal_strlit("http://");
    reveal_strlit("https://");
    let m = string_messages(name, value, is_ip);
    if value == "http://"@ {
        assert(value.subrange(0, 7) =~= value);
        assert(value.subrange(7, value.len() as int) =~= Seq::<char>::empty());
    }
    if value == "https://"@ {
        assert(value.subrange(0, 8) =~= value);
        assert(value[4] == 's');
        assert(!(value.subrange(0, 7) =~= "http://"@)) by {
            assert(value.subrange(0, 7)[4] == 's');
        }
        assert(value.subrange(8, value.len() as int) =~= Seq::<char>::empty());
    }
    let lower = lowercase_of(name);
    if (contains(lower, "ip"@) || contains(lower, "address"@) || lower == "host"@)
        && (has_char(value, '.') || has_char(value, ':')) && !is_ip {
        let http = starts_with(value, "http://"@);
        let https = starts_with(value, "https://"@);
        let url_len: int = if contains(lower, "url"@) || contains(lower, "uri"@)
            || contains(lower, "endpoint"@) || contains(lower, "host"@) || http || https {
            if !http && !https {
                if contains(value, "://"@) { 1 } else { 0 }
            } else {
                let rest = if http { value.subrange(7, value.len() as int) } else { value.subrange(8, value.len() as int) };
                if rest.len() == 0 { 1 } else if !has_char(rest, '.') && !has_char(rest, ':') && rest != "localhost"@ { 1 } else { 0 }
            }
        } else {
            0
        };
        assert(m[url_len] == (Severity::Warning, "'"@ + value + "' does not appear to be a valid IP address"@));
    }
}

/// A NaN (by its bits: all exponent bits set, a nonzero fraction) gets an
/// error first; an infinity (no fraction) gets an error naming its sign; a
/// negative number under a timeout, rate or probability key gets an error;
/// a number above 1 under a ratio or probability key gets a warning.
pub proof fn law_float_checks(name: Seq<char>, bits: u64, text: Seq<char>)
    ensures
        ((bits >> 52u64) & 0x7ffu64 == 0x7ffu64 && bits & 0xf_ffff_ffff_ffffu64 != 0) ==> float_messages(name, bits, text)[0]
            == (Severity::Error, "Value is NaN (not a number)"@),
        ((bits >> 52u64) & 0x7ffu64 == 0x7ffu64 && bits & 0xf_ffff_ffff_ffffu64 == 0 && bits >> 63u64 == 0)
            ==> float_messages(name, bits, text)[0] == (Severity::Error, "Value is "@ + "+inf"@ + " (infinite)"@),
        ((bits >> 52u64) & 0x7ffu64 == 0x7ffu64 && bits & 0xf_ffff_ffff_ffffu64 == 0 && bits >> 63u64 == 1)
            ==> float_messages(name, bits, text)[0] == (Severity::Error, "Value is "@ + "-inf"@ + " (infinite)"@),
        ((contains(lowercase_of(name), "timeout"@) || contains(lowercase_of(name), "rate"@)
            || contains(lowercase_of(name), "probability"@)) && !((bits >> 52u64) & 0x7ffu64 == 0x7ffu64
            && bits & 0xf_ffff_ffff_ffffu64 != 0) && bits >> 63u64 == 1 && bits & 0x7fff_ffff_ffff_ffffu64 != 0)
            ==> float_messages(name, bits, text).contains((Severity::Error, name + " must be non-negative, got "@ + text)),
        ((contains(lowercase_of(name), "ratio"@) || contains(lowercase_of(name), "probability"@))
            && !((bits >> 52u64) & 0x7ffu64 == 0x7ffu64 && bits & 0xf_ffff_ffff_ffffu64 != 0) && bits >> 63u64 == 0
            && bits > 0x3ff0_0000_0000_0000u64) ==> float_messages(name, bits, text).len() > 0
            && float_messages(name, bits, text).last() == (
            Severity::Warning,
            name + " is a ratio/probability but value "@ + text + " is outside [0, 1]"@,
        ),
{
    let m = float_messages(name, bits, text);
    let lower = lowercase_of(name);
    if (contains(lower, "timeout"@) || contains(lower, "rate"@) || contains(lower, "probability"@))
        && bits_below_zero(bits) {
        let k: int = (if bits_is_nan(bits) { 1int } else { 0 }) + (if bits_is_infinite(bits) { 1int } else { 0 });
        assert(m[k] == (Severity::Error, name + " must be non-negative, got "@ + text));
    }
}

/// Only numbers and strings are checked: null, booleans, objects and arrays
/// get no message.
pub proof fn law_only_numbers_and_strings(p: Seq<Seg>, v: Val, is_ip: bool, text: Seq<char>)
    requires
        !(v is Int) && !(v is Float) && !(v is Str),
    ensures
        value_messages(p, v, is_ip, text) == Seq::<(Severity, Seq<char>)>::empty(),
{
}

} // verus!
