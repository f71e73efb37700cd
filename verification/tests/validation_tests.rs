use confui::tree::{Path, PathSegment, Value};
use confui::validation::{validate_value, Severity, ValidationMessage};

fn path(keys: &[&str]) -> Path {
    keys.iter().map(|k| PathSegment::from(*k)).collect()
}

/// Validate a value that is not a string address candidate.
fn check(keys: &[&str], value: &Value) -> Vec<ValidationMessage> {
    check_ip(keys, value, false)
}

/// Validate with the outcome of the address parse given.
fn check_ip(keys: &[&str], value: &Value, is_ip: bool) -> Vec<ValidationMessage> {
    let text = match value {
        Value::Float(b) => f64::from_bits(*b).to_string(),
        _ => String::new(),
    };
    validate_value(&path(keys), value, is_ip, &text)
}

fn has(msgs: &[ValidationMessage], sev: Severity) -> bool {
    msgs.iter().any(|m| m.severity == sev)
}

fn float(f: f64) -> Value {
    Value::Float(f.to_bits())
}

#[test]
fn validate_port_valid() {
    let msgs = check(&["server", "port"], &Value::Int(8080));
    assert!(msgs.is_empty());
}

#[test]
fn validate_port_out_of_range() {
    let msgs = check(&["server", "port"], &Value::Int(70000));
    assert!(has(&msgs, Severity::Error));
}

#[test]
fn validate_port_well_known_warning() {
    let msgs = check(&["server", "port"], &Value::Int(80));
    assert!(has(&msgs, Severity::Warning));
}

#[test]
fn validate_port_negative() {
    let msgs = check(&["server", "port"], &Value::Int(-1));
    assert!(has(&msgs, Severity::Error));
}

#[test]
fn validate_timeout_positive() {
    let msgs = check(&["connection", "timeout"], &Value::Int(30));
    assert!(msgs.is_empty());
}

#[test]
fn validate_timeout_zero() {
    let msgs = check(&["connection", "timeout"], &Value::Int(0));
    assert!(has(&msgs, Severity::Error));
}

#[test]
fn validate_count_negative() {
    let msgs = check(&["max_connections"], &Value::Int(-5));
    assert!(has(&msgs, Severity::Error));
}

#[test]
fn validate_count_positive() {
    let msgs = check(&["max_connections"], &Value::Int(100));
    assert!(msgs.is_empty());
}

#[test]
fn validate_nan() {
    let msgs = check(&["ratio"], &float(f64::NAN));
    assert!(has(&msgs, Severity::Error));
}

#[test]
fn validate_infinite() {
    let msgs = check(&["value"], &float(f64::INFINITY));
    assert!(has(&msgs, Severity::Error));
}

#[test]
fn validate_ratio_out_of_range() {
    let msgs = check(&["threshold", "ratio"], &float(1.5));
    assert!(has(&msgs, Severity::Warning));
}

#[test]
fn validate_url_valid() {
    let msgs = check(&["api", "url"], &Value::string("https://example.com/api"));
    assert!(msgs.is_empty());
}

#[test]
fn validate_url_empty_host() {
    let msgs = check(&["url"], &Value::string("https://"));
    assert!(has(&msgs, Severity::Error));
}

#[test]
fn validate_ip_valid() {
    let msgs = check_ip(&["server", "host"], &Value::string("192.168.1.1"), true);
    assert!(msgs.is_empty());
}

#[test]
fn validate_ip_invalid() {
    let msgs = check_ip(&["server", "host"], &Value::string("999.999.999.999"), false);
    assert!(has(&msgs, Severity::Warning));
}

#[test]
fn validate_ipv6_valid() {
    let msgs = check_ip(&["ip_address"], &Value::string("::1"), true);
    assert!(msgs.is_empty());
}

#[test]
fn validate_non_port_not_validated() {
    let msgs = check(&["name"], &Value::Int(42));
    assert!(msgs.is_empty());
}

#[test]
fn validate_empty_string() {
    let msgs = check(&["label"], &Value::string(""));
    assert!(has(&msgs, Severity::Warning));
}

#[test]
fn validate_null_no_errors() {
    let msgs = check(&["value"], &Value::Null);
    assert!(msgs.is_empty());
}

#[test]
fn validate_bool_no_errors() {
    let msgs = check(&["enabled"], &Value::Bool(true));
    assert!(msgs.is_empty());
}

// ── exact messages ──────────────────────────────────────────────────

#[test]
fn port_messages_are_exact() {
    let msgs = check(&["port"], &Value::Int(70000));
    assert_eq!(msgs.len(), 1);
    assert_eq!(msgs[0].message, "Port must be between 1 and 65535, got 70000");
    let msgs = check(&["Port"], &Value::Int(22));
    assert_eq!(msgs[0].severity, Severity::Warning);
    assert_eq!(msgs[0].message, "Port 22 is a well-known port (0-1023); may require root");
}

#[test]
fn int_rules_accumulate() {
    let msgs = check(&["max_timeout"], &Value::Int(-3));
    assert_eq!(msgs.len(), 2);
    assert_eq!(msgs[0].message, "max_timeout must be positive, got -3");
    assert_eq!(msgs[1].message, "max_timeout must be non-negative, got -3");
}

#[test]
fn extreme_integers_are_written_in_full() {
    let msgs = check(&["size"], &Value::Int(i64::MIN));
    assert_eq!(msgs[0].message, format!("size must be non-negative, got {}", i64::MIN));
}

#[test]
fn float_messages() {
    let msgs = check(&["x"], &float(f64::NEG_INFINITY));
    assert_eq!(msgs.len(), 1);
    assert_eq!(msgs[0].message, "Value is -inf (infinite)");
    let msgs = check(&["x"], &float(f64::NAN));
    assert_eq!(msgs[0].message, "Value is NaN (not a number)");
    let msgs = check(&["error_rate"], &float(-0.5));
    assert_eq!(msgs.len(), 1);
    assert_eq!(msgs[0].message, "error_rate must be non-negative, got -0.5");
    let msgs = check(&["probability"], &float(-0.5));
    assert_eq!(msgs.len(), 2);
    assert_eq!(msgs[1].severity, Severity::Warning);
    assert_eq!(
        msgs[1].message,
        "probability is a ratio/probability but value -0.5 is outside [0, 1]"
    );
    assert!(check(&["ratio"], &float(1.0)).is_empty());
    assert!(check(&["ratio"], &float(-0.0)).is_empty());
}

#[test]
fn url_rules() {
    let msgs = check(&["endpoint"], &Value::string("ftp://x.org"));
    assert_eq!(msgs.len(), 1);
    assert_eq!(msgs[0].message, "Unrecognized URI scheme in 'ftp://x.org'");
    let msgs = check(&["any"], &Value::string("http://intranet"));
    assert_eq!(msgs[0].severity, Severity::Warning);
    assert_eq!(msgs[0].message, "URL 'http://intranet' does not look like a valid host");
    assert!(check(&["any"], &Value::string("http://localhost")).is_empty());
    assert!(check(&["any"], &Value::string("http://host:80")).is_empty());
    let msgs = check(&["x"], &Value::string("http://"));
    assert_eq!(msgs[0].message, "URL 'http://' has no host");
}

#[test]
fn address_rules() {
    let msgs = check_ip(&["bind_address"], &Value::string("1.2.3"), false);
    assert_eq!(msgs.len(), 1);
    assert_eq!(msgs[0].message, "'1.2.3' does not appear to be a valid IP address");
    assert!(check_ip(&["bind_address"], &Value::string("localhost"), false).is_empty());
}

#[test]
fn index_segment_has_no_name() {
    let p: Path = vec![PathSegment::from("ports"), PathSegment::from(0usize)];
    assert!(validate_value(&p, &Value::Int(0), false, "").is_empty());
}
