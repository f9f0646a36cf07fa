use riverbed::topic;

#[test]
fn exact_match() {
    assert!(topic::matches("logs.error", "logs.error"));
    assert!(!topic::matches("logs.error", "logs.info"));
}

#[test]
fn wildcard_matches_one_segment() {
    assert!(topic::matches("logs.*", "logs.error"));
    assert!(topic::matches("logs.*", "logs.info"));
    assert!(!topic::matches("logs.*", "logs"));
    assert!(!topic::matches("logs.*", "logs.error.detail"));
}

#[test]
fn wildcard_can_be_any_segment_position() {
    assert!(topic::matches("*.error", "logs.error"));
    assert!(topic::matches("*.error", "app.error"));
    assert!(!topic::matches("*.error", "logs.info"));
}

#[test]
fn empty_inputs_never_match() {
    assert!(!topic::matches("", "logs.error"));
    assert!(!topic::matches("logs.error", ""));
}

#[test]
fn empty_segments_are_compared_like_any_other() {
    assert!(topic::matches("a..b", "a..b"));
    assert!(!topic::matches("a..b", "a.b"));
    assert!(topic::matches("a.*.b", "a..b"));
    assert!(topic::matches(".", "."));
    assert!(!topic::matches("*", "."));
    assert!(topic::matches("*.*", "."));
}

#[test]
fn star_inside_a_segment_is_literal() {
    assert!(!topic::matches("lo*.error", "logs.error"));
    assert!(topic::matches("lo*.error", "lo*.error"));
    assert!(!topic::matches("**", "x"));
}

#[test]
fn name_matches_itself() {
    for name in ["a", "logs.error", "a.b.c.d", "x..y", "*", "*.x"] {
        assert!(topic::matches(name, name));
    }
}

#[test]
fn wildcard_matches_any_replacement_segment() {
    for seg in ["a", "error", "ünïcode", "x y"] {
        let t = format!("logs.{}.detail", seg);
        assert!(topic::matches("logs.*.detail", &t));
    }
}

#[test]
fn exact_pattern_matches_only_itself() {
    assert!(topic::matches("orders.created", "orders.created"));
    assert!(!topic::matches("orders.created", "orders.create"));
    assert!(!topic::matches("orders.created", "orders.created.x"));
    assert!(!topic::matches("orders", "orders."));
}

#[test]
fn non_ascii_names_match() {
    assert!(topic::matches("日志.*", "日志.错误"));
    assert!(!topic::matches("日志.*", "日志"));
}
