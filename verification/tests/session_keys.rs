use zeroclaw::gateway::session_keys::{SessionKey, SessionScope};

#[test]
fn test_parse_main() {
    let key = SessionKey::parse("zcs_main_abc123def456").unwrap();
    assert_eq!(key.scope, SessionScope::Main);
    assert!(key.allows("chat"));
    assert!(key.allows("anything"));
}

#[test]
fn test_parse_sender() {
    let key = SessionKey::parse("zcs_sender_telegram123_abc456").unwrap();
    assert_eq!(key.scope, SessionScope::Sender("telegram123".to_string()));
    assert!(key.allows("chat"));
    assert!(!key.allows("tool_execute"));
}

#[test]
fn test_parse_cron() {
    let key = SessionKey::parse("zcs_cron_random789").unwrap();
    assert_eq!(key.scope, SessionScope::Cron);
    assert!(key.allows("chat"));
    assert!(key.allows("tool_execute"));
    assert!(!key.allows("admin"));
}

#[test]
fn test_parse_subagent() {
    let key = SessionKey::parse("zcs_subagent_xyz").unwrap();
    assert_eq!(key.scope, SessionScope::SubAgent);
}

#[test]
fn test_invalid_prefix() {
    assert!(SessionKey::parse("zc_main_abc").is_none());
    assert!(SessionKey::parse("").is_none());
    assert!(SessionKey::parse("zcs_unknown_abc").is_none());
}

#[test]
fn parse_trims_surrounding_whitespace() {
    let key = SessionKey::parse(" \t zcs_cron_abc \n").unwrap();
    assert_eq!(key.scope, SessionScope::Cron);
    assert_eq!(key.raw, "zcs_cron_abc");
    let wide = SessionKey::parse("\u{3000}zcs_main_x\u{2028}").unwrap();
    assert_eq!(wide.raw, "zcs_main_x");
}

#[test]
fn parse_raw_reparses_to_same_key() {
    let key = SessionKey::parse("  zcs_sender_abc_def  ").unwrap();
    let again = SessionKey::parse(&key.raw).unwrap();
    assert_eq!(again.scope, key.scope);
    assert_eq!(again.raw, key.raw);
}

#[test]
fn parse_sender_needs_separator_after_id() {
    assert!(SessionKey::parse("zcs_sender_telegram").is_none());
    let empty_id = SessionKey::parse("zcs_sender__rand").unwrap();
    assert_eq!(empty_id.scope, SessionScope::Sender(String::new()));
    let first = SessionKey::parse("zcs_sender_a_b_c").unwrap();
    assert_eq!(first.scope, SessionScope::Sender("a".to_string()));
    let unicode = SessionKey::parse("zcs_sender_tél_x").unwrap();
    assert_eq!(unicode.scope, SessionScope::Sender("tél".to_string()));
}

#[test]
fn parse_scope_needs_trailing_underscore() {
    assert!(SessionKey::parse("zcs_main").is_none());
    assert!(SessionKey::parse("zcs_cron").is_none());
    assert!(SessionKey::parse("zcs_subagent").is_none());
    assert!(SessionKey::parse("zcs_").is_none());
    assert!(SessionKey::parse("   ").is_none());
    assert!(SessionKey::parse("ZCS_main_abc").is_none());
    let main_empty = SessionKey::parse("zcs_main_").unwrap();
    assert_eq!(main_empty.scope, SessionScope::Main);
}

#[test]
fn main_prefix_takes_precedence() {
    let key = SessionKey::parse("zcs_main_sender_x_y").unwrap();
    assert_eq!(key.scope, SessionScope::Main);
    assert_eq!(key.raw, "zcs_main_sender_x_y");
}

#[test]
fn allows_per_scope() {
    let sender = SessionKey::parse("zcs_sender_id_r").unwrap();
    let cron = SessionKey::parse("zcs_cron_r").unwrap();
    let sub = SessionKey::parse("zcs_subagent_r").unwrap();
    let main = SessionKey::parse("zcs_main_r").unwrap();
    for op in ["chat", "memory_read"] {
        assert!(sender.allows(op) && cron.allows(op) && sub.allows(op) && main.allows(op));
    }
    assert!(sender.allows("status"));
    assert!(!cron.allows("status"));
    assert!(!sub.allows("status"));
    assert!(cron.allows("memory_write"));
    assert!(!sub.allows("memory_write"));
    assert!(!sender.allows("memory_write"));
    assert!(sub.allows("tool_execute"));
    assert!(!sender.allows("Chat"));
    assert!(!cron.allows("chat "));
    assert!(!sub.allows(""));
    assert!(main.allows(""));
}
