use smctl::config::SmctlConfig;
use smctl::gate::GateConfig;

#[test]
fn test_default_config() {
    let config = SmctlConfig::default();
    assert!(config.user.editor.is_none());
    assert!(!config.user.no_color);
}

#[test]
fn test_get_set_config() {
    let mut config = SmctlConfig::default();
    config.set("user.editor", "vim").unwrap();
    assert_eq!(config.get("user.editor"), Some("vim".to_string()));
}

#[test]
fn test_set_unknown_key() {
    let mut config = SmctlConfig::default();
    assert!(config.set("unknown.key", "value").is_err());
}

#[test]
fn test_no_color_round_trip() {
    let mut config = SmctlConfig::default();
    assert_eq!(config.get("user.no_color"), Some("false".to_string()));
    config.set("user.no_color", "true").unwrap();
    assert!(config.user.no_color);
    assert_eq!(config.get("user.no_color"), Some("true".to_string()));
    assert!(config.set("user.no_color", "maybe").is_err());
}

#[test]
fn test_default_gate_config() {
    let config = GateConfig::default();
    assert_eq!(config.base_url, "http://localhost:8080");
}
