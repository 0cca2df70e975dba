use conflict_scanner::config::AppConfig;

#[test]
fn default_config_ignores_nothing() {
    let cfg = AppConfig::default();
    assert_eq!(cfg.ignored.entries.len(), 0);
}
