use redisrs::config::{persistence_mode, Config, Persistence};

#[test]
fn default_config() {
    let c = Config::default();
    assert_eq!(c.password, None);
    assert_eq!(c.port, Some(6379));
    assert_eq!(c.snapshot_interval, Some(300));
    assert_eq!(c.aof_path, Some("appendonly.aof".to_string()));
}

#[test]
fn environment_settings_override_the_file() {
    let c = Config::default().with_env(Some("7000".to_string()), Some("30".to_string()), Some("log.aof".to_string()));
    assert_eq!(c.port, Some(7000));
    assert_eq!(c.snapshot_interval, Some(30));
    assert_eq!(c.aof_path, Some("log.aof".to_string()));
    assert_eq!(c.password, None);
}

#[test]
fn bad_environment_settings_are_ignored() {
    let c = Config::default().with_env(Some("70000".to_string()), Some("soon".to_string()), None);
    assert_eq!(c.port, Some(6379));
    assert_eq!(c.snapshot_interval, Some(300));
    assert_eq!(c.aof_path, Some("appendonly.aof".to_string()));
    let d = Config::default().with_env(None, None, None);
    assert_eq!(d.port, Some(6379));
}

#[test]
fn persistence_modes() {
    assert!(matches!(persistence_mode(None), Some(Persistence::Off)));
    assert!(matches!(persistence_mode(Some("none".to_string())), Some(Persistence::Off)));
    assert!(matches!(persistence_mode(Some("rdb".to_string())), Some(Persistence::Rdb)));
    assert!(matches!(persistence_mode(Some("aof".to_string())), Some(Persistence::Aof)));
    assert!(persistence_mode(Some("disk".to_string())).is_none());
}
