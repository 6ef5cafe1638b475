use clipboard_manager::config::{
    autostart_change, load_config, AppConfig, AppState, ConfigFile,
};

fn config(path: &str, days: u32) -> AppConfig {
    AppConfig {
        storage_path: path.to_string(),
        retention_days: days,
        auto_start: true,
        pending_cleanup_dir: Some("C:\\gone".to_string()),
    }
}

#[test]
fn defaults() {
    let c = AppConfig::default();
    assert_eq!(c.storage_path, "");
    assert_eq!(c.retention_days, 7);
    assert!(!c.auto_start);
    assert_eq!(c.pending_cleanup_dir, None);
}

#[test]
fn missing_settings_are_made() {
    let (path, c, create) = load_config("C:\\cfg", ConfigFile::Missing);
    assert_eq!(path, "C:\\cfg\\config.json");
    assert_eq!(c.storage_path, "C:\\cfg");
    assert_eq!(c.retention_days, 7);
    assert_eq!(create.unwrap().storage_path, "C:\\cfg");
}

#[test]
fn broken_or_blank_settings_fall_back() {
    let (_, c, create) = load_config("C:\\cfg", ConfigFile::Broken);
    assert_eq!(c.storage_path, "C:\\cfg");
    assert!(create.is_none());
    let (_, c, create) = load_config("C:\\cfg", ConfigFile::Read(config(" \t", 3)));
    assert_eq!(c.storage_path, "C:\\cfg");
    assert_eq!(c.retention_days, 7);
    assert!(create.is_none());
}

#[test]
fn good_settings_are_taken() {
    let (_, c, create) = load_config("C:\\cfg", ConfigFile::Read(config("D:\\d", 3)));
    assert_eq!(c.storage_path, "D:\\d");
    assert_eq!(c.retention_days, 3);
    assert!(c.auto_start);
    assert!(create.is_none());
}

#[test]
fn autostart_is_changed_only_where_needed() {
    assert_eq!(autostart_change(true, Some(true)), None);
    assert_eq!(autostart_change(false, Some(false)), None);
    assert_eq!(autostart_change(true, Some(false)), Some(true));
    assert_eq!(autostart_change(false, Some(true)), Some(false));
    assert_eq!(autostart_change(false, None), Some(false));
}

#[test]
fn state_is_shared() {
    let mut s = AppState::new("C:\\cfg\\config.json".to_string(), config("D:\\d", 0));
    assert!(s.config.retention_forever());
    s.mark_internal_copy(vec![4, 5]);
    assert_eq!(s.take_internal_copy(), vec![4, 5]);
    assert_eq!(s.take_internal_copy(), Vec::<i64>::new());
    assert_eq!(s.take_pending_cleanup(), Some("C:\\gone".to_string()));
    assert_eq!(s.take_pending_cleanup(), None);
    let mut c = s.get_settings();
    c.retention_days = 9;
    s.save_settings(c);
    assert!(s.config.auto_start);
    assert_eq!(s.config.retention_days, 9);
    assert!(!s.config.retention_forever());
    assert_eq!(s.config_path, "C:\\cfg\\config.json");
}
