use mdlive::config::{config_path_under, default_config_path, AppConfig, MAX_RECENT};

#[test]
fn test_default_config() {
    let config = AppConfig::default();
    assert!(config.recent.is_empty());
}

#[test]
fn test_add_recent_basic() {
    let mut config = AppConfig::default();
    config.add_recent("/tmp/foo".into(), "directory".into());
    assert_eq!(config.recent.len(), 1);
    assert_eq!(config.recent[0].path, "/tmp/foo");
    assert_eq!(config.recent[0].mode, "directory");
}

#[test]
fn test_add_recent_deduplicates() {
    let mut config = AppConfig::default();
    config.add_recent("/tmp/foo".into(), "directory".into());
    config.add_recent("/tmp/bar".into(), "file".into());
    config.add_recent("/tmp/foo".into(), "directory".into());
    assert_eq!(config.recent.len(), 2);
    assert_eq!(config.recent[0].path, "/tmp/foo");
    assert_eq!(config.recent[1].path, "/tmp/bar");
}

#[test]
fn test_add_recent_fifo_max_15() {
    let mut config = AppConfig::default();
    for i in 0..20 {
        config.add_recent(format!("/tmp/dir{i}"), "directory".into());
    }
    assert_eq!(config.recent.len(), MAX_RECENT);
    assert_eq!(config.recent[0].path, "/tmp/dir19");
    assert_eq!(config.recent[MAX_RECENT - 1].path, "/tmp/dir5");
}

#[test]
fn add_recent_at_records_time_and_mode() {
    let mut config = AppConfig::load_from("/cfg.toml".to_string(), None);
    config.add_recent_at("/a".to_string(), "file".to_string(), 42);
    assert_eq!(config.recent[0].last_opened, 42);
    assert_eq!(config.recent[0].mode, "file");
    assert_eq!(config.file_path, "/cfg.toml");
}

#[test]
fn reopening_moves_to_front_with_later_time() {
    let mut once = AppConfig::load_from("/c".to_string(), None);
    once.add_recent_at("/x".to_string(), "file".to_string(), 1);
    once.add_recent_at("/y".to_string(), "file".to_string(), 2);
    let mut twice = once.clone();
    once.add_recent_at("/x".to_string(), "directory".to_string(), 9);
    twice.add_recent_at("/x".to_string(), "file".to_string(), 5);
    twice.add_recent_at("/x".to_string(), "directory".to_string(), 9);
    let a: Vec<(String, String, u64)> = once.recent.iter().map(|r| (r.path.clone(), r.mode.clone(), r.last_opened)).collect();
    let b: Vec<(String, String, u64)> = twice.recent.iter().map(|r| (r.path.clone(), r.mode.clone(), r.last_opened)).collect();
    assert_eq!(a, b);
    assert_eq!(a[0], ("/x".to_string(), "directory".to_string(), 9));
    assert_eq!(a[1].0, "/y");
    assert_eq!(a.len(), 2);
}

#[test]
fn list_stays_unique_and_bounded() {
    let mut config = AppConfig::load_from("/c".to_string(), None);
    for i in 0..40 {
        config.add_recent_at(format!("/p{}", i % 7), "file".to_string(), i);
    }
    assert_eq!(config.recent.len(), 7);
    let mut paths: Vec<String> = config.recent.iter().map(|r| r.path.clone()).collect();
    assert_eq!(paths[0], "/p4");
    paths.sort();
    paths.dedup();
    assert_eq!(paths.len(), 7);
}

#[test]
fn load_from_keeps_parsed_list_or_starts_empty() {
    let mut parsed = AppConfig::load_from("/other".to_string(), None);
    parsed.add_recent_at("/w".to_string(), "directory".to_string(), 3);
    let loaded = AppConfig::load_from("/mine.toml".to_string(), Some(parsed));
    assert_eq!(loaded.file_path, "/mine.toml");
    assert_eq!(loaded.recent.len(), 1);
    assert_eq!(loaded.recent[0].path, "/w");
    let empty = AppConfig::load_from("/mine.toml".to_string(), None);
    assert!(empty.recent.is_empty());
}

#[test]
fn config_path_below_home_or_current_dir() {
    assert_eq!(config_path_under(Some("/home/u".to_string())), "/home/u/.config/mdlive/config.toml");
    assert_eq!(config_path_under(Some("/home/u/".to_string())), "/home/u/.config/mdlive/config.toml");
    assert_eq!(config_path_under(None), "./.config/mdlive/config.toml");
    assert!(default_config_path().ends_with("/.config/mdlive/config.toml"));
    assert!(AppConfig::load(None).file_path.ends_with(".config/mdlive/config.toml"));
}
