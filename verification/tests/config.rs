use rem::config::{normalize_root, rem_home, AppConfig, ConfigStore, ProfileConfig, StorageMode};

fn profile(name: &str, root: &str, storage: StorageMode) -> ProfileConfig {
    ProfileConfig { name: name.to_string(), root: root.to_string(), storage }
}

#[test]
fn upsert_profile_replaces_by_name() {
    let mut config = AppConfig::with_editor(None);
    config.upsert_profile(profile("default", "/tmp/a", StorageMode::Local));
    config.upsert_profile(profile("default", "/tmp/b", StorageMode::Git));

    assert_eq!(config.profiles.len(), 1);
    assert_eq!(config.profiles[0].root, "/tmp/b");
    assert_eq!(config.profiles[0].storage, StorageMode::Git);
}

#[test]
fn normalize_root_expands_home_tilde() {
    assert_eq!(
        normalize_root("~/rem-test".to_string(), Some("/home/ada".to_string()), "/work"),
        "/home/ada/rem-test"
    );
}

#[test]
fn normalize_root_completes_relative_paths() {
    let home = Some("/home/ada".to_string());
    assert_eq!(normalize_root("~".to_string(), home.clone(), "/work"), "/home/ada");
    assert_eq!(normalize_root("vault".to_string(), home.clone(), "/work"), "/work/vault");
    assert_eq!(normalize_root("/vault".to_string(), home, "/work"), "/vault");
}

#[test]
fn new_profiles_are_kept_sorted_by_name() {
    let mut config = AppConfig::with_editor(None);
    config.upsert_profile(profile("work", "/w", StorageMode::Git));
    config.upsert_profile(profile("home", "/h", StorageMode::Obsidian));
    let names: Vec<&str> = config.profiles.iter().map(|profile| profile.name.as_str()).collect();
    assert_eq!(names, ["home", "work"]);
    assert_eq!(config.profile("work").unwrap().root, "/w");
}

#[test]
fn unknown_profiles_are_reported() {
    let config = AppConfig::with_editor(Some("vim".to_string()));
    assert_eq!(config.active_profile, "default");
    assert_eq!(config.default_search, "auto");
    assert_eq!(
        config.active_profile().unwrap_err().message(),
        "profile \"default\" is not configured"
    );
}

#[test]
fn storage_modes_are_read_from_their_labels() {
    for mode in [StorageMode::Local, StorageMode::Obsidian, StorageMode::Git] {
        assert_eq!(StorageMode::parse_config_value(mode.label()).unwrap(), mode);
    }
    assert_eq!(
        StorageMode::parse_config_value("cloud").unwrap_err().message(),
        "invalid storage mode \"cloud\"; expected local, obsidian, or git"
    );
}

#[test]
fn config_lives_below_the_rem_home() {
    let root = rem_home(None, Some("/home/ada".to_string())).unwrap();
    let store = ConfigStore::at(root);
    assert!(store.path().starts_with("/home/ada/"));
    assert!(store.path().ends_with("config.toml"));
    assert_eq!(rem_home(Some("/etc/rem".to_string()), None).unwrap(), "/etc/rem");
    assert!(rem_home(None, None).is_err());
}
