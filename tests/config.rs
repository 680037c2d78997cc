use comic_fake_view::{
    default_backoff_base_ms, default_max_retries, default_tab_count, default_user_data_dir,
    default_wait_for_navigation, Config, ConfigError,
};

#[test]
fn defaults_are_fixed() {
    assert_eq!(default_wait_for_navigation(), 1);
    assert_eq!(default_max_retries(), 10);
    assert_eq!(default_tab_count(), 5);
    assert_eq!(default_backoff_base_ms(), 1000);
    assert_eq!(default_user_data_dir(), "~/.chromium");
}

#[test]
fn default_config_uses_the_defaults() {
    let c = Config::default();
    assert_eq!(c.chrome_path, None);
    assert_eq!(c.user_data_dir, "~/.chromium");
    assert!(!c.headless);
    assert_eq!(c.wait_for_navigation, 1);
    assert_eq!(c.max_retries, 10);
    assert_eq!(c.tab_count, 5);
    assert_eq!(c.backoff_base_ms, 1000);
}

#[test]
fn load_without_a_found_config_gives_the_default() {
    let c = Config::load(None);
    assert_eq!(c.tab_count, 5);
    assert_eq!(c.max_retries, 10);
    assert_eq!(c.user_data_dir, "~/.chromium");
}

#[test]
fn load_keeps_a_found_config() {
    let found = Config {
        chrome_path: Some("/usr/bin/chromium".to_string()),
        user_data_dir: "/tmp/profile".to_string(),
        headless: true,
        wait_for_navigation: 7,
        max_retries: 2,
        tab_count: 3,
        backoff_base_ms: 250,
    };
    let c = Config::load(Some(found));
    assert_eq!(c.chrome_path.as_deref(), Some("/usr/bin/chromium"));
    assert_eq!(c.user_data_dir, "/tmp/profile");
    assert!(c.headless);
    assert_eq!(c.wait_for_navigation, 7);
    assert_eq!(c.max_retries, 2);
    assert_eq!(c.tab_count, 3);
    assert_eq!(c.backoff_base_ms, 250);
}

#[test]
fn validate_refuses_an_empty_pool() {
    let mut c = Config::default();
    assert_eq!(c.validate(), Ok(()));
    c.tab_count = 0;
    assert_eq!(c.validate(), Err(ConfigError::NoTabs));
    c.tab_count = 1;
    assert_eq!(c.validate(), Ok(()));
}
