use slayerfs::meta_config::Interval;
use slayerfs::sqlite_config::{
    valid_table_name, PathFacts, SqliteBackendConfig, SqliteConfigError, SqliteSettings, TimeoutSetting,
};

fn settings() -> SqliteSettings {
    SqliteSettings {
        env_filename: None,
        filename: None,
        table: None,
        env_timeout: None,
        timeout: TimeoutSetting::Missing,
        create_if_missing: None,
    }
}

fn no_file() -> PathFacts {
    PathFacts { canonical: None, current_dir: Some("/work".to_string()) }
}

#[test]
fn sqlite_defaults_apply() {
    let c = SqliteBackendConfig::resolve(&settings(), "/tmp/vault.db", &no_file()).unwrap();
    assert_eq!(c.filename, "/tmp/vault.db");
    assert_eq!(c.table, "vault");
    assert_eq!(c.timeout, Interval { secs: 5, nanos: 0 });
    assert!(c.create_if_missing);
}

#[test]
fn sqlite_relative_file_goes_under_current_dir() {
    let mut s = settings();
    s.filename = Some("data/v.db".to_string());
    s.env_filename = Some("env.db".to_string());
    let c = SqliteBackendConfig::resolve(&s, "/tmp/vault.db", &no_file()).unwrap();
    assert_eq!(c.filename, "/work/env.db");
    let facts = PathFacts { canonical: Some("/real/env.db".to_string()), current_dir: None };
    assert_eq!(SqliteBackendConfig::resolve(&s, "/tmp/vault.db", &facts).unwrap().filename, "/real/env.db");
    let lost = PathFacts { canonical: None, current_dir: None };
    assert!(matches!(SqliteBackendConfig::resolve(&s, "/tmp/vault.db", &lost), Err(SqliteConfigError::NoCurrentDir)));
}

#[test]
fn sqlite_missing_file_without_create_fails() {
    let mut s = settings();
    s.create_if_missing = Some(false);
    assert!(matches!(
        SqliteBackendConfig::resolve(&s, "/tmp/vault.db", &no_file()),
        Err(SqliteConfigError::MissingFile(_))
    ));
}

#[test]
fn sqlite_timeouts_parse_and_are_bounded() {
    let mut s = settings();
    s.timeout = TimeoutSetting::Text(" 2min 30s ".to_string());
    assert_eq!(SqliteBackendConfig::resolve(&s, "/v.db", &no_file()).unwrap().timeout, Interval { secs: 150, nanos: 0 });
    s.env_timeout = Some("250ms".to_string());
    assert_eq!(
        SqliteBackendConfig::resolve(&s, "/v.db", &no_file()).unwrap().timeout,
        Interval { secs: 0, nanos: 250_000_000 }
    );
    s.env_timeout = Some("soon".to_string());
    assert!(matches!(SqliteBackendConfig::resolve(&s, "/v.db", &no_file()), Err(SqliteConfigError::BadTimeout(t)) if t == "soon"));
    s.env_timeout = None;
    s.timeout = TimeoutSetting::Seconds(Some(7200));
    assert!(matches!(
        SqliteBackendConfig::resolve(&s, "/v.db", &no_file()),
        Err(SqliteConfigError::TimeoutOutOfRange)
    ));
    s.timeout = TimeoutSetting::Seconds(None);
    assert_eq!(SqliteBackendConfig::resolve(&s, "/v.db", &no_file()).unwrap().timeout, Interval { secs: 5, nanos: 0 });
    s.timeout = TimeoutSetting::Text(String::new());
    assert_eq!(SqliteBackendConfig::resolve(&s, "/v.db", &no_file()).unwrap().timeout, Interval { secs: 5, nanos: 0 });
    s.timeout = TimeoutSetting::Text("0".to_string());
    assert!(SqliteBackendConfig::resolve(&s, "/v.db", &no_file()).is_err());
}

#[test]
fn sqlite_table_names_are_word_characters() {
    assert!(valid_table_name("vault_2"));
    assert!(!valid_table_name(""));
    assert!(!valid_table_name("vault; drop"));
    assert!(!valid_table_name("tablé"));
}

#[test]
fn sqlite_default_config() {
    let c = SqliteBackendConfig::default_with("/tmp/vault.db".to_string());
    assert_eq!(c.table, "vault");
    assert_eq!(c.timeout, Interval { secs: 5, nanos: 0 });
}

use slayerfs::sqlite_keys::{escape_like_prefix, is_absolute_key, list_entry_name, list_names};

#[test]
fn sqlite_like_prefix_is_escaped() {
    assert_eq!(escape_like_prefix("a_b%c\\d"), "a\\_b\\%c\\\\d");
    assert_eq!(escape_like_prefix("plain/"), "plain/");
}

#[test]
fn sqlite_list_names_one_level_down() {
    assert_eq!(list_entry_name("sys/policy/a", "sys/"), "policy/");
    assert_eq!(list_entry_name("sys/token", "sys/"), "token");
    assert_eq!(list_entry_name("other/x", "sys/"), "other/");
    let keys: Vec<String> = ["sys/policy/a", "sys/policy/b", "sys/token", "sys/mounts/x/y"]
        .iter()
        .map(|s| s.to_string())
        .collect();
    assert_eq!(list_names(&keys, "sys/"), vec!["policy/", "token", "mounts/"]);
    assert!(is_absolute_key("/abs"));
    assert!(!is_absolute_key("rel"));
}

#[test]
fn sqlite_overlong_timeout_text_is_refused() {
    let mut s = settings();
    s.timeout = TimeoutSetting::Text("18446744073709551615s 1000000000ns".to_string());
    assert!(matches!(SqliteBackendConfig::resolve(&s, "/v.db", &no_file()), Err(SqliteConfigError::BadTimeout(_))));
    s.timeout = TimeoutSetting::Text("99999999999ms".to_string());
    assert!(matches!(
        SqliteBackendConfig::resolve(&s, "/v.db", &no_file()),
        Err(SqliteConfigError::TimeoutOutOfRange)
    ));
}
