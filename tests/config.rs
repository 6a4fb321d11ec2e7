use slayerfs::auth::{AuthConfig, AuthEntry, AuthError, ImageConfig, RkforgeConfig};
use slayerfs::config_cli::{get_value, set_value, ConfigCliError, IMAGE_STORAGE_KEY};
use slayerfs::image::{
    default_storage_root, expand_home, expand_home_in, resolve_storage_root_from_config,
    resolve_storage_root_with_loader, Config, StorageRootError, UserDirs,
};
use slayerfs::meta_config::{CacheConfig, CacheTtl, DatabaseConfig, DatabaseType, Interval};
use std::path::PathBuf;

#[test]
fn test_set_image_storage_key() {
    let mut cfg = RkforgeConfig::default();
    set_value(&mut cfg, IMAGE_STORAGE_KEY, "/data/rkforge").unwrap();
    assert_eq!(cfg.image.storage.as_deref(), Some("/data/rkforge"));
}

#[test]
fn test_get_image_storage_key_from_config() {
    let mut cfg = RkforgeConfig::default();
    cfg.image.storage = Some("/data/rkforge".to_string());
    let value = get_value(&cfg, IMAGE_STORAGE_KEY).unwrap();
    assert_eq!(value, "/data/rkforge");
}

#[test]
fn test_get_image_storage_key_fallback_to_default() {
    let cfg = RkforgeConfig::default();
    let value = get_value(&cfg, IMAGE_STORAGE_KEY).unwrap();
    assert!(!value.trim().is_empty());
}

#[test]
fn test_set_rejects_empty_value() {
    let mut cfg = RkforgeConfig::default();
    assert!(set_value(&mut cfg, IMAGE_STORAGE_KEY, "   ").is_err());
}

#[test]
fn test_set_rejects_relative_path() {
    let mut cfg = RkforgeConfig::default();
    assert!(set_value(&mut cfg, IMAGE_STORAGE_KEY, "relative/path").is_err());
}

#[test]
fn test_set_rejects_tilde_username_path() {
    let mut cfg = RkforgeConfig::default();
    assert!(set_value(&mut cfg, IMAGE_STORAGE_KEY, "~foo/data").is_err());
}

#[test]
fn test_set_unknown_key_fails() {
    let mut cfg = RkforgeConfig::default();
    assert!(set_value(&mut cfg, "unknown.key", "/data/rkforge").is_err());
}

#[test]
fn test_get_unknown_key_fails() {
    let cfg = RkforgeConfig::default();
    assert!(get_value(&cfg, "unknown.key").is_err());
}

#[test]
fn set_value_errors_name_their_cause() {
    let mut cfg = RkforgeConfig::default();
    assert!(matches!(set_value(&mut cfg, IMAGE_STORAGE_KEY, "   "), Err(ConfigCliError::EmptyValue)));
    assert!(matches!(
        set_value(&mut cfg, IMAGE_STORAGE_KEY, "relative/path"),
        Err(ConfigCliError::NotAbsolute)
    ));
    match set_value(&mut cfg, IMAGE_STORAGE_KEY, "~foo/data") {
        Err(e @ ConfigCliError::UnsupportedHomePath(_)) => assert_eq!(
            e.message(),
            "unsupported home path `~foo/data`: only `~` and `~/...` are supported for image.storage"
        ),
        other => panic!("unexpected result: {other:?}"),
    }
    match set_value(&mut cfg, "unknown.key", "/x") {
        Err(e) => assert_eq!(e.message(), "unsupported config key `unknown.key`. supported keys: image.storage"),
        Ok(()) => panic!("unknown key accepted"),
    }
    assert!(cfg.image.storage.is_none());
    set_value(&mut cfg, IMAGE_STORAGE_KEY, "  ~/store ").unwrap();
    assert_eq!(cfg.image.storage.as_deref(), Some("~/store"));
}

#[test]
fn test_storage_root_empty_is_none() {
    let config = RkforgeConfig {
        image: ImageConfig {
            storage: Some("   ".to_string()),
        },
        ..Default::default()
    };
    assert_eq!(config.storage_root(), None);
}

#[test]
fn test_storage_root_trimmed_value() {
    let config = RkforgeConfig {
        image: ImageConfig {
            storage: Some("  /data/rkforge  ".to_string()),
        },
        ..Default::default()
    };
    assert_eq!(config.storage_root(), Some("/data/rkforge"));
}

#[test]
fn test_expand_home_plain_path() {
    let path = expand_home("/tmp/rkforge").unwrap();
    assert_eq!(path, "/tmp/rkforge");
}

#[test]
fn test_expand_home_tilde_path() {
    match dirs::home_dir() {
        Some(home) => {
            let path = expand_home("~/rkforge-storage").unwrap();
            assert_eq!(PathBuf::from(path), home.join("rkforge-storage"));
        }
        None => assert!(expand_home("~/rkforge-storage").is_err()),
    }
}

#[test]
fn expand_home_with_given_dirs() {
    let dirs = UserDirs { home: Some("/home/u".to_string()), data: None };
    assert_eq!(expand_home_in("~", &dirs).unwrap(), "/home/u");
    assert_eq!(expand_home_in("~/a/b", &dirs).unwrap(), "/home/u/a/b");
    assert_eq!(expand_home_in("~x", &dirs).unwrap(), "~x");
    let none = UserDirs { home: None, data: None };
    assert!(matches!(expand_home_in("~/a", &none), Err(StorageRootError::NoHomeDir)));
}

#[test]
fn test_default_storage_root_for_root() {
    let path = default_storage_root(true).unwrap();
    assert_eq!(path, "/var/lib/rkforge");
}

#[test]
fn test_default_storage_root_for_non_root() {
    match dirs::data_dir() {
        Some(data_dir) => {
            let path = default_storage_root(false).unwrap();
            assert_eq!(PathBuf::from(path), data_dir.join("rk8s"));
        }
        None => assert!(default_storage_root(false).is_err()),
    }
}

#[test]
fn test_resolve_storage_root_falls_back_when_config_load_fails() {
    let dirs = UserDirs::current();
    let (root, from_config) = resolve_storage_root_with_loader(false, &dirs, || {
        Err::<RkforgeConfig, anyhow::Error>(anyhow::Error::msg("load failed"))
    })
    .unwrap();
    assert!(!from_config);
    assert_eq!(root, default_storage_root(false).unwrap());
}

#[test]
fn test_resolve_storage_root_from_config_rejects_relative_path() {
    let mut config = RkforgeConfig::default();
    config.image.storage = Some("relative/path".to_string());
    let err = resolve_storage_root_from_config(&config, false).unwrap_err();
    let msg = err.message();
    assert!(
        msg.contains("must be an absolute path"),
        "unexpected error message: {msg}"
    );
}

#[test]
fn resolve_storage_root_uses_configured_absolute_path() {
    let mut config = RkforgeConfig::default();
    config.image.storage = Some(" /srv/images ".to_string());
    assert_eq!(resolve_storage_root_from_config(&config, false).unwrap(), "/srv/images");
}

#[test]
fn image_config_lays_out_directories() {
    let config = Config::from_root("/var/lib/rkforge", true, None, Some("1"));
    assert_eq!(config.layers_store_root, "/var/lib/rkforge/layers");
    assert_eq!(config.build_dir, "/var/lib/rkforge/build");
    assert_eq!(config.metadata_dir, "/var/lib/rkforge/metadata");
    assert_eq!(config.default_registry, "47.79.87.161:8968");
    assert!(config.use_overlay_rootfs);
    assert!(config.use_libfuse_overlay);
    let other = Config::from_root("/srv/", false, Some("0"), None);
    assert_eq!(other.layers_store_root, "/srv/layers");
    assert!(!other.use_overlay_rootfs);
    assert!(!other.use_libfuse_overlay);
}

fn entry(pat: &str, url: &str) -> AuthEntry {
    AuthEntry::new(pat.to_string(), url.to_string())
}

#[test]
fn single_entry_and_resolution() {
    let empty = AuthConfig::default();
    assert!(matches!(empty.single_entry(), Err(AuthError::NoEntries)));
    assert_eq!(empty.resolve_url(None), "47.79.87.161:8968");

    let one = AuthConfig { entries: vec![entry("t1", "a.io")] };
    assert_eq!(one.single_entry().unwrap().pat, "t1");
    assert_eq!(one.resolve_url(None), "a.io");
    assert_eq!(one.resolve_url(Some("b.io")), "b.io");

    let two = AuthConfig { entries: vec![entry("t1", "a.io"), entry("t2", "b.io")] };
    assert!(matches!(two.single_entry(), Err(AuthError::ManyEntries)));
    assert_eq!(two.resolve_url(None), "47.79.87.161:8968");
    assert_eq!(two.find_entry_by_url("b.io").unwrap().pat, "t2");
    assert!(matches!(two.find_entry_by_url("c.io"), Err(AuthError::UrlNotFound(u)) if u == "c.io"));
    assert_eq!(two.resolve_entry(Some("a.io")).unwrap().pat, "t1");
    assert!(two.resolve_entry(None).is_err());
    assert!(two.is_anonymous("c.io"));
    assert!(!two.is_anonymous("a.io"));
    assert_eq!(two.with_resolved_entry(Some("b.io"), |e| Ok(e.pat.len())).unwrap(), 2);
    assert!(two.with_single_entry(|e| Ok(e.pat.clone())).is_err());
    assert_eq!(one.with_single_entry(|e| Ok(e.url.clone())).unwrap(), "a.io");
}

#[test]
fn login_replaces_and_logout_removes() {
    let mut config = RkforgeConfig {
        entries: vec![entry("old", "a.io"), entry("t2", "b.io")],
        image: ImageConfig::default(),
    };
    AuthConfig::login(&mut config, "new".to_string(), "a.io".to_string());
    assert_eq!(config.entries.len(), 2);
    assert_eq!(config.entries[0].url, "b.io");
    assert_eq!(config.entries[1].pat, "new");
    AuthConfig::logout(&mut config, "b.io");
    assert_eq!(config.entries.len(), 1);
    assert_eq!(config.entries[0].url, "a.io");
    let auth = AuthConfig::from_config(config);
    assert_eq!(auth.entries.len(), 1);
}

#[test]
fn cache_ttl_defaults_per_backend() {
    assert_eq!(CacheTtl::for_backend("postgres"), CacheTtl::for_postgres());
    assert_eq!(CacheTtl::for_backend("etcd").inode_ttl, Interval::from_millis(100));
    assert_eq!(CacheTtl::for_backend("other"), CacheTtl::for_sqlite());
    assert_eq!(CacheTtl::for_sqlite().path_ttl, Interval { secs: 10, nanos: 0 });
    assert_eq!(Interval::from_millis(500), Interval { secs: 0, nanos: 500_000_000 });
    assert!(CacheTtl::default().is_zero());
    assert!(!CacheTtl::for_etcd().is_zero());
}

#[test]
fn cache_config_validation() {
    let mut config = CacheConfig::default();
    assert!(config.validate().is_ok());
    config.capacity.path = 0;
    assert_eq!(config.validate().unwrap_err(), "path cache capacity must be > 0");
    config.capacity.inode = 0;
    assert_eq!(config.validate().unwrap_err(), "inode cache capacity must be > 0");
    config.enabled = false;
    assert!(config.validate().is_ok());
}

#[test]
fn database_type_names() {
    let db = DatabaseConfig { db_config: DatabaseType::Etcd { urls: vec!["http://e:2379".to_string()] } };
    assert_eq!(db.db_type_str(), "etcd");
    let db = DatabaseConfig { db_config: DatabaseType::Sqlite { url: slayerfs::meta_config::default_sqlite_url() } };
    assert_eq!(db.db_type_str(), "sqlite");
}

#[test]
fn auth_error_messages() {
    assert_eq!(AuthError::NoEntries.message(), "No entries. Maybe you need to set a url.");
    assert_eq!(AuthError::UrlNotFound("x.io".to_string()).message(), "Failed to find entry with url x.io");
}
