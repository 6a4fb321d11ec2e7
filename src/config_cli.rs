//! The `config` command of the image builder: reading and setting configuration
//! keys. Only `image.storage` is supported.

use crate::auth::RkforgeConfig;
use crate::image::{resolve_storage_root_for_current_user, resolved_path_as, StorageRootError, UserDirs};
use crate::text::{has_prefix, is_absolute, is_absolute_path, starts_with, str_eq, trim, trimmed};
use vstd::prelude::*;
use vstd::string::StringExecFns;

verus! {

/// The one key the command supports.
pub const IMAGE_STORAGE_KEY: &'static str = "image.storage";

/// The arguments of the `config` command.
#[derive(Debug, Clone)]
pub struct ConfigArgs {
    pub sub: ConfigSubCommand,
}

/// What the `config` command does.
#[derive(Debug, Clone)]
pub enum ConfigSubCommand {
    /// Sets a key to a value.
    SetKey { key: String, value: String },
    /// Prints the effective value of a key.
    GetKey { key: String },
}

/// Why the command refused a key or a value.
#[derive(Debug, Clone)]
pub enum ConfigCliError {
    /// The key is not one the command knows.
    UnsupportedKey(String),
    /// The value is blank.
    EmptyValue,
    /// The value starts with `~` but not with `~/`, and is not `~` itself.
    UnsupportedHomePath(String),
    /// The value is neither absolute nor under `~`.
    NotAbsolute,
    /// The storage root could not be worked out.
    Storage(StorageRootError),
}

impl ConfigCliError {
    /// A sentence that says what went wrong.
    pub fn message(&self) -> (r: String)
        ensures
            self matches ConfigCliError::UnsupportedKey(k) ==> r@ == "unsupported config key `"@ + k@
                + "`. supported keys: image.storage"@,
            self matches ConfigCliError::EmptyValue ==> r@ == "config value for `image.storage` must not be empty"@,
            self matches ConfigCliError::UnsupportedHomePath(v) ==> r@ == "unsupported home path `"@ + v@
                + "`: only `~` and `~/...` are supported for image.storage"@,
            self matches ConfigCliError::NotAbsolute ==> r@
                == "config value for `image.storage` must be an absolute path or start with `~/`"@,
    {
        match self {
            ConfigCliError::UnsupportedKey(k) => {
                let mut m = String::from_str("unsupported config key `");
                m.append(k.as_str());
                m.append("`. supported keys: image.storage");
                m
            },
            ConfigCliError::EmptyValue => String::from_str("config value for `image.storage` must not be empty"),
            ConfigCliError::UnsupportedHomePath(v) => {
                let mut m = String::from_str("unsupported home path `");
                m.append(v.as_str());
                m.append("`: only `~` and `~/...` are supported for image.storage");
                m
            },
            ConfigCliError::NotAbsolute => String::from_str(
                "config value for `image.storage` must be an absolute path or start with `~/`",
            ),
            ConfigCliError::Storage(e) => e.message(),
        }
    }
}

/// Whether `value` is accepted as a storage root: `~`, a path under `~/`, or an
/// absolute path.
pub open spec fn storage_value_ok(value: Seq<char>) -> bool {
    value == "~"@ || has_prefix(value, "~/"@) || (!has_prefix(value, "~"@) && is_absolute_path(value))
}

/// Accepts `~`, paths under `~/` and absolute paths; refuses other uses of `~`
/// and relative paths.
pub fn validate_storage_value(value: &str) -> (r: Result<(), ConfigCliError>)
    ensures
        storage_value_ok(value@) ==> r is Ok,
        !storage_value_ok(value@) && has_prefix(value@, "~"@) ==> (r matches Err(
            ConfigCliError::UnsupportedHomePath(v),
        ) && v@ == value@),
        !storage_value_ok(value@) && !has_prefix(value@, "~"@) ==> r matches Err(ConfigCliError::NotAbsolute),
{
    if str_eq(value, "~") || starts_with(value, "~/") {
        return Ok(());
    }
    if starts_with(value, "~") {
        return Err(ConfigCliError::UnsupportedHomePath(String::from_str(value)));
    }
    if !is_absolute(value) {
        return Err(ConfigCliError::NotAbsolute);
    }
    Ok(())
}

/// Sets `key` to `value` in `cfg`. The value is trimmed first and must then be
/// a non-empty storage root that `validate_storage_value` accepts.
pub fn set_value(cfg: &mut RkforgeConfig, key: &str, value: &str) -> (r: Result<(), ConfigCliError>)
    ensures
        key@ != IMAGE_STORAGE_KEY@ ==> (r matches Err(ConfigCliError::UnsupportedKey(k)) && k@ == key@),
        key@ == IMAGE_STORAGE_KEY@ && trimmed(value@).len() == 0 ==> r matches Err(ConfigCliError::EmptyValue),
        key@ == IMAGE_STORAGE_KEY@ && trimmed(value@).len() > 0 && storage_value_ok(trimmed(value@)) ==> r is Ok
            && final(cfg).image.storage is Some && final(cfg).image.storage.unwrap()@ == trimmed(value@),
        key@ == IMAGE_STORAGE_KEY@ && trimmed(value@).len() > 0 && !storage_value_ok(trimmed(value@)) && has_prefix(
            trimmed(value@),
            "~"@,
        ) ==> (r matches Err(ConfigCliError::UnsupportedHomePath(v)) && v@ == trimmed(value@)),
        key@ == IMAGE_STORAGE_KEY@ && trimmed(value@).len() > 0 && !storage_value_ok(trimmed(value@)) && !has_prefix(
            trimmed(value@),
            "~"@,
        ) ==> r matches Err(ConfigCliError::NotAbsolute),
        r is Err ==> *final(cfg) == *old(cfg),
        final(cfg).entries == old(cfg).entries,
{
    if !str_eq(key, IMAGE_STORAGE_KEY) {
        return Err(ConfigCliError::UnsupportedKey(String::from_str(key)));
    }
    let value = trim(value);
    if value.is_empty() {
        return Err(ConfigCliError::EmptyValue);
    }
    match validate_storage_value(value) {
        Ok(()) => {},
        Err(e) => return Err(e),
    }
    cfg.image.storage = Some(String::from_str(value));
    Ok(())
}

/// The storage-root outcome that `r` carries, if it carries one.
pub open spec fn storage_outcome(r: Result<String, ConfigCliError>) -> Option<Result<String, StorageRootError>> {
    match r {
        Ok(p) => Some(Ok(p)),
        Err(ConfigCliError::Storage(e)) => Some(Err(e)),
        Err(_) => None,
    }
}

/// The effective value of `key` for `cfg`: the storage root for the user this
/// process runs as.
pub fn get_value(cfg: &RkforgeConfig, key: &str) -> (r: Result<String, ConfigCliError>)
    ensures
        key@ != IMAGE_STORAGE_KEY@ ==> (r matches Err(ConfigCliError::UnsupportedKey(k)) && k@ == key@),
        key@ == IMAGE_STORAGE_KEY@ ==> storage_outcome(r) is Some && exists|dirs: UserDirs, is_root: bool|
            #[trigger] resolved_path_as(cfg, is_root, dirs, storage_outcome(r).unwrap()),
{
    if !str_eq(key, IMAGE_STORAGE_KEY) {
        return Err(ConfigCliError::UnsupportedKey(String::from_str(key)));
    }
    let root = resolve_storage_root_for_current_user(cfg);
    let r = match root {
        Ok(p) => Ok(p),
        Err(e) => Err(ConfigCliError::Storage(e)),
    };
    proof {
        assert(storage_outcome(r) == Some(root));
        let (dirs, is_root) = choose|dirs: UserDirs, is_root: bool| #[trigger] resolved_path_as(cfg, is_root, dirs, root);
        assert(resolved_path_as(cfg, is_root, dirs, storage_outcome(r).unwrap()));
    }
    r
}

} // verus!
