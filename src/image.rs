//! Where the image builder keeps its data: the storage root taken from the
//! configuration (with `~` expanded) or the default for the current user, and
//! the directories laid out under it.

use crate::auth::{storage_root_of, RkforgeConfig};
use crate::text::{has_prefix, is_absolute, is_absolute_path, join_path, join_spec, starts_with, str_eq};
use vstd::prelude::*;
use vstd::string::{StrSliceExecFns, StringExecFns};

verus! {

/// The storage root of the root user.
pub const ROOT_PATH: &'static str = "/var/lib/rkforge";

/// The directory under the user's data directory that other users store in.
pub const USER_DIR_NAME: &'static str = "rk8s";

/// Why no storage root could be worked out.
#[derive(Debug, Clone)]
pub enum StorageRootError {
    /// `~` was used and the home directory is unknown.
    NoHomeDir,
    /// The user's data directory is unknown.
    NoDataDir,
    /// The configured path is neither absolute nor under `~/`.
    NotAbsolute(String),
}

impl StorageRootError {
    /// A sentence that says what went wrong.
    pub fn message(&self) -> (r: String)
        ensures
            self matches StorageRootError::NotAbsolute(p) ==> r@ == "Configured image.storage `"@ + p@
                + "` must be an absolute path or start with `~/`"@,
            self matches StorageRootError::NoHomeDir ==> r@ == "Failed to get home directory for `~`"@,
            self matches StorageRootError::NoDataDir ==> r@ == "Failed to get user data directory"@,
    {
        match self {
            StorageRootError::NoHomeDir => String::from_str("Failed to get home directory for `~`"),
            StorageRootError::NoDataDir => String::from_str("Failed to get user data directory"),
            StorageRootError::NotAbsolute(p) => {
                let mut m = String::from_str("Configured image.storage `");
                m.append(p.as_str());
                m.append("` must be an absolute path or start with `~/`");
                m
            },
        }
    }
}

/// The directories of the current user that the storage root may depend on.
#[derive(Debug, Clone)]
pub struct UserDirs {
    pub home: Option<String>,
    pub data: Option<String>,
}

/// Relies on `dirs::home_dir`: the current user's home directory, if known. It
/// depends on the environment, so nothing is promised of it.
#[verifier::external_body]
fn home_dir() -> (r: Option<String>) {
    match dirs::home_dir() {
        Some(p) => Some(p.to_string_lossy().into_owned()),
        None => None,
    }
}

/// Relies on `dirs::data_dir`: the current user's data directory, if known. It
/// depends on the environment, so nothing is promised of it.
#[verifier::external_body]
fn data_dir() -> (r: Option<String>) {
    match dirs::data_dir() {
        Some(p) => Some(p.to_string_lossy().into_owned()),
        None => None,
    }
}

/// Relies on `nix::unistd::getuid` and `Uid::is_root`: whether this process runs
/// as root, which depends on the process, so nothing is promised of it.
#[verifier::external_body]
pub fn current_user_is_root() -> (r: bool) {
    nix::unistd::getuid().is_root()
}

impl UserDirs {
    /// The directories of the user this process runs as.
    pub fn current() -> (r: UserDirs) {
        UserDirs { home: home_dir(), data: data_dir() }
    }
}

/// The storage root used when none is configured.
pub fn default_storage_root_in(is_root: bool, dirs: &UserDirs) -> (r: Result<String, StorageRootError>)
    ensures
        is_root ==> r is Ok && r->Ok_0@ == ROOT_PATH@,
        !is_root && dirs.data is None ==> r matches Err(StorageRootError::NoDataDir),
        !is_root && dirs.data is Some ==> r is Ok && r->Ok_0@ == join_spec(dirs.data.unwrap()@, USER_DIR_NAME@),
{
    if is_root {
        Ok(String::from_str(ROOT_PATH))
    } else {
        match &dirs.data {
            Some(d) => Ok(join_path(d.as_str(), USER_DIR_NAME)),
            None => Err(StorageRootError::NoDataDir),
        }
    }
}

/// The storage root used when none is configured, for the current user's
/// directories.
pub fn default_storage_root(is_root: bool) -> (r: Result<String, StorageRootError>)
    ensures
        is_root ==> r is Ok && r->Ok_0@ == ROOT_PATH@,
        !is_root ==> (r matches Err(StorageRootError::NoDataDir)) || (r is Ok && exists|d: Seq<char>|
            r->Ok_0@ == join_spec(d, USER_DIR_NAME@)),
{
    let dirs = UserDirs::current();
    default_storage_root_in(is_root, &dirs)
}

/// `path` with a leading `~` or `~/` replaced by the home directory `home`;
/// `None` when `~` is used and `home` is unknown.
pub open spec fn expand_home_spec(path: Seq<char>, home: Option<String>) -> Option<Seq<char>> {
    if path == "~"@ {
        match home {
            Some(h) => Some(h@),
            None => None,
        }
    } else if has_prefix(path, "~/"@) {
        match home {
            Some(h) => Some(join_spec(h@, path.subrange(2, path.len() as int))),
            None => None,
        }
    } else {
        Some(path)
    }
}

/// Expands a leading `~` or `~/` in `path` with the home directory in `dirs`.
pub fn expand_home_in(path: &str, dirs: &UserDirs) -> (r: Result<String, StorageRootError>)
    ensures
        expand_home_spec(path@, dirs.home) is Some ==> r is Ok && r->Ok_0@ == expand_home_spec(
            path@,
            dirs.home,
        ).unwrap(),
        expand_home_spec(path@, dirs.home) is None ==> r matches Err(StorageRootError::NoHomeDir),
{
    proof {
        reveal_strlit("~");
        reveal_strlit("~/");
    }
    if str_eq(path, "~") {
        return match &dirs.home {
            Some(h) => Ok(h.clone()),
            None => Err(StorageRootError::NoHomeDir),
        };
    }
    if starts_with(path, "~/") {
        let n = path.unicode_len();
        let suffix = path.substring_char(2, n);
        return match &dirs.home {
            Some(h) => Ok(join_path(h.as_str(), suffix)),
            None => Err(StorageRootError::NoHomeDir),
        };
    }
    Ok(String::from_str(path))
}

/// Expands a leading `~` or `~/` in `path` with the current user's home directory.
pub fn expand_home(path: &str) -> (r: Result<String, StorageRootError>)
    ensures
        !(path@ == "~"@) && !has_prefix(path@, "~/"@) ==> r is Ok && r->Ok_0@ == path@,
        (path@ == "~"@ || has_prefix(path@, "~/"@)) ==> (r matches Err(StorageRootError::NoHomeDir)) || (r is Ok
            && exists|h: String| expand_home_spec(path@, Some(h)) == Some(r->Ok_0@)),
{
    let dirs = UserDirs::current();
    expand_home_in(path, &dirs)
}

/// The storage root for `config`, and whether it came from the configuration:
/// the configured path expanded (and then required to be absolute), or else the
/// default for the user.
pub fn resolve_storage_root_in(config: &RkforgeConfig, is_root: bool, dirs: &UserDirs) -> (r: Result<
    (String, bool),
    StorageRootError,
>)
    ensures
        storage_root_of(config.image.storage) is None ==> match r {
            Ok((p, from_config)) => !from_config && (is_root ==> p@ == ROOT_PATH@) && (!is_root ==> dirs.data
                is Some && p@ == join_spec(dirs.data.unwrap()@, USER_DIR_NAME@)),
            Err(e) => !is_root && dirs.data is None && e is NoDataDir,
        },
        storage_root_of(config.image.storage) is Some ==> {
            let s = storage_root_of(config.image.storage).unwrap();
            let x = expand_home_spec(s, dirs.home);
            match r {
                Ok((p, from_config)) => from_config && x == Some(p@) && is_absolute_path(p@),
                Err(StorageRootError::NoHomeDir) => x is None,
                Err(StorageRootError::NotAbsolute(q)) => x is Some && !is_absolute_path(x.unwrap()) && q@ == s,
                Err(StorageRootError::NoDataDir) => false,
            }
        },
{
    match config.storage_root() {
        Some(path) => {
            let expanded = match expand_home_in(path, dirs) {
                Ok(p) => p,
                Err(e) => return Err(e),
            };
            if !is_absolute(expanded.as_str()) {
                return Err(StorageRootError::NotAbsolute(String::from_str(path)));
            }
            Ok((expanded, true))
        },
        None => match default_storage_root_in(is_root, dirs) {
            Ok(p) => Ok((p, false)),
            Err(e) => Err(e),
        },
    }
}

/// The storage root for `config` and the current user's directories, and whether
/// it came from the configuration.
pub fn resolve_storage_root_with_source(config: &RkforgeConfig, is_root: bool) -> (r: Result<
    (String, bool),
    StorageRootError,
>)
    ensures
        exists|dirs: UserDirs| #[trigger] resolved_as(config, is_root, dirs, r),
{
    let dirs = UserDirs::current();
    let r = resolve_storage_root_in(config, is_root, &dirs);
    assert(resolved_as(config, is_root, dirs, r));
    r
}

/// `r` is what `resolve_storage_root_in` returns for `dirs`.
pub open spec fn resolved_as(
    config: &RkforgeConfig,
    is_root: bool,
    dirs: UserDirs,
    r: Result<(String, bool), StorageRootError>,
) -> bool {
    &&& storage_root_of(config.image.storage) is None ==> match r {
        Ok((p, from_config)) => !from_config && (is_root ==> p@ == ROOT_PATH@) && (!is_root ==> dirs.data
            is Some && p@ == join_spec(dirs.data.unwrap()@, USER_DIR_NAME@)),
        Err(e) => !is_root && dirs.data is None && e is NoDataDir,
    }
    &&& storage_root_of(config.image.storage) is Some ==> {
        let s = storage_root_of(config.image.storage).unwrap();
        let x = expand_home_spec(s, dirs.home);
        match r {
            Ok((p, from_config)) => from_config && x == Some(p@) && is_absolute_path(p@),
            Err(StorageRootError::NoHomeDir) => x is None,
            Err(StorageRootError::NotAbsolute(q)) => x is Some && !is_absolute_path(x.unwrap()) && q@ == s,
            Err(StorageRootError::NoDataDir) => false,
        }
    }
}

/// `r` paired with `from_config` where it is a path.
pub open spec fn with_source(r: Result<String, StorageRootError>, from_config: bool) -> Result<
    (String, bool),
    StorageRootError,
> {
    match r {
        Ok(p) => Ok((p, from_config)),
        Err(e) => Err(e),
    }
}

/// `r` is the path that `resolve_storage_root_in` returns for `dirs`.
pub open spec fn resolved_path_as(
    config: &RkforgeConfig,
    is_root: bool,
    dirs: UserDirs,
    r: Result<String, StorageRootError>,
) -> bool {
    exists|from_config: bool| #[trigger] resolved_as(config, is_root, dirs, with_source(r, from_config))
}

/// The storage root for `config` and the current user's directories.
pub fn resolve_storage_root_from_config(config: &RkforgeConfig, is_root: bool) -> (r: Result<
    String,
    StorageRootError,
>)
    ensures
        exists|dirs: UserDirs| #[trigger] resolved_path_as(config, is_root, dirs, r),
{
    let dirs = UserDirs::current();
    let full = resolve_storage_root_in(config, is_root, &dirs);
    match full {
        Ok((p, from_config)) => {
            let ghost fc = from_config;
            let r = Ok(p);
            assert(resolved_as(config, is_root, dirs, with_source(r, fc)));
            assert(resolved_path_as(config, is_root, dirs, r));
            r
        },
        Err(e) => {
            let r: Result<String, StorageRootError> = Err(e);
            assert(resolved_as(config, is_root, dirs, with_source(r, false)));
            assert(resolved_path_as(config, is_root, dirs, r));
            r
        },
    }
}

/// The storage root for `config`, for the user this process runs as.
pub fn resolve_storage_root_for_current_user(config: &RkforgeConfig) -> (r: Result<
    String,
    StorageRootError,
>)
    ensures
        exists|dirs: UserDirs, is_root: bool| #[trigger] resolved_path_as(config, is_root, dirs, r),
{
    let is_root = current_user_is_root();
    let r = resolve_storage_root_from_config(config, is_root);
    r
}

/// The storage root from a configuration that `load_config` reads; when that
/// fails, the default root for the user, not taken from the configuration.
pub fn resolve_storage_root_with_loader<F, E>(is_root: bool, dirs: &UserDirs, load_config: F) -> (r: Result<
    (String, bool),
    StorageRootError,
>) where F: FnOnce() -> Result<RkforgeConfig, E>
    requires
        load_config.requires(()),
    ensures
        exists|loaded: Result<RkforgeConfig, E>|
            #[trigger] load_config.ensures((), loaded) && match loaded {
                Ok(config) => resolved_as(&config, is_root, *dirs, r),
                Err(_) => match r {
                    Ok((p, from_config)) => !from_config && (is_root ==> p@ == ROOT_PATH@) && (!is_root
                        ==> dirs.data is Some && p@ == join_spec(dirs.data.unwrap()@, USER_DIR_NAME@)),
                    Err(e) => !is_root && dirs.data is None && e is NoDataDir,
                },
            },
{
    let loaded = load_config();
    match loaded {
        Ok(config) => resolve_storage_root_in(&config, is_root, dirs),
        Err(_) => match default_storage_root_in(is_root, dirs) {
            Ok(p) => Ok((p, false)),
            Err(e) => Err(e),
        },
    }
}

/// The directories of the image builder, under its storage root.
#[derive(Debug, Clone)]
pub struct Config {
    pub layers_store_root: String,
    pub build_dir: String,
    pub metadata_dir: String,
    pub default_registry: String,
    pub is_root: bool,
    /// Whether container root file systems are kept as persistent overlay mounts
    /// rather than copied.
    pub use_overlay_rootfs: bool,
    /// Whether the overlay runs through libfuse (unprivileged) rather than the
    /// kernel's overlay (which needs root).
    pub use_libfuse_overlay: bool,
}

impl Config {
    /// The layout under `root_dir`. `overlay_rootfs` and `libfuse_overlay` are the
    /// values of the two switches in the environment, if set: overlay root file
    /// systems are on unless the first is `0`, libfuse is on only when the second
    /// is `1`.
    pub fn from_root(
        root_dir: &str,
        is_root: bool,
        overlay_rootfs: Option<&str>,
        libfuse_overlay: Option<&str>,
    ) -> (r: Config)
        ensures
            r.layers_store_root@ == join_spec(root_dir@, "layers"@),
            r.build_dir@ == join_spec(root_dir@, "build"@),
            r.metadata_dir@ == join_spec(root_dir@, "metadata"@),
            r.default_registry@ == crate::auth::DEFAULT_REGISTRY@,
            r.is_root == is_root,
            r.use_overlay_rootfs == match overlay_rootfs {
                Some(v) => v@ != "0"@,
                None => true,
            },
            r.use_libfuse_overlay == match libfuse_overlay {
                Some(v) => v@ == "1"@,
                None => false,
            },
    {
        let use_overlay_rootfs = match overlay_rootfs {
            Some(v) => !str_eq(v, "0"),
            None => true,
        };
        let use_libfuse_overlay = match libfuse_overlay {
            Some(v) => str_eq(v, "1"),
            None => false,
        };
        Config {
            layers_store_root: join_path(root_dir, "layers"),
            build_dir: join_path(root_dir, "build"),
            metadata_dir: join_path(root_dir, "metadata"),
            default_registry: String::from_str(crate::auth::DEFAULT_REGISTRY),
            is_root,
            use_overlay_rootfs,
            use_libfuse_overlay,
        }
    }
}

} // verus!
