//! Configuration of the metadata store: which database backs it, and how its
//! caches are sized and how long their entries live.

use crate::text::str_eq;
use vstd::prelude::*;
use vstd::string::StringExecFns;

verus! {

#[verifier::external_type_specification]
#[verifier::external_body]
pub struct ExIoError(std::io::Error);

pub const NANOS_PER_SEC: u32 = 1_000_000_000;

/// A span of time as whole seconds and the nanoseconds beyond them.
#[derive(Debug, Clone, Copy, PartialEq, Eq, Structural)]
pub struct Interval {
    pub secs: u64,
    pub nanos: u32,
}

impl Interval {
    pub open spec fn wf(&self) -> bool {
        self.nanos < NANOS_PER_SEC
    }

    /// The length in nanoseconds.
    pub open spec fn total_nanos(&self) -> int {
        self.secs * 1_000_000_000 + self.nanos
    }

    pub fn zero() -> (r: Interval)
        ensures
            r.wf(),
            r.total_nanos() == 0,
    {
        Interval { secs: 0, nanos: 0 }
    }

    pub open spec fn spec_from_secs(secs: u64) -> Interval {
        Interval { secs, nanos: 0 }
    }

    pub fn from_secs(secs: u64) -> (r: Interval)
        ensures
            r.wf(),
            r.total_nanos() == secs * 1_000_000_000,
            r == Interval::spec_from_secs(secs),
    {
        Interval { secs, nanos: 0 }
    }

    pub fn from_millis(millis: u64) -> (r: Interval)
        ensures
            r.wf(),
            r.total_nanos() == millis * 1_000_000,
    {
        let secs = millis / 1000;
        let rest = (millis % 1000) as u32;
        Interval { secs, nanos: rest * 1_000_000 }
    }

    pub fn is_zero(&self) -> (r: bool)
        requires
            self.wf(),
        ensures
            r == (self.total_nanos() == 0),
    {
        self.secs == 0 && self.nanos == 0
    }
}

/// Where the metadata lives.
#[derive(Debug, Clone)]
pub enum DatabaseType {
    Sqlite { url: String },
    Postgres { url: String },
    Etcd { urls: Vec<String> },
}

/// The database section of the configuration.
#[derive(Debug, Clone)]
pub struct DatabaseConfig {
    pub db_config: DatabaseType,
}

/// The whole metadata configuration.
#[derive(Debug, Clone)]
pub struct Config {
    pub database: DatabaseConfig,
    /// Cache settings; backend-specific defaults apply where they are not given.
    pub cache: CacheConfig,
}

/// Why the configuration could not be loaded.
#[derive(Debug)]
pub enum ConfigError {
    IoError(std::io::Error),
    ParseError(String),
    ConfigNotFound,
}

/// Cache settings.
#[derive(Debug, Clone)]
pub struct CacheConfig {
    pub capacity: CacheCapacity,
    pub ttl: CacheTtl,
    /// Whether the caches are used at all.
    pub enabled: bool,
}

/// How many entries the caches hold.
#[derive(Debug, Clone, Copy, PartialEq, Eq, Structural)]
pub struct CacheCapacity {
    /// Inode metadata entries (attributes, children, parent).
    pub inode: usize,
    /// Path resolution entries.
    pub path: usize,
}

/// How long cache entries live.
#[derive(Debug, Clone, Copy, PartialEq, Eq, Structural)]
pub struct CacheTtl {
    pub inode_ttl: Interval,
    pub path_ttl: Interval,
}

pub const DEFAULT_SQLITE_URL: &'static str = "sqlite:///tmp/slayerfs/metadata.db";

/// The SQLite URL used when none is configured.
pub fn default_sqlite_url() -> (r: String)
    ensures
        r@ == DEFAULT_SQLITE_URL@,
{
    String::from_str(DEFAULT_SQLITE_URL)
}

pub fn default_cache_enabled() -> (r: bool)
    ensures
        r,
{
    true
}

pub fn default_inode_capacity() -> (r: usize)
    ensures
        r == 10000,
{
    10000
}

pub fn default_path_capacity() -> (r: usize)
    ensures
        r == 5000,
{
    5000
}

impl DatabaseConfig {
    /// The name of the backend type.
    pub fn db_type_str(&self) -> (r: &'static str)
        ensures
            self.db_config is Sqlite ==> r@ == "sqlite"@,
            self.db_config is Postgres ==> r@ == "postgres"@,
            self.db_config is Etcd ==> r@ == "etcd"@,
    {
        match &self.db_config {
            DatabaseType::Sqlite { .. } => "sqlite",
            DatabaseType::Postgres { .. } => "postgres",
            DatabaseType::Etcd { .. } => "etcd",
        }
    }
}

impl Default for CacheCapacity {
    fn default() -> (r: CacheCapacity)
        ensures
            r.inode == 10000,
            r.path == 5000,
    {
        CacheCapacity { inode: default_inode_capacity(), path: default_path_capacity() }
    }
}

impl CacheTtl {
    /// Both entries live `t`.
    pub open spec fn both(&self, t: int) -> bool {
        &&& self.inode_ttl.wf()
        &&& self.path_ttl.wf()
        &&& self.inode_ttl.total_nanos() == t
        &&& self.path_ttl.total_nanos() == t
    }

    /// The default lifetimes for a backend type; unknown types get SQLite's.
    pub fn for_backend(backend: &str) -> (r: CacheTtl)
        ensures
            backend@ == "postgres"@ ==> r.both(500_000_000),
            backend@ == "etcd"@ ==> r.both(100_000_000),
            backend@ != "postgres"@ && backend@ != "etcd"@ ==> r.both(10_000_000_000),
    {
        proof {
            reveal_strlit("sqlite");
            reveal_strlit("postgres");
            reveal_strlit("etcd");
            assert("sqlite"@[0] != "postgres"@[0]);
            assert("sqlite"@[0] != "etcd"@[0]);
            assert("postgres"@[0] != "etcd"@[0]);
        }
        if str_eq(backend, "sqlite") {
            Self::for_sqlite()
        } else if str_eq(backend, "postgres") {
            Self::for_postgres()
        } else if str_eq(backend, "etcd") {
            Self::for_etcd()
        } else {
            Self::for_sqlite()
        }
    }

    /// Ten seconds: the database is local.
    pub fn for_sqlite() -> (r: CacheTtl)
        ensures
            r.both(10_000_000_000),
    {
        CacheTtl { inode_ttl: Interval::from_secs(10), path_ttl: Interval::from_secs(10) }
    }

    /// Half a second, for network latency.
    pub fn for_postgres() -> (r: CacheTtl)
        ensures
            r.both(500_000_000),
    {
        CacheTtl { inode_ttl: Interval::from_millis(500), path_ttl: Interval::from_millis(500) }
    }

    /// A tenth of a second, for distributed consistency.
    pub fn for_etcd() -> (r: CacheTtl)
        ensures
            r.both(100_000_000),
    {
        CacheTtl { inode_ttl: Interval::from_millis(100), path_ttl: Interval::from_millis(100) }
    }

    /// Whether both lifetimes are zero, the value that stands for "use the
    /// backend's default".
    pub fn is_zero(&self) -> (r: bool)
        requires
            self.inode_ttl.wf(),
            self.path_ttl.wf(),
        ensures
            r == (self.inode_ttl.total_nanos() == 0 && self.path_ttl.total_nanos() == 0),
    {
        self.inode_ttl.is_zero() && self.path_ttl.is_zero()
    }
}

impl Default for CacheTtl {
    fn default() -> (r: CacheTtl)
        ensures
            r.both(0),
    {
        CacheTtl { inode_ttl: Interval::zero(), path_ttl: Interval::zero() }
    }
}

impl Default for CacheConfig {
    fn default() -> (r: CacheConfig)
        ensures
            r.capacity.inode == 10000,
            r.capacity.path == 5000,
            r.ttl.both(0),
            r.enabled,
    {
        CacheConfig { capacity: CacheCapacity::default(), ttl: CacheTtl::default(), enabled: true }
    }
}

impl CacheConfig {
    /// An enabled cache needs room in both caches.
    pub fn validate(&self) -> (r: Result<(), String>)
        ensures
            self.enabled && self.capacity.inode == 0 ==> r is Err && r->Err_0@
                == "inode cache capacity must be > 0"@,
            self.enabled && self.capacity.inode != 0 && self.capacity.path == 0 ==> r is Err && r->Err_0@
                == "path cache capacity must be > 0"@,
            !self.enabled || (self.capacity.inode != 0 && self.capacity.path != 0) ==> r is Ok,
    {
        if self.enabled {
            if self.capacity.inode == 0 {
                return Err(String::from_str("inode cache capacity must be > 0"));
            }
            if self.capacity.path == 0 {
                return Err(String::from_str("path cache capacity must be > 0"));
            }
        }
        Ok(())
    }
}

} // verus!
