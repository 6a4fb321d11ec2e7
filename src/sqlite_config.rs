//! Settings of the SQLite storage backend: which file, which table, how long to
//! wait on a busy database, and whether to create the file.

use crate::meta_config::Interval;
use crate::text::{is_absolute, is_absolute_path, join_path, join_spec, trim, trimmed};
use vstd::prelude::*;
use vstd::string::{StrSliceExecFns, StringExecFns};

verus! {

pub const DEFAULT_SQLITE_FILENAME: &'static str = "vault.db";

pub const DEFAULT_SQLITE_TABLE: &'static str = "vault";

/// Timeouts must stay below this many seconds.
pub const DEFAULT_SQLITE_TIMEOUT: u64 = 7200;

/// The busy timeout used when none is given, in seconds.
pub const DEFAULT_BUSY_SECS: u64 = 5;

/// What `humantime::parse_duration` reads from a text, as whole seconds and
/// nanoseconds; `None` where it refuses the text. It is only ever asked about
/// texts of at most `MAX_DURATION_DIGITS` digits.
pub uninterp spec fn parsed_duration(s: Seq<char>) -> Option<(u64, u32)>;

/// The most ASCII digits a duration text may hold. With no more, every number
/// in it is below 10^11, so the seconds it sums stay far below `u64::MAX`: the
/// parser's arithmetic is checked, and its last step, `Duration::new`, cannot
/// overflow when it carries a full second of nanoseconds.
pub const MAX_DURATION_DIGITS: usize = 11;

/// The number of ASCII digits in `s`.
pub open spec fn digit_count(s: Seq<char>) -> nat
    decreases s.len(),
{
    if s.len() == 0 {
        0
    } else {
        digit_count(s.drop_last()) + if '0' <= s.last() && s.last() <= '9' {
            1nat
        } else {
            0nat
        }
    }
}

/// The number of ASCII digits in `s`.
pub fn count_digits(s: &str) -> (r: usize)
    ensures
        r == digit_count(s@),
{
    let n = s.unicode_len();
    let mut count: usize = 0;
    let mut i: usize = 0;
    while i < n
        invariant
            n == s@.len(),
            i <= n,
            count == digit_count(s@.subrange(0, i as int)),
            count <= i,
        decreases n - i,
    {
        let c = s.get_char(i);
        assert(s@.subrange(0, i + 1).drop_last() =~= s@.subrange(0, i as int));
        if '0' <= c && c <= '9' {
            count = count + 1;
        }
        i = i + 1;
    }
    assert(s@.subrange(0, n as int) =~= s@);
    count
}

/// Relies on `humantime::parse_duration`: the duration a text such as `2h 37min`
/// or `4.2s` denotes, a result that depends on the text alone. A text with a
/// number near `u64::MAX` seconds can make it panic, which the bound on digits
/// rules out.
#[verifier::external_body]
fn parse_duration(s: &str) -> (r: Option<Interval>)
    requires
        digit_count(s@) <= MAX_DURATION_DIGITS,
    ensures
        r is Some == parsed_duration(s@) is Some,
        r is Some ==> parsed_duration(s@) == Some((r.unwrap().secs, r.unwrap().nanos)),
        r is Some ==> r.unwrap().wf(),
{
    match humantime::parse_duration(s) {
        Ok(d) => Some(Interval { secs: d.as_secs(), nanos: d.subsec_nanos() }),
        Err(_) => None,
    }
}

/// An ASCII letter, digit or underscore: what `(?-u:\w)` matches.
pub open spec fn is_word_char(c: char) -> bool {
    ('a' <= c && c <= 'z') || ('A' <= c && c <= 'Z') || ('0' <= c && c <= '9') || c == '_'
}

/// Relies on `regex::Regex` with the pattern `^(?-u:\w)+$`: whether `s` is a
/// non-empty run of ASCII word characters.
#[verifier::external_body]
fn matches_word_pattern(s: &str) -> (r: bool)
    ensures
        r == (s@.len() > 0 && forall|i: int| 0 <= i < s@.len() ==> is_word_char(#[trigger] s@[i])),
{
    regex::Regex::new(r"^(?-u:\w)+$").unwrap().is_match(s)
}

/// Whether `table` can be put into SQL as a table name.
pub fn valid_table_name(table: &str) -> (r: bool)
    ensures
        r == (table@.len() > 0 && forall|i: int| 0 <= i < table@.len() ==> is_word_char(#[trigger] table@[i])),
{
    matches_word_pattern(table)
}

/// A timeout as the configuration gives it.
#[derive(Debug, Clone)]
pub enum TimeoutSetting {
    /// A text such as `30s`; empty means the default.
    Text(String),
    /// A number of seconds; `None` when the number is not a `u64`.
    Seconds(Option<u64>),
    /// Absent, or of another kind.
    Missing,
}

/// The backend's settings as read from the configuration and the environment.
#[derive(Debug, Clone)]
pub struct SqliteSettings {
    /// `VAULT_SQLITE_FILENAME`, which wins over the configuration.
    pub env_filename: Option<String>,
    pub filename: Option<String>,
    pub table: Option<String>,
    /// `VAULT_SQLITE_TIMEOUT`, which wins over the configuration.
    pub env_timeout: Option<String>,
    pub timeout: TimeoutSetting,
    pub create_if_missing: Option<bool>,
}

/// What the file system says of the database path.
#[derive(Debug, Clone)]
pub struct PathFacts {
    /// The canonical form of the path, when it exists.
    pub canonical: Option<String>,
    /// The current directory, when it can be read.
    pub current_dir: Option<String>,
}

/// Why the settings were refused.
#[derive(Debug, Clone)]
pub enum SqliteConfigError {
    /// The file does not exist and may not be created.
    MissingFile(String),
    /// A relative path was given and the current directory is unknown.
    NoCurrentDir,
    /// The timeout text is not a duration, or holds more than eleven digits.
    BadTimeout(String),
    /// The timeout is not above zero and below the limit.
    TimeoutOutOfRange,
}

/// The backend's resolved settings.
#[derive(Debug, Clone)]
pub struct SqliteBackendConfig {
    pub filename: String,
    pub table: String,
    pub timeout: Interval,
    pub create_if_missing: bool,
}

/// The path the settings name: the environment's, the configuration's, or the
/// default.
pub open spec fn chosen_path(settings: SqliteSettings, default_filename: Seq<char>) -> Seq<char> {
    match settings.env_filename {
        Some(p) => p@,
        None => match settings.filename {
            Some(p) => p@,
            None => default_filename,
        },
    }
}

/// The timeout a text gives: the default when empty, else the duration the
/// trimmed text denotes; `None` when it denotes none or holds more digits than
/// a duration text may.
pub open spec fn text_timeout_value(t: Seq<char>) -> Option<Interval> {
    if t.len() == 0 {
        Some(Interval::spec_from_secs(DEFAULT_BUSY_SECS))
    } else if digit_count(trimmed(t)) > MAX_DURATION_DIGITS {
        None
    } else {
        match parsed_duration(trimmed(t)) {
            Some((secs, nanos)) => Some(Interval { secs, nanos }),
            None => None,
        }
    }
}

/// The timeout `settings` give, before its range is checked; `None` when the
/// text given does not denote a duration.
pub open spec fn timeout_value(settings: SqliteSettings) -> Option<Interval> {
    match settings.env_timeout {
        Some(s) => text_timeout_value(s@),
        None => match settings.timeout {
            TimeoutSetting::Text(s) => text_timeout_value(s@),
            TimeoutSetting::Seconds(Some(n)) => Some(Interval::spec_from_secs(n)),
            TimeoutSetting::Seconds(None) => Some(Interval::spec_from_secs(DEFAULT_BUSY_SECS)),
            TimeoutSetting::Missing => Some(Interval::spec_from_secs(DEFAULT_BUSY_SECS)),
        },
    }
}

/// The database file the settings resolve to; `None` when the file is missing
/// and may not be created, or is relative and the current directory unknown.
pub open spec fn resolved_filename(settings: SqliteSettings, default_filename: Seq<char>, facts: PathFacts) -> Option<
    Seq<char>,
> {
    let path = chosen_path(settings, default_filename);
    let create = match settings.create_if_missing {
        Some(b) => b,
        None => true,
    };
    match facts.canonical {
        Some(c) => Some(c@),
        None => if !create {
            None
        } else if is_absolute_path(path) {
            Some(path)
        } else {
            match facts.current_dir {
                Some(d) => Some(join_spec(d@, path)),
                None => None,
            }
        },
    }
}

/// Whether `t` is above zero and below the limit.
pub open spec fn timeout_in_range(t: Interval) -> bool {
    0 < t.total_nanos() < DEFAULT_SQLITE_TIMEOUT * 1_000_000_000
}

impl SqliteBackendConfig {
    /// The default settings, with the database file `default_filename` (a file
    /// named `vault.db` in the temporary directory).
    pub fn default_with(default_filename: String) -> (r: SqliteBackendConfig)
        ensures
            r.filename@ == default_filename@,
            r.table@ == DEFAULT_SQLITE_TABLE@,
            r.timeout == Interval::spec_from_secs(DEFAULT_BUSY_SECS),
            r.create_if_missing,
    {
        SqliteBackendConfig {
            filename: default_filename,
            table: String::from_str(DEFAULT_SQLITE_TABLE),
            timeout: Interval::from_secs(DEFAULT_BUSY_SECS),
            create_if_missing: true,
        }
    }

    /// Accepts a timeout above zero and below the limit.
    pub fn check_timeout(timeout: Interval) -> (r: Result<Interval, SqliteConfigError>)
        requires
            timeout.wf(),
        ensures
            timeout_in_range(timeout) ==> r == Ok::<Interval, SqliteConfigError>(timeout),
            !timeout_in_range(timeout) ==> r matches Err(SqliteConfigError::TimeoutOutOfRange),
    {
        let positive = timeout.secs > 0 || timeout.nanos > 0;
        if positive && timeout.secs < DEFAULT_SQLITE_TIMEOUT {
            Ok(timeout)
        } else {
            Err(SqliteConfigError::TimeoutOutOfRange)
        }
    }

    /// The busy timeout the settings give, before its range is checked: a text
    /// is parsed as a duration (blank means the default), a number counts
    /// seconds (five when it is not a `u64`).
    pub fn timeout_of(settings: &SqliteSettings) -> (r: Result<Interval, SqliteConfigError>)
        ensures
            timeout_value(*settings) is Some ==> r == Ok::<Interval, SqliteConfigError>(
                timeout_value(*settings).unwrap(),
            ) && r->Ok_0.wf(),
            timeout_value(*settings) is None ==> r matches Err(SqliteConfigError::BadTimeout(_)),
    {
        match &settings.env_timeout {
            Some(t) => Self::parse_timeout_text(t.as_str()),
            None => match &settings.timeout {
                TimeoutSetting::Text(t) => Self::parse_timeout_text(t.as_str()),
                TimeoutSetting::Seconds(Some(n)) => Ok(Interval::from_secs(*n)),
                TimeoutSetting::Seconds(None) => Ok(Interval::from_secs(DEFAULT_BUSY_SECS)),
                TimeoutSetting::Missing => Ok(Interval::from_secs(DEFAULT_BUSY_SECS)),
            },
        }
    }

    fn parse_timeout_text(t: &str) -> (r: Result<Interval, SqliteConfigError>)
        ensures
            text_timeout_value(t@) is Some ==> r == Ok::<Interval, SqliteConfigError>(text_timeout_value(t@).unwrap())
                && r->Ok_0.wf(),
            text_timeout_value(t@) is None ==> (r matches Err(SqliteConfigError::BadTimeout(u)) && u@ == trimmed(t@)),
    {
        if t.is_empty() {
            return Ok(Interval::from_secs(DEFAULT_BUSY_SECS));
        }
        let text = trim(t);
        if count_digits(text) > MAX_DURATION_DIGITS {
            return Err(SqliteConfigError::BadTimeout(String::from_str(text)));
        }
        match parse_duration(text) {
            Some(d) => Ok(d),
            None => Err(SqliteConfigError::BadTimeout(String::from_str(text))),
        }
    }

    /// Resolves `settings`. `default_filename` is used when no file is named;
    /// `facts` tell whether the chosen path exists (its canonical form) and
    /// what the current directory is.
    pub fn resolve(settings: &SqliteSettings, default_filename: &str, facts: &PathFacts) -> (r: Result<
        SqliteBackendConfig,
        SqliteConfigError,
    >)
        ensures
            resolved_filename(*settings, default_filename@, *facts) is None ==> r is Err,
            resolved_filename(*settings, default_filename@, *facts) is None && settings.create_if_missing == Some(false)
                ==> r matches Err(SqliteConfigError::MissingFile(_)),
            resolved_filename(*settings, default_filename@, *facts) is None && settings.create_if_missing != Some(false)
                ==> r matches Err(SqliteConfigError::NoCurrentDir),
            resolved_filename(*settings, default_filename@, *facts) is Some && timeout_value(*settings) is None
                ==> r matches Err(SqliteConfigError::BadTimeout(_)),
            resolved_filename(*settings, default_filename@, *facts) is Some && timeout_value(*settings) is Some
                && !timeout_in_range(timeout_value(*settings).unwrap()) ==> r matches Err(
                SqliteConfigError::TimeoutOutOfRange,
            ),
            resolved_filename(*settings, default_filename@, *facts) is Some && timeout_value(*settings) is Some
                && timeout_in_range(timeout_value(*settings).unwrap()) ==> r is Ok && {
                let c = r->Ok_0;
                &&& c.filename@ == resolved_filename(*settings, default_filename@, *facts).unwrap()
                &&& c.table@ == match settings.table {
                    Some(t) => t@,
                    None => DEFAULT_SQLITE_TABLE@,
                }
                &&& c.timeout == timeout_value(*settings).unwrap()
                &&& c.create_if_missing == match settings.create_if_missing {
                    Some(b) => b,
                    None => true,
                }
            },
    {
        let create_if_missing = match settings.create_if_missing {
            Some(b) => b,
            None => true,
        };
        let path: &str = match &settings.env_filename {
            Some(p) => p.as_str(),
            None => match &settings.filename {
                Some(p) => p.as_str(),
                None => default_filename,
            },
        };
        let filename = match &facts.canonical {
            Some(c) => c.clone(),
            None => {
                if !create_if_missing {
                    return Err(SqliteConfigError::MissingFile(String::from_str(path)));
                }
                if is_absolute(path) {
                    String::from_str(path)
                } else {
                    match &facts.current_dir {
                        Some(dir) => join_path(dir.as_str(), path),
                        None => return Err(SqliteConfigError::NoCurrentDir),
                    }
                }
            },
        };
        let table = match &settings.table {
            Some(t) => t.clone(),
            None => String::from_str(DEFAULT_SQLITE_TABLE),
        };
        let timeout = match Self::timeout_of(settings) {
            Ok(t) => t,
            Err(e) => return Err(e),
        };
        let timeout = match Self::check_timeout(timeout) {
            Ok(t) => t,
            Err(e) => return Err(e),
        };
        Ok(SqliteBackendConfig { filename, table, timeout, create_if_missing })
    }

}

} // verus!
