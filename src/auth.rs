//! Registry credentials and image storage settings of the image builder's
//! configuration file, and the rules that pick an entry out of them.

use crate::text::{str_eq, trim, trimmed};
use vstd::prelude::*;
use vstd::string::StringExecFns;

verus! {

/// The registry used when no URL is given and no single entry is configured.
pub const DEFAULT_REGISTRY: &'static str = "47.79.87.161:8968";

/// Where images are stored.
#[derive(Debug, Clone)]
pub struct ImageConfig {
    pub storage: Option<String>,
}

/// The whole configuration file.
#[derive(Debug, Clone)]
pub struct RkforgeConfig {
    pub entries: Vec<AuthEntry>,
    pub image: ImageConfig,
}

/// The credential entries of the configuration file.
#[derive(Debug, Clone)]
pub struct AuthConfig {
    pub entries: Vec<AuthEntry>,
}

/// A personal access token for one registry URL.
#[derive(Debug, Clone)]
pub struct AuthEntry {
    pub pat: String,
    pub url: String,
}

/// Why no entry could be chosen.
#[derive(Debug, Clone)]
pub enum AuthError {
    /// No entry is configured.
    NoEntries,
    /// Several entries are configured and no URL picks one.
    ManyEntries,
    /// No entry has the URL asked for.
    UrlNotFound(String),
}

impl AuthError {
    /// A sentence that says what went wrong.
    pub fn message(&self) -> (r: String)
        ensures
            self matches AuthError::NoEntries ==> r@ == "No entries. Maybe you need to set a url."@,
            self matches AuthError::ManyEntries ==> r@ == "There are many entries. Maybe you need to select a url."@,
            self matches AuthError::UrlNotFound(u) ==> r@ == "Failed to find entry with url "@ + u@,
    {
        match self {
            AuthError::NoEntries => String::from_str("No entries. Maybe you need to set a url."),
            AuthError::ManyEntries => String::from_str("There are many entries. Maybe you need to select a url."),
            AuthError::UrlNotFound(u) => {
                let mut m = String::from_str("Failed to find entry with url ");
                m.append(u.as_str());
                m
            },
        }
    }
}

impl Default for ImageConfig {
    fn default() -> (r: ImageConfig)
        ensures
            r.storage is None,
    {
        ImageConfig { storage: None }
    }
}

impl Default for RkforgeConfig {
    fn default() -> (r: RkforgeConfig)
        ensures
            r.entries@.len() == 0,
            r.image.storage is None,
    {
        RkforgeConfig { entries: Vec::new(), image: ImageConfig { storage: None } }
    }
}

impl Default for AuthConfig {
    fn default() -> (r: AuthConfig)
        ensures
            r.entries@.len() == 0,
    {
        AuthConfig { entries: Vec::new() }
    }
}

/// The storage root a configured value names: the value without surrounding
/// white space, or nothing when that is empty.
pub open spec fn storage_root_of(storage: Option<String>) -> Option<Seq<char>> {
    match storage {
        Some(s) => if trimmed(s@).len() == 0 {
            None
        } else {
            Some(trimmed(s@))
        },
        None => None,
    }
}

impl RkforgeConfig {
    /// The configured image storage root, trimmed; `None` when unset or blank.
    pub fn storage_root(&self) -> (r: Option<&str>)
        ensures
            r is Some == storage_root_of(self.image.storage) is Some,
            r is Some ==> r.unwrap()@ == storage_root_of(self.image.storage).unwrap(),
    {
        match &self.image.storage {
            Some(value) => {
                let t = trim(value.as_str());
                if t.is_empty() {
                    None
                } else {
                    Some(t)
                }
            },
            None => None,
        }
    }
}

impl AuthEntry {
    pub fn new(pat: String, url: String) -> (r: AuthEntry)
        ensures
            r.pat@ == pat@,
            r.url@ == url@,
    {
        AuthEntry { pat, url }
    }
}

/// The index of the first entry of `entries` with URL `url`, if any.
pub open spec fn first_with_url(entries: Seq<AuthEntry>, url: Seq<char>) -> Option<int>
    decreases entries.len(),
{
    if entries.len() == 0 {
        None
    } else if entries[0].url@ == url {
        Some(0)
    } else {
        match first_with_url(entries.drop_first(), url) {
            Some(i) => Some(i + 1),
            None => None,
        }
    }
}

pub proof fn lemma_first_with_url(entries: Seq<AuthEntry>, url: Seq<char>)
    ensures
        first_with_url(entries, url) is Some ==> {
            let i = first_with_url(entries, url).unwrap();
            &&& 0 <= i < entries.len()
            &&& entries[i].url@ == url
            &&& forall|j: int| 0 <= j < i ==> #[trigger] entries[j].url@ != url
        },
        first_with_url(entries, url) is None ==> forall|j: int|
            0 <= j < entries.len() ==> #[trigger] entries[j].url@ != url,
    decreases entries.len(),
{
    if entries.len() > 0 {
        lemma_first_with_url(entries.drop_first(), url);
        assert forall|j: int| 1 <= j < entries.len() implies #[trigger] entries[j] == entries.drop_first()[j - 1] by {}
    }
}

/// The index of the first entry with URL `url`.
fn position_of_url(entries: &Vec<AuthEntry>, url: &str) -> (r: Option<usize>)
    ensures
        r is Some == first_with_url(entries@, url@) is Some,
        r is Some ==> r.unwrap() == first_with_url(entries@, url@).unwrap() && r.unwrap() < entries@.len(),
{
    proof {
        lemma_first_with_url(entries@, url@);
    }
    let mut i: usize = 0;
    while i < entries.len()
        invariant
            i <= entries@.len(),
            forall|j: int| 0 <= j < i ==> #[trigger] entries@[j].url@ != url@,
            first_with_url(entries@, url@) is Some ==> {
                let f = first_with_url(entries@, url@).unwrap();
                &&& 0 <= f < entries@.len()
                &&& entries@[f].url@ == url@
                &&& forall|j: int| 0 <= j < f ==> #[trigger] entries@[j].url@ != url@
            },
            first_with_url(entries@, url@) is None ==> forall|j: int|
                0 <= j < entries@.len() ==> #[trigger] entries@[j].url@ != url@,
        decreases entries@.len() - i,
    {
        if str_eq(entries[i].url.as_str(), url) {
            proof {
                if first_with_url(entries@, url@) is Some {
                    let f = first_with_url(entries@, url@).unwrap();
                    if f < i {
                        assert(entries@[f].url@ != url@);
                    }
                    if f > i {
                        assert(entries@[i as int].url@ != url@);
                    }
                }
            }
            return Some(i);
        }
        i = i + 1;
    }
    proof {
        if first_with_url(entries@, url@) is Some {
            let f = first_with_url(entries@, url@).unwrap();
            assert(entries@[f].url@ != url@);
        }
    }
    None
}

/// The entries of `entries` whose URL is not `url`, in order.
pub open spec fn without_url(entries: Seq<AuthEntry>, url: Seq<char>) -> Seq<AuthEntry> {
    entries.filter(|e: AuthEntry| e.url@ != url)
}

impl AuthConfig {
    /// The credentials of a configuration file.
    pub fn from_config(config: RkforgeConfig) -> (r: AuthConfig)
        ensures
            r.entries@ == config.entries@,
    {
        AuthConfig { entries: config.entries }
    }

    /// The one configured entry; an error when there are none or several.
    pub fn single_entry(&self) -> (r: Result<&AuthEntry, AuthError>)
        ensures
            self.entries@.len() == 1 ==> r is Ok && *r->Ok_0 == self.entries@[0],
            self.entries@.len() == 0 ==> r matches Err(AuthError::NoEntries),
            self.entries@.len() > 1 ==> r matches Err(AuthError::ManyEntries),
    {
        let n = self.entries.len();
        if n == 0 {
            Err(AuthError::NoEntries)
        } else if n == 1 {
            Ok(&self.entries[0])
        } else {
            Err(AuthError::ManyEntries)
        }
    }

    /// The first entry with URL `url`.
    pub fn find_entry_by_url(&self, url: &str) -> (r: Result<&AuthEntry, AuthError>)
        ensures
            first_with_url(self.entries@, url@) is Some ==> r is Ok && *r->Ok_0
                == self.entries@[first_with_url(self.entries@, url@).unwrap()],
            first_with_url(self.entries@, url@) is None ==> (r matches Err(AuthError::UrlNotFound(u))
                && u@ == url@),
    {
        match position_of_url(&self.entries, url) {
            Some(i) => Ok(&self.entries[i]),
            None => Err(AuthError::UrlNotFound(String::from_str(url))),
        }
    }

    /// The entry with URL `url` when one is given, else the single entry.
    pub fn resolve_entry(&self, url: Option<&str>) -> (r: Result<&AuthEntry, AuthError>)
        ensures
            url is Some ==> (first_with_url(self.entries@, url.unwrap()@) is Some ==> r is Ok && *r->Ok_0
                == self.entries@[first_with_url(self.entries@, url.unwrap()@).unwrap()]),
            url is Some ==> (first_with_url(self.entries@, url.unwrap()@) is None ==> (r matches Err(
                AuthError::UrlNotFound(u),
            ) && u@ == url.unwrap()@)),
            url is None ==> (self.entries@.len() == 1 ==> r is Ok && *r->Ok_0 == self.entries@[0]),
            url is None ==> (self.entries@.len() == 0 ==> r matches Err(AuthError::NoEntries)),
            url is None ==> (self.entries@.len() > 1 ==> r matches Err(AuthError::ManyEntries)),
    {
        match url {
            Some(u) => self.find_entry_by_url(u),
            None => self.single_entry(),
        }
    }

    /// The registry URL to use: the one given, else that of the single entry,
    /// else the default registry.
    pub fn resolve_url(&self, url: Option<&str>) -> (r: String)
        ensures
            url is Some ==> r@ == url.unwrap()@,
            url is None && self.entries@.len() == 1 ==> r@ == self.entries@[0].url@,
            url is None && self.entries@.len() != 1 ==> r@ == DEFAULT_REGISTRY@,
    {
        match url {
            Some(u) => String::from_str(u),
            None => match self.single_entry() {
                Ok(entry) => entry.url.clone(),
                Err(_) => String::from_str(DEFAULT_REGISTRY),
            },
        }
    }

    /// Runs `f` on the single entry.
    pub fn with_single_entry<F, R>(&self, f: F) -> (r: Result<R, AuthError>) where
        F: FnOnce(&AuthEntry) -> Result<R, AuthError>,

        requires
            forall|e: &AuthEntry| f.requires((e,)),
        ensures
            self.entries@.len() == 1 ==> f.ensures((&self.entries@[0],), r),
            self.entries@.len() == 0 ==> r matches Err(AuthError::NoEntries),
            self.entries@.len() > 1 ==> r matches Err(AuthError::ManyEntries),
    {
        match self.single_entry() {
            Ok(entry) => f(entry),
            Err(e) => Err(e),
        }
    }

    /// Runs `f` on the entry that `resolve_entry` picks.
    pub fn with_resolved_entry<F, R>(&self, url: Option<&str>, f: F) -> (r: Result<R, AuthError>) where
        F: FnOnce(&AuthEntry) -> Result<R, AuthError>,

        requires
            forall|e: &AuthEntry| f.requires((e,)),
        ensures
            url is Some ==> (first_with_url(self.entries@, url.unwrap()@) is Some ==> f.ensures(
                (&self.entries@[first_with_url(self.entries@, url.unwrap()@).unwrap()],),
                r,
            )),
            url is Some ==> (first_with_url(self.entries@, url.unwrap()@) is None ==> (r matches Err(
                AuthError::UrlNotFound(u),
            ) && u@ == url.unwrap()@)),
            url is None ==> (self.entries@.len() == 1 ==> f.ensures((&self.entries@[0],), r)),
            url is None ==> (self.entries@.len() == 0 ==> r matches Err(AuthError::NoEntries)),
            url is None ==> (self.entries@.len() > 1 ==> r matches Err(AuthError::ManyEntries)),
    {
        match self.resolve_entry(url) {
            Ok(entry) => f(entry),
            Err(e) => Err(e),
        }
    }

    /// Whether no entry has URL `url`.
    pub fn is_anonymous(&self, url: &str) -> (r: bool)
        ensures
            r == (first_with_url(self.entries@, url@) is None),
    {
        position_of_url(&self.entries, url).is_none()
    }

    /// Records a token for `url` in `config`: an entry with that URL, the first
    /// one, is replaced, and the new entry goes last.
    pub fn login(config: &mut RkforgeConfig, pat: String, url: String)
        ensures
            final(config).image == old(config).image,
            first_with_url(old(config).entries@, url@) is Some ==> final(config).entries@.drop_last()
                == old(config).entries@.remove(first_with_url(old(config).entries@, url@).unwrap()),
            first_with_url(old(config).entries@, url@) is None ==> final(config).entries@.drop_last()
                == old(config).entries@,
            final(config).entries@.len() > 0,
            final(config).entries@.last().pat@ == pat@,
            final(config).entries@.last().url@ == url@,
    {
        if let Some(idx) = position_of_url(&config.entries, url.as_str()) {
            config.entries.remove(idx);
        }
        let ghost before = config.entries@;
        let entry = AuthEntry::new(pat, url);
        config.entries.push(entry);
        assert(config.entries@.drop_last() =~= before);
    }

    /// Removes every entry for `url` from `config`.
    pub fn logout(config: &mut RkforgeConfig, url: &str)
        ensures
            final(config).image == old(config).image,
            final(config).entries@ == without_url(old(config).entries@, url@),
    {
        let mut rest: Vec<AuthEntry> = Vec::new();
        std::mem::swap(&mut config.entries, &mut rest);
        let ghost all = rest@;
        let mut kept: Vec<AuthEntry> = Vec::new();
        let ghost mut k: int = 0;
        while rest.len() > 0
            invariant
                all == old(config).entries@,
                config.image == old(config).image,
                0 <= k <= all.len(),
                rest@ == all.skip(k),
                kept@ == without_url(all.take(k), url@),
            decreases rest@.len(),
        {
            let e = rest.remove(0);
            proof {
                assert(e == all[k]);
                assert(all.take(k + 1) =~= all.take(k).push(e));
                all.take(k).lemma_filter_push(e, |x: AuthEntry| x.url@ != url@);
                assert(rest@ =~= all.skip(k + 1));
            }
            if !str_eq(e.url.as_str(), url) {
                kept.push(e);
            }
            proof {
                k = k + 1;
            }
        }
        assert(all.take(k) =~= all);
        config.entries = kept;
    }
}

} // verus!
