//! The cache manager's pure logic: deriving the cache directory from
//! the home directory, mapping cache names to file paths, and mapping
//! file names back to logical cache names. The filesystem itself is a
//! collaborator outside this library; callers hand file contents in and
//! carry file contents out.

use vstd::prelude::*;
use crate::age_of;
use crate::cache::Cache;
use crate::codec::{CacheRep, cache_doc, from_json, json_of, lemma_wf_rep, rep_of, rep_wf};
use crate::errors::CacheError;
use crate::text::{is_suffix, ends_with_str};
use vstd::string::{StrSliceExecFns, StringExecFns};

verus! {

/// The fixed subpath under the home directory holding the cache files.
pub open spec fn cache_sub_path() -> Seq<char> {
    "/.local/share/gitforge"@
}

/// The suffix of a persisted cache file's name.
pub open spec fn cache_file_ext() -> Seq<char> {
    ".json"@
}

/// Owns the single directory the persisted caches live in; the
/// directory is derived once, at construction, and never changes.
#[derive(Debug)]
pub struct CacheManager {
    cache_dir: String,
}

impl CacheManager {
    /// The cache directory path.
    pub closed spec fn dir(&self) -> Seq<char> {
        self.cache_dir@
    }

    /// Builds a manager whose directory is the fixed subpath under the
    /// given home directory; with no home directory there is nowhere to
    /// put caches, which is an error.
    pub fn from_home(home: Option<String>) -> (r: Result<CacheManager, CacheError>)
        ensures
            match r {
                Ok(m) => home is Some && m.dir() == home->0@ + cache_sub_path(),
                Err(e) => home is None && e == CacheError::HomeDirUnknown,
            },
    {
        match home {
            Some(h) => Ok(CacheManager { cache_dir: h.concat("/.local/share/gitforge") }),
            None => Err(CacheError::HomeDirUnknown),
        }
    }

    /// Builds a manager under the host's home directory, failing when
    /// the environment provides none.
    pub fn new() -> (r: Result<CacheManager, CacheError>)
        ensures
            match r {
                Ok(m) => exists|h: Seq<char>| m.dir() == h + cache_sub_path(),
                Err(e) => e == CacheError::HomeDirUnknown,
            },
    {
        let home = home_dir_string();
        let ghost hv = home;
        let r = CacheManager::from_home(home);
        proof {
            if r is Ok {
                assert(r->Ok_0.dir() == hv->0@ + cache_sub_path());
            }
        }
        r
    }

    /// The cache directory itself, for callers that manage the
    /// directory on disk.
    pub fn cache_dir_path(&self) -> (r: &str)
        ensures
            r@ == self.dir(),
    {
        self.cache_dir.as_str()
    }

    /// The file path of the named cache: pure path computation, no
    /// filesystem access.
    pub fn get_cache_path(&self, cache_name: &str) -> (r: String)
        ensures
            r@ == self.dir() + "/"@ + cache_name@ + cache_file_ext(),
    {
        let mut p = self.cache_dir.clone();
        p.append("/");
        p.append(cache_name);
        p.append(".json");
        proof {
            assert(p@ =~= self.dir() + "/"@ + cache_name@ + cache_file_ext());
        }
        p
    }
}

/// Turns the contents of a named cache's backing file into a cache.
/// A missing file (`None`) yields an empty cache — "no cache yet" is a
/// normal startup state, never an error; a file that is not the
/// canonical document of any well-formed cache fails as malformed.
pub fn load_cache_from(content: Option<&str>) -> (r: Result<Cache<String>, CacheError>)
    ensures
        content is None ==> (match r {
            Ok(c) => c.wf() && c@.last_updated == 0 && c@.total_entries == 0
                && c@.entries.len() == 0,
            Err(_) => false,
        }),
        content is Some ==> (match r {
            Ok(c) => c.wf() && content->0@ == json_of(c) && (forall|rep: CacheRep|
                rep_wf(rep) && content->0@ == #[trigger] cache_doc(rep) ==> rep == rep_of(c)),
            Err(e) => e == CacheError::Malformed && (forall|rep: CacheRep|
                rep_wf(rep) ==> content->0@ != #[trigger] cache_doc(rep)),
        }),
{
    match content {
        None => Ok(Cache::new()),
        Some(text) => from_json(text),
    }
}

/// The single refresh decision: a cache should be updated when it has
/// no backing file yet, or when the loaded cache reports itself stale
/// against the wall clock under `max_age_seconds`.
pub fn should_update_from(content: Option<&str>, max_age_seconds: u64) -> (r: Result<
    bool,
    CacheError,
>)
    ensures
        content is None ==> r == Ok::<bool, CacheError>(true),
        content is Some ==> (match r {
            Ok(b) => exists|rep: CacheRep, now: u64|
                #![trigger cache_doc(rep), age_of(now, rep.last_updated)]
                rep_wf(rep) && content->0@ == cache_doc(rep) && b == (age_of(
                    now,
                    rep.last_updated,
                ) > max_age_seconds),
            Err(e) => e == CacheError::Malformed && (forall|rep: CacheRep|
                rep_wf(rep) ==> content->0@ != #[trigger] cache_doc(rep)),
        }),
{
    match content {
        None => Ok(true),
        Some(text) => match from_json(text) {
            Err(e) => Err(e),
            Ok(c) => {
                let b = c.is_stale(max_age_seconds);
                proof {
                    lemma_wf_rep(c);
                    let now = choose|now: u64| b == c@.stale_at(now, max_age_seconds);
                    assert(rep_of(c).last_updated == c@.last_updated);
                    assert(rep_wf(rep_of(c)) && text@ == cache_doc(rep_of(c)) && b == (age_of(
                        now,
                        rep_of(c).last_updated,
                    ) > max_age_seconds));
                }
                Ok(b)
            },
        },
    }
}

/// The logical cache name of a file: the file name without the
/// persistence-format suffix, or the name as it stands when it lacks
/// that suffix.
pub open spec fn logical_name_of(file: Seq<char>) -> Seq<char> {
    if is_suffix(file, cache_file_ext()) {
        file.take(file.len() - cache_file_ext().len())
    } else {
        file
    }
}

/// Computes `logical_name_of` executably, for listing the caches a
/// directory holds.
pub fn cache_file_logical_name(file_name: &str) -> (r: String)
    ensures
        r@ == logical_name_of(file_name@),
{
    if ends_with_str(file_name, ".json") {
        let n = file_name.unicode_len();
        let sfx = ".json".unicode_len();
        let stem = file_name.substring_char(0, n - sfx);
        proof {
            assert(stem@ =~= logical_name_of(file_name@));
        }
        stem.to_owned()
    } else {
        file_name.to_owned()
    }
}

/// Relies on `dirs::home_dir` for the host's home directory, taken as
/// a string when it is valid Unicode. The result depends on the
/// environment, so nothing is assumed of it.
#[verifier::external_body]
fn home_dir_string() -> Option<String> {
    dirs::home_dir().and_then(|p| p.to_str().map(|s| s.to_string()))
}

} // verus!
