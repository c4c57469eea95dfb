//! Tolerant template-name resolution against a string cache whose keys
//! follow inconsistent conventions (case, path separators, category
//! prefixes), and the key/path computation used when such a cache is
//! rebuilt from a remote directory listing.
//!
//! Matching is staged and deterministic, first match wins: the
//! lowercased input verbatim, then with `/` turned into `-`, then the
//! part after the last `/`, then a full scan comparing lowercased
//! stored keys by equality and by suffix in either direction.

use vstd::prelude::*;
use crate::cache::{Cache, CacheEntry, TagMap, inserted, CacheModel};
use crate::errors::TemplateError;
use crate::keyed::KeyedVec;
use crate::text::{lower_of, to_lower, is_suffix, chars_of, str_eq, ends_with_str};
use vstd::string::StrSliceExecFns;

verus! {

/// Every `/` replaced by `-`.
pub open spec fn slash_to_dash(s: Seq<char>) -> Seq<char> {
    Seq::new(
        s.len(),
        |i: int|
            if s[i] == '/' {
                '-'
            } else {
                s[i]
            },
    )
}

/// The index of the last `/`, or `-1` if there is none.
pub open spec fn last_slash(s: Seq<char>) -> int
    decreases s.len(),
{
    if s.len() == 0 {
        -1
    } else if s.last() == '/' {
        s.len() - 1
    } else {
        last_slash(s.drop_last())
    }
}

/// The part after the last `/`; the whole string if there is none.
pub open spec fn last_segment(s: Seq<char>) -> Seq<char> {
    s.subrange(last_slash(s) + 1, s.len() as int)
}

pub proof fn lemma_last_slash(s: Seq<char>)
    ensures
        -1 <= last_slash(s) < s.len(),
        last_slash(s) >= 0 ==> s[last_slash(s)] == '/',
        forall|j: int| last_slash(s) < j < s.len() ==> s[j] != '/',
    decreases s.len(),
{
    if s.len() > 0 && s.last() != '/' {
        lemma_last_slash(s.drop_last());
        assert forall|j: int| last_slash(s) < j < s.len() implies s[j] != '/' by {
            if j < s.len() - 1 {
                assert(s.drop_last()[j] == s[j]);
            }
        }
    }
}

/// A stored key matches in the fallback scan when its lowercase form
/// equals the normalized or dash-normalized input, or one is a suffix
/// of the other.
pub open spec fn key_matches(stored: Seq<char>, n: Seq<char>, d: Seq<char>) -> bool {
    ||| lower_of(stored) == n
    ||| lower_of(stored) == d
    ||| is_suffix(lower_of(stored), n)
    ||| is_suffix(n, lower_of(stored))
}

/// The payload of the first pair whose key matches, in stored order.
pub open spec fn scan_from(s: Seq<(String, CacheEntry<String>)>, n: Seq<char>, d: Seq<char>) -> Option<
    Seq<char>,
>
    decreases s.len(),
{
    if s.len() == 0 {
        None
    } else if key_matches(s[0].0@, n, d) {
        Some(s[0].1.data@)
    } else {
        scan_from(s.drop_first(), n, d)
    }
}

/// The full staged resolution: exact lookup of the lowercased input,
/// then of its dash-normalized form, then of its last path segment,
/// then the fallback scan; `None` when nothing matches.
pub open spec fn resolve_model(c: Cache<String>, name: Seq<char>) -> Option<Seq<char>> {
    let n = lower_of(name);
    let d = slash_to_dash(n);
    let l = last_segment(n);
    if c@.entries.contains_key(n) {
        Some(c@.entries[n].data)
    } else if c@.entries.contains_key(d) {
        Some(c@.entries[d].data)
    } else if c@.entries.contains_key(l) {
        Some(c@.entries[l].data)
    } else {
        scan_from(c.entries.pair_seq(), n, d)
    }
}

/// Resolves a user-typed template name against the cache, returning
/// the stored payload of the best match, or a "not found" error naming
/// the original input when nothing matches.
pub fn find_template_in_cache<'a>(template_name: &str, cache: &'a Cache<String>) -> (r: Result<
    &'a str,
    TemplateError,
>)
    requires
        cache.wf(),
    ensures
        match r {
            Ok(d) => resolve_model(*cache, template_name@) == Some(d@),
            Err(e) => resolve_model(*cache, template_name@) is None && e.name@ == template_name@,
        },
{
    let normalized = to_lower(template_name);
    let nchars = chars_of(normalized.as_str());
    let nlen = nchars.len();

    // Dash-normalize: every '/' becomes '-'.
    let mut dchars: Vec<char> = Vec::new();
    let mut i: usize = 0;
    while i < nlen
        invariant
            nlen == nchars@.len(),
            nchars@ == normalized@,
            i <= nlen,
            dchars@ =~= slash_to_dash(normalized@).take(i as int),
        decreases nlen - i,
    {
        let c = nchars[i];
        if c == '/' {
            dchars.push('-');
        } else {
            dchars.push(c);
        }
        proof {
            assert(dchars@ =~= slash_to_dash(normalized@).take(i + 1));
        }
        i = i + 1;
    }
    proof {
        assert(slash_to_dash(normalized@).take(nlen as int) =~= slash_to_dash(normalized@));
    }
    let dashed = crate::text::string_from_chars(&dchars);

    if let Some(e) = cache.entries.get(normalized.as_str()) {
        return Ok(e.data.as_str());
    }
    if let Some(e) = cache.entries.get(dashed.as_str()) {
        return Ok(e.data.as_str());
    }

    // The part after the last '/'.
    let mut j: usize = nlen;
    while j > 0 && nchars[j - 1] != '/'
        invariant
            nlen == normalized@.len(),
            nchars@ == normalized@,
            nlen == nchars@.len(),
            j <= nlen,
            forall|m: int| j <= m < nlen ==> normalized@[m] != '/',
        decreases j,
    {
        j = j - 1;
    }
    proof {
        lemma_last_slash(normalized@);
        if j > 0 {
            assert(normalized@[j - 1] == '/');
            assert(last_slash(normalized@) >= j - 1);
            assert(last_slash(normalized@) <= j - 1);
        } else {
            assert(last_slash(normalized@) == -1) by {
                if last_slash(normalized@) >= 0 {
                    assert(normalized@[last_slash(normalized@)] == '/');
                }
            }
        }
        assert(j as int == last_slash(normalized@) + 1);
    }
    let seg = normalized.as_str().substring_char(j, nlen);
    proof {
        assert(seg@ == last_segment(lower_of(template_name@)));
    }
    if let Some(e) = cache.entries.get(seg) {
        return Ok(e.data.as_str());
    }

    // Fallback: full scan with per-key normalization.
    let total = cache.entries.len();
    proof {
        assert(cache.entries.pair_seq().skip(0) =~= cache.entries.pair_seq());
    }
    let mut k: usize = 0;
    while k < total
        invariant
            cache.wf(),
            total == cache.entries.pair_seq().len(),
            k <= total,
            normalized@ == lower_of(template_name@),
            dashed@ == slash_to_dash(normalized@),
            !cache@.entries.contains_key(normalized@),
            !cache@.entries.contains_key(dashed@),
            !cache@.entries.contains_key(last_segment(normalized@)),
            scan_from(cache.entries.pair_seq(), normalized@, dashed@) == scan_from(
                cache.entries.pair_seq().skip(k as int),
                normalized@,
                dashed@,
            ),
        decreases total - k,
    {
        let p = cache.entries.pair_at(k);
        let key_lower = to_lower(p.0.as_str());
        let hit = str_eq(key_lower.as_str(), normalized.as_str()) || str_eq(
            key_lower.as_str(),
            dashed.as_str(),
        ) || ends_with_str(key_lower.as_str(), normalized.as_str()) || ends_with_str(
            normalized.as_str(),
            key_lower.as_str(),
        );
        proof {
            assert(cache.entries.pair_seq().skip(k as int)[0] == cache.entries.pair_seq()[k as int]);
        }
        if hit {
            proof {
                let s = cache.entries.pair_seq();
                assert(key_matches(s[k as int].0@, normalized@, dashed@));
                assert(s.skip(k as int).len() > 0);
                assert(scan_from(s.skip(k as int), normalized@, dashed@) == Some(
                    s[k as int].1.data@,
                ));
            }
            return Ok(p.1.data.as_str());
        }
        proof {
            assert(cache.entries.pair_seq().skip(k as int).drop_first() =~= cache.entries.pair_seq().skip(
                k + 1,
            ));
        }
        k = k + 1;
    }
    proof {
        assert(cache.entries.pair_seq().skip(total as int) =~= Seq::<
            (String, CacheEntry<String>),
        >::empty());
    }
    Err(TemplateError { name: template_name.to_owned() })
}

/// Case-varied exact match: when the lowercase form of the input is
/// itself a stored key, resolution returns exactly that key's payload.
pub proof fn lemma_resolve_case_insensitive(cache: Cache<String>, name: Seq<char>)
    requires
        cache@.entries.contains_key(lower_of(name)),
    ensures
        resolve_model(cache, name) == Some(cache@.entries[lower_of(name)].data),
{
}

/// Category fallback, dashed form: when the lowercased input is not a
/// stored key but its dash-normalized form is, resolution returns that
/// key's payload.
pub proof fn lemma_resolve_dashed(cache: Cache<String>, name: Seq<char>)
    requires
        !cache@.entries.contains_key(lower_of(name)),
        cache@.entries.contains_key(slash_to_dash(lower_of(name))),
    ensures
        resolve_model(cache, name) == Some(
            cache@.entries[slash_to_dash(lower_of(name))].data,
        ),
{
}

/// Category fallback, bare name: when neither the lowercased input nor
/// its dashed form is a stored key but the part after its last `/` is,
/// resolution returns that key's payload.
pub proof fn lemma_resolve_last_segment(cache: Cache<String>, name: Seq<char>)
    requires
        !cache@.entries.contains_key(lower_of(name)),
        !cache@.entries.contains_key(slash_to_dash(lower_of(name))),
        cache@.entries.contains_key(last_segment(lower_of(name))),
    ensures
        resolve_model(cache, name) == Some(
            cache@.entries[last_segment(lower_of(name))].data,
        ),
{
}

/// The cache key a listing entry is stored under: the lowercased stem,
/// prefixed by the lowercased folder and a dash when the listing came
/// from a folder.
pub open spec fn listing_key(folder: Seq<char>, stem: Seq<char>) -> Seq<char> {
    if folder.len() == 0 {
        lower_of(stem)
    } else {
        lower_of(folder) + seq!['-'] + lower_of(stem)
    }
}

/// The fetch path stored for a listing entry: the file name, behind
/// the folder's path prefix when there is one.
pub open spec fn listing_path(prefix: Seq<char>, name: Seq<char>) -> Seq<char> {
    if prefix.len() == 0 {
        name
    } else {
        prefix + name
    }
}

/// For a file of a remote directory listing: the `(key, path)` pair it
/// is cached under, or `None` for a file that is no gitignore template.
pub fn template_cache_key(folder: &str, prefix: &str, name: &str) -> (r: Option<(String, String)>)
    ensures
        ({
            let sfx = ".gitignore"@;
            if is_suffix(name@, sfx) {
                match r {
                    Some(p) => p.0@ == listing_key(folder@, name@.take(name@.len() - sfx.len()))
                        && p.1@ == listing_path(prefix@, name@),
                    None => false,
                }
            } else {
                r is None
            }
        }),
{
    if !ends_with_str(name, ".gitignore") {
        return None;
    }
    let total = name.unicode_len();
    let sfx_len = ".gitignore".unicode_len();
    let stem = name.substring_char(0, total - sfx_len);
    proof {
        assert(stem@ == name@.take(name@.len() - ".gitignore"@.len()));
    }
    let path: String = if prefix.is_empty() {
        name.to_owned()
    } else {
        let mut p = prefix.to_owned();
        p.append(name);
        p
    };
    let key: String = if folder.is_empty() {
        to_lower(stem)
    } else {
        let mut k = to_lower(folder);
        k.append("-");
        let stem_lower = to_lower(stem);
        k.append(stem_lower.as_str());
        proof {
            reveal_strlit("-");
            assert(k@ =~= listing_key(folder@, stem@));
        }
        k
    };
    Some((key, path))
}

/// The cache model after adding every gitignore template of a listing,
/// all stamped with time `now`.
pub open spec fn listing_fold(
    m: CacheModel<Seq<char>>,
    folder: Seq<char>,
    prefix: Seq<char>,
    names: Seq<String>,
    now: u64,
) -> CacheModel<Seq<char>>
    decreases names.len(),
{
    if names.len() == 0 {
        m
    } else {
        let m1 = listing_fold(m, folder, prefix, names.drop_last(), now);
        let name = names.last()@;
        if is_suffix(name, ".gitignore"@) {
            inserted(
                m1,
                listing_key(folder, name.take(name.len() - ".gitignore"@.len())),
                listing_path(prefix, name),
                Map::<Seq<char>, Seq<char>>::empty(),
                now,
            )
        } else {
            m1
        }
    }
}

/// Adds every gitignore template of a directory listing to the cache,
/// each under its listing key with its fetch path as payload, all
/// stamped with the caller-supplied time `now`.
pub fn add_listing_at(
    cache: &mut Cache<String>,
    folder: &str,
    prefix: &str,
    names: &Vec<String>,
    now: u64,
)
    requires
        old(cache).wf(),
    ensures
        final(cache).wf(),
        final(cache)@ =~= listing_fold(old(cache)@, folder@, prefix@, names@, now),
{
    let total = names.len();
    let mut i: usize = 0;
    while i < total
        invariant
            cache.wf(),
            total == names@.len(),
            i <= total,
            cache@ =~= listing_fold(old(cache)@, folder@, prefix@, names@.take(i as int), now),
        decreases total - i,
    {
        let ghost pre = cache@;
        match template_cache_key(folder, prefix, names[i].as_str()) {
            Some(kp) => {
                let (key, path) = kp;
                cache.insert_with_metadata_at(key, path, KeyedVec::<String>::new(), now);
            },
            None => {},
        }
        proof {
            assert(names@.take(i + 1).drop_last() =~= names@.take(i as int));
            assert(names@.take(i + 1).last() == names@[i as int]);
            assert(cache@ =~= listing_fold(old(cache)@, folder@, prefix@, names@.take(i + 1), now));
        }
        i = i + 1;
    }
    proof {
        assert(names@.take(total as int) =~= names@);
    }
}

/// `add_listing_at` stamped with the current wall-clock time.
pub fn add_listing(cache: &mut Cache<String>, folder: &str, prefix: &str, names: &Vec<String>)
    requires
        old(cache).wf(),
    ensures
        final(cache).wf(),
        exists|now: u64|
            final(cache)@ =~= listing_fold(old(cache)@, folder@, prefix@, names@, now),
{
    let now = crate::cache::clock_seconds();
    add_listing_at(cache, folder, prefix, names, now);
    proof {
        assert(cache@ =~= listing_fold(old(cache)@, folder@, prefix@, names@, now));
    }
}

} // verus!
