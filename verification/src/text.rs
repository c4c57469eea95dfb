//! Character-level helpers over `&str` and `String`: the few loops the
//! rest of the library needs to compare, slice and rebuild strings, and
//! the one trusted name for Unicode lowercasing.

use vstd::prelude::*;
use vstd::string::StrSliceExecFns;

verus! {

/// `b` is a suffix of `a`.
pub open spec fn is_suffix(a: Seq<char>, b: Seq<char>) -> bool {
    b.len() <= a.len() && a.subrange(a.len() - b.len(), a.len() as int) == b
}

/// Copies the characters of `s` into a vector.
pub fn chars_of(s: &str) -> (r: Vec<char>)
    ensures
        r@ == s@,
{
    let n = s.unicode_len();
    let mut r: Vec<char> = Vec::new();
    let mut i: usize = 0;
    while i < n
        invariant
            n == s@.len(),
            i <= n,
            r@ == s@.take(i as int),
        decreases n - i,
    {
        r.push(s.get_char(i));
        proof {
            assert(r@ =~= s@.take(i + 1));
        }
        i = i + 1;
    }
    proof {
        assert(s@.take(n as int) =~= s@);
    }
    r
}

/// Character-for-character string equality.
pub fn str_eq(a: &str, b: &str) -> (r: bool)
    ensures
        r == (a@ == b@),
{
    let an = a.unicode_len();
    let bn = b.unicode_len();
    if an != bn {
        proof {
            assert(a@ != b@);
        }
        return false;
    }
    let mut i: usize = 0;
    while i < an
        invariant
            an == a@.len(),
            an == b@.len(),
            i <= an,
            forall|j: int| 0 <= j < i ==> a@[j] == b@[j],
        decreases an - i,
    {
        if a.get_char(i) != b.get_char(i) {
            proof {
                assert(a@ != b@);
            }
            return false;
        }
        i = i + 1;
    }
    proof {
        assert(a@ =~= b@);
    }
    true
}

/// `a` ends with `b`.
pub fn ends_with_str(a: &str, b: &str) -> (r: bool)
    ensures
        r == is_suffix(a@, b@),
{
    let an = a.unicode_len();
    let bn = b.unicode_len();
    if bn > an {
        return false;
    }
    let start = an - bn;
    let mut i: usize = 0;
    while i < bn
        invariant
            an == a@.len(),
            bn == b@.len(),
            start == an - bn,
            i <= bn,
            forall|j: int| 0 <= j < i ==> a@[start + j] == b@[j],
        decreases bn - i,
    {
        if a.get_char(start + i) != b.get_char(i) {
            proof {
                assert(a@.subrange(a@.len() - b@.len(), a@.len() as int)[i as int] != b@[i as int]);
            }
            return false;
        }
        i = i + 1;
    }
    proof {
        assert(a@.subrange(a@.len() - b@.len(), a@.len() as int) =~= b@);
    }
    true
}

/// Builds a `String` from a vector of characters.
///
/// Relies on `String::from_iter` (via `Iterator::collect` over the
/// vector's characters): the collected string holds exactly those
/// characters in order.
#[verifier::external_body]
pub fn string_from_chars(v: &Vec<char>) -> (r: String)
    ensures
        r@ == v@,
{
    v.iter().collect()
}

/// The Unicode lowercase form of a string, as `str::to_lowercase`
/// computes it. The result depends on the characters alone, so it is
/// left as a name; nothing further is assumed of it.
pub uninterp spec fn lower_of(s: Seq<char>) -> Seq<char>;

/// Relies on `str::to_lowercase`: the Unicode lowercase mapping of the
/// input, a function of the input characters alone, here named
/// `lower_of`.
#[verifier::external_body]
pub fn to_lower(s: &str) -> (r: String)
    ensures
        r@ == lower_of(s@),
{
    s.to_lowercase()
}

} // verus!
