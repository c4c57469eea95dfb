//! The canonical persisted form of a string cache: a pretty-printed
//! JSON document holding the summary metadata and the entries, each
//! with payload, timestamp and tags. The printer emits exactly one
//! document per cache content; the parser accepts exactly those
//! documents, so a parsed document determines the cache that wrote it.

use vstd::prelude::*;
use crate::cache::{Cache, CacheEntry, CacheMetadata, TagMap};
use crate::errors::CacheError;
use crate::keyed::KeyedVec;
use vstd::string::StrSliceExecFns;
use crate::text::chars_of;

verus! {

// ---------------------------------------------------------------------
// Content representations: the observable content of a cache, with the
// stored order of its pairs, over plain character sequences.
// ---------------------------------------------------------------------

/// The observable content of one entry.
#[verifier::ext_equal]
pub struct EntryRep {
    pub data: Seq<char>,
    pub timestamp: u64,
    pub tags: Seq<(Seq<char>, Seq<char>)>,
}

/// The observable content of a whole cache, pairs in stored order.
#[verifier::ext_equal]
pub struct CacheRep {
    pub last_updated: u64,
    pub total_entries: usize,
    pub entries: Seq<(Seq<char>, EntryRep)>,
}

/// The tag pairs of a tag map, as character sequences.
pub open spec fn tag_rep(s: Seq<(String, String)>) -> Seq<(Seq<char>, Seq<char>)> {
    s.map_values(|p: (String, String)| (p.0@, p.1@))
}

/// The content of one entry.
pub open spec fn entry_rep(e: CacheEntry<String>) -> EntryRep {
    EntryRep { data: e.data@, timestamp: e.timestamp, tags: tag_rep(e.metadata.pair_seq()) }
}

/// The entry pairs of a cache, as contents.
pub open spec fn entries_rep(s: Seq<(String, CacheEntry<String>)>) -> Seq<(Seq<char>, EntryRep)> {
    s.map_values(|p: (String, CacheEntry<String>)| (p.0@, entry_rep(p.1)))
}

/// The content of a cache.
pub open spec fn rep_of(c: Cache<String>) -> CacheRep {
    CacheRep {
        last_updated: c.metadata.last_updated,
        total_entries: c.metadata.total_entries,
        entries: entries_rep(c.entries.pair_seq()),
    }
}

/// No two pairs of a rep-level pair sequence share a key.
pub open spec fn rep_unique<X>(s: Seq<(Seq<char>, X)>) -> bool {
    forall|i: int, j: int| 0 <= i < j < s.len() ==> s[i].0 != s[j].0
}

/// A well-formed content: unique entry keys, unique tag keys within
/// each entry, and a summary count equal to the number of entries.
pub open spec fn rep_wf(r: CacheRep) -> bool {
    &&& rep_unique(r.entries)
    &&& forall|i: int|
        0 <= i < r.entries.len() ==> rep_unique((#[trigger] r.entries[i]).1.tags)
    &&& r.total_entries == r.entries.len()
}

// ---------------------------------------------------------------------
// The document: spec-level printing.
// ---------------------------------------------------------------------

/// The character for one decimal digit.
pub open spec fn dec_digit(d: int) -> char {
    if d == 0 {
        '0'
    } else if d == 1 {
        '1'
    } else if d == 2 {
        '2'
    } else if d == 3 {
        '3'
    } else if d == 4 {
        '4'
    } else if d == 5 {
        '5'
    } else if d == 6 {
        '6'
    } else if d == 7 {
        '7'
    } else if d == 8 {
        '8'
    } else {
        '9'
    }
}

/// The decimal form of a number, most significant digit first, no
/// leading zeros.
pub open spec fn dec_of(n: nat) -> Seq<char>
    decreases n,
{
    if n < 10 {
        seq![dec_digit(n as int)]
    } else {
        dec_of(n / 10).push(dec_digit((n % 10) as int))
    }
}

/// The character for one lowercase hexadecimal digit.
pub open spec fn hex_digit(d: int) -> char {
    if d < 10 {
        dec_digit(d)
    } else if d == 10 {
        'a'
    } else if d == 11 {
        'b'
    } else if d == 12 {
        'c'
    } else if d == 13 {
        'd'
    } else if d == 14 {
        'e'
    } else {
        'f'
    }
}

/// The escaped form of one string character: quote and backslash get a
/// backslash, control characters become `\u00..`, everything else
/// stands for itself.
pub open spec fn esc1(c: char) -> Seq<char> {
    if c == '"' {
        seq!['\\', '"']
    } else if c == '\\' {
        seq!['\\', '\\']
    } else if (c as u32) < 32 {
        seq![
            '\\',
            'u',
            '0',
            '0',
            hex_digit(((c as u32) / 16) as int),
            hex_digit(((c as u32) % 16) as int),
        ]
    } else {
        seq![c]
    }
}

/// The escaped form of a string.
pub open spec fn esc(s: Seq<char>) -> Seq<char>
    decreases s.len(),
{
    if s.len() == 0 {
        Seq::empty()
    } else {
        esc(s.drop_last()) + esc1(s.last())
    }
}

/// A quoted, escaped JSON string.
pub open spec fn jstr(s: Seq<char>) -> Seq<char> {
    seq!['"'] + esc(s) + seq!['"']
}

/// One tag line.
pub open spec fn tag_pair_doc(p: (Seq<char>, Seq<char>)) -> Seq<char> {
    "        "@ + jstr(p.0) + ": "@ + jstr(p.1)
}

/// The tag lines, comma-separated.
pub open spec fn tags_body_doc(tp: Seq<(Seq<char>, Seq<char>)>) -> Seq<char>
    decreases tp.len(),
{
    if tp.len() == 0 {
        Seq::empty()
    } else if tp.len() == 1 {
        tag_pair_doc(tp[0])
    } else {
        tags_body_doc(tp.drop_last()) + ",\n"@ + tag_pair_doc(tp.last())
    }
}

/// The tag object of one entry.
pub open spec fn tags_obj_doc(tp: Seq<(Seq<char>, Seq<char>)>) -> Seq<char> {
    if tp.len() == 0 {
        "{}"@
    } else {
        "{\n"@ + tags_body_doc(tp) + "\n      }"@
    }
}

/// One entry, keyed.
pub open spec fn entry_pair_doc(p: (Seq<char>, EntryRep)) -> Seq<char> {
    "    "@ + jstr(p.0) + ": {\n      \"data\": "@ + jstr(p.1.data) + ",\n      \"timestamp\": "@
        + dec_of(p.1.timestamp as nat) + ",\n      \"metadata\": "@ + tags_obj_doc(p.1.tags)
        + "\n    }"@
}

/// The entries, comma-separated.
pub open spec fn entries_body_doc(es: Seq<(Seq<char>, EntryRep)>) -> Seq<char>
    decreases es.len(),
{
    if es.len() == 0 {
        Seq::empty()
    } else if es.len() == 1 {
        entry_pair_doc(es[0])
    } else {
        entries_body_doc(es.drop_last()) + ",\n"@ + entry_pair_doc(es.last())
    }
}

/// The entries object.
pub open spec fn entries_obj_doc(es: Seq<(Seq<char>, EntryRep)>) -> Seq<char> {
    if es.len() == 0 {
        "{}"@
    } else {
        "{\n"@ + entries_body_doc(es) + "\n  }"@
    }
}

/// The whole document of a cache content.
pub open spec fn cache_doc(r: CacheRep) -> Seq<char> {
    "{\n  \"metadata\": {\n    \"last_updated\": "@ + dec_of(r.last_updated as nat)
        + ",\n    \"total_entries\": "@ + dec_of(r.total_entries as nat) + "\n  },\n  \"entries\": "@
        + entries_obj_doc(r.entries) + "\n}"@
}

/// The document of a cache value.
pub open spec fn json_of(c: Cache<String>) -> Seq<char> {
    cache_doc(rep_of(c))
}

// ---------------------------------------------------------------------
// The printer.
// ---------------------------------------------------------------------

fn dec_digit_char(d: u64) -> (c: char)
    requires
        d < 10,
    ensures
        c == dec_digit(d as int),
{
    if d == 0 {
        '0'
    } else if d == 1 {
        '1'
    } else if d == 2 {
        '2'
    } else if d == 3 {
        '3'
    } else if d == 4 {
        '4'
    } else if d == 5 {
        '5'
    } else if d == 6 {
        '6'
    } else if d == 7 {
        '7'
    } else if d == 8 {
        '8'
    } else {
        '9'
    }
}

fn hex_digit_char(d: u32) -> (c: char)
    requires
        d < 16,
    ensures
        c == hex_digit(d as int),
{
    if d < 10 {
        dec_digit_char(d as u64)
    } else if d == 10 {
        'a'
    } else if d == 11 {
        'b'
    } else if d == 12 {
        'c'
    } else if d == 13 {
        'd'
    } else if d == 14 {
        'e'
    } else {
        'f'
    }
}

/// Appends the characters of a literal piece.
fn push_lit(out: &mut Vec<char>, s: &str)
    ensures
        final(out)@ == old(out)@ + s@,
{
    let n = s.unicode_len();
    let mut i: usize = 0;
    while i < n
        invariant
            n == s@.len(),
            i <= n,
            out@ =~= old(out)@ + s@.take(i as int),
        decreases n - i,
    {
        out.push(s.get_char(i));
        proof {
            assert(out@ =~= old(out)@ + s@.take(i + 1));
        }
        i = i + 1;
    }
    proof {
        assert(old(out)@ + s@.take(n as int) =~= old(out)@ + s@);
    }
}

/// Appends the decimal form of `n`.
fn push_dec(out: &mut Vec<char>, n: u64)
    ensures
        final(out)@ == old(out)@ + dec_of(n as nat),
    decreases n,
{
    if n >= 10 {
        push_dec(out, n / 10);
        let d = n % 10;
        out.push(dec_digit_char(d));
        proof {
            assert((n / 10) as nat == (n as nat) / 10);
            assert((n % 10) as nat == (n as nat) % 10);
            assert(out@ =~= old(out)@ + dec_of(n as nat));
        }
    } else {
        out.push(dec_digit_char(n));
        proof {
            assert(out@ =~= old(out)@ + dec_of(n as nat));
        }
    }
}

/// Appends the quoted, escaped form of `s`.
fn push_jstr(out: &mut Vec<char>, s: &str)
    ensures
        final(out)@ == old(out)@ + jstr(s@),
{
    let cs = chars_of(s);
    let n = cs.len();
    out.push('"');
    let mut i: usize = 0;
    while i < n
        invariant
            cs@ == s@,
            n == s@.len(),
            i <= n,
            out@ =~= old(out)@ + seq!['"'] + esc(s@.take(i as int)),
        decreases n - i,
    {
        let ghost pre = out@;
        let c = cs[i];
        if c == '"' {
            out.push('\\');
            out.push('"');
        } else if c == '\\' {
            out.push('\\');
            out.push('\\');
        } else if (c as u32) < 32 {
            out.push('\\');
            out.push('u');
            out.push('0');
            out.push('0');
            out.push(hex_digit_char((c as u32) / 16));
            out.push(hex_digit_char((c as u32) % 16));
        } else {
            out.push(c);
        }
        proof {
            assert(out@ =~= pre + esc1(s@[i as int]));
            assert(s@.take(i + 1).drop_last() =~= s@.take(i as int));
            assert(s@.take(i + 1).last() == s@[i as int]);
            assert(esc(s@.take(i + 1)) == esc(s@.take(i as int)) + esc1(s@[i as int]));
            assert(out@ =~= old(out)@ + seq!['"'] + esc(s@.take(i + 1)));
        }
        i = i + 1;
    }
    out.push('"');
    proof {
        assert(s@.take(n as int) =~= s@);
        assert(out@ =~= old(out)@ + jstr(s@));
    }
}

/// Appends the tag object of `tags`.
fn push_tags(out: &mut Vec<char>, tags: &TagMap)
    ensures
        final(out)@ == old(out)@ + tags_obj_doc(tag_rep(tags.pair_seq())),
{
    let n = tags.len();
    if n == 0 {
        push_lit(out, "{}");
        return ;
    }
    push_lit(out, "{\n");
    let ghost tp = tag_rep(tags.pair_seq());
    let ghost head = old(out)@ + "{\n"@;
    let mut i: usize = 0;
    while i < n
        invariant
            n == tags.pair_seq().len(),
            n == tp.len(),
            tp == tag_rep(tags.pair_seq()),
            n > 0,
            i <= n,
            out@ =~= head + tags_body_doc(tp.take(i as int)),
        decreases n - i,
    {
        let ghost pre = out@;
        if i > 0 {
            push_lit(out, ",\n");
        }
        push_lit(out, "        ");
        let p = tags.pair_at(i);
        push_jstr(out, p.0.as_str());
        push_lit(out, ": ");
        push_jstr(out, p.1.as_str());
        proof {
            assert(tp[i as int] == (p.0@, p.1@));
            if i == 0 {
                assert(tags_body_doc(tp.take(1)) == tag_pair_doc(tp[0]));
                assert(out@ =~= head + tags_body_doc(tp.take(i + 1)));
            } else {
                assert(tp.take(i + 1).drop_last() =~= tp.take(i as int));
                assert(tp.take(i + 1).last() == tp[i as int]);
                assert(tags_body_doc(tp.take(i + 1)) == tags_body_doc(tp.take(i as int)) + ",\n"@
                    + tag_pair_doc(tp[i as int]));
                assert(out@ =~= head + tags_body_doc(tp.take(i + 1)));
            }
        }
        i = i + 1;
    }
    push_lit(out, "\n      }");
    proof {
        assert(tp.take(n as int) =~= tp);
        assert(out@ =~= old(out)@ + tags_obj_doc(tp));
    }
}

/// Appends one keyed entry.
fn push_entry(out: &mut Vec<char>, key: &String, e: &CacheEntry<String>)
    ensures
        final(out)@ == old(out)@ + entry_pair_doc((key@, entry_rep(*e))),
{
    push_lit(out, "    ");
    push_jstr(out, key.as_str());
    push_lit(out, ": {\n      \"data\": ");
    push_jstr(out, e.data.as_str());
    push_lit(out, ",\n      \"timestamp\": ");
    push_dec(out, e.timestamp);
    push_lit(out, ",\n      \"metadata\": ");
    push_tags(out, &e.metadata);
    push_lit(out, "\n    }");
    proof {
        assert(out@ =~= old(out)@ + entry_pair_doc((key@, entry_rep(*e))));
    }
}

/// Serializes a cache to its canonical pretty-printed document.
pub fn to_json(cache: &Cache<String>) -> (r: String)
    ensures
        r@ == json_of(*cache),
{
    let mut out: Vec<char> = Vec::new();
    push_lit(&mut out, "{\n  \"metadata\": {\n    \"last_updated\": ");
    push_dec(&mut out, cache.metadata.last_updated);
    push_lit(&mut out, ",\n    \"total_entries\": ");
    push_dec(&mut out, cache.metadata.total_entries as u64);
    push_lit(&mut out, "\n  },\n  \"entries\": ");
    proof {
        assert((cache.metadata.total_entries as u64) as nat == cache.metadata.total_entries as nat);
    }
    let ghost es = rep_of(*cache).entries;
    let n = cache.entries.len();
    if n == 0 {
        push_lit(&mut out, "{}");
        proof {
            assert(es.len() == 0);
        }
    } else {
        push_lit(&mut out, "{\n");
        let ghost head = out@;
        let mut i: usize = 0;
        while i < n
            invariant
                n == cache.entries.pair_seq().len(),
                n == es.len(),
                es == rep_of(*cache).entries,
                n > 0,
                i <= n,
                out@ =~= head + entries_body_doc(es.take(i as int)),
            decreases n - i,
        {
            if i > 0 {
                push_lit(&mut out, ",\n");
            }
            let p = cache.entries.pair_at(i);
            push_entry(&mut out, &p.0, &p.1);
            proof {
                assert(es[i as int] == (p.0@, entry_rep(p.1)));
                if i == 0 {
                    assert(entries_body_doc(es.take(1)) == entry_pair_doc(es[0]));
                } else {
                    assert(es.take(i + 1).drop_last() =~= es.take(i as int));
                    assert(es.take(i + 1).last() == es[i as int]);
                    assert(entries_body_doc(es.take(i + 1)) == entries_body_doc(es.take(i as int))
                        + ",\n"@ + entry_pair_doc(es[i as int]));
                }
                assert(out@ =~= head + entries_body_doc(es.take(i + 1)));
            }
            i = i + 1;
        }
        push_lit(&mut out, "\n  }");
        proof {
            assert(es.take(n as int) =~= es);
        }
    }
    push_lit(&mut out, "\n}");
    proof {
        assert(out@ =~= json_of(*cache));
    }
    crate::text::string_from_chars(&out)
}

// ---------------------------------------------------------------------
// Position reasoning and decimal facts, for the parser.
// ---------------------------------------------------------------------

/// `t` occurs in `s` starting at position `i`.
pub open spec fn begins_at(s: Seq<char>, i: int, t: Seq<char>) -> bool {
    0 <= i && i + t.len() <= s.len() && s.subrange(i, i + t.len()) == t
}

pub proof fn lemma_begins_concat(s: Seq<char>, i: int, a: Seq<char>, b: Seq<char>)
    ensures
        begins_at(s, i, a + b) <==> begins_at(s, i, a) && begins_at(s, i + a.len(), b),
{
    if begins_at(s, i, a + b) {
        assert forall|k: int| 0 <= k < a.len() implies s[i + k] == a[k] by {
            assert(s.subrange(i, i + (a + b).len())[k] == (a + b)[k]);
        }
        assert(s.subrange(i, i + a.len()) =~= a);
        assert forall|k: int| 0 <= k < b.len() implies s[i + a.len() + k] == b[k] by {
            assert(s.subrange(i, i + (a + b).len())[a.len() + k] == (a + b)[a.len() + k]);
        }
        assert(s.subrange(i + a.len(), i + a.len() + b.len()) =~= b);
    }
    if begins_at(s, i, a) && begins_at(s, i + a.len(), b) {
        assert(s.subrange(i, i + (a + b).len()) =~= a + b);
    }
}

pub proof fn lemma_begins_index(s: Seq<char>, i: int, t: Seq<char>, k: int)
    requires
        begins_at(s, i, t),
        0 <= k < t.len(),
    ensures
        s[i + k] == t[k],
{
    assert(s.subrange(i, i + t.len())[k] == t[k]);
}

/// A decimal digit character.
pub open spec fn is_dec_digit(c: char) -> bool {
    48 <= (c as u32) <= 57
}

/// The value of a decimal digit character.
pub open spec fn digit_val(c: char) -> nat {
    if is_dec_digit(c) {
        ((c as u32) - 48) as nat
    } else {
        0
    }
}

/// The number a digit run denotes, read left to right onto `acc`.
pub open spec fn dval(s: Seq<char>, acc: nat) -> nat
    decreases s.len(),
{
    if s.len() == 0 {
        acc
    } else {
        dval(s.drop_first(), acc * 10 + digit_val(s[0]))
    }
}

pub proof fn lemma_dec_digit_val(d: int)
    requires
        0 <= d < 10,
    ensures
        is_dec_digit(dec_digit(d)),
        digit_val(dec_digit(d)) == d,
        d >= 1 ==> dec_digit(d) != '0',
{
}

pub proof fn lemma_dval_single(c: char)
    ensures
        dval(seq![c], 0) == digit_val(c),
{
    assert(seq![c].drop_first() =~= Seq::<char>::empty());
    assert(dval(seq![c], 0) == dval(seq![c].drop_first(), 0 * 10 + digit_val(c)));
    assert(dval(seq![c].drop_first(), 0 * 10 + digit_val(c)) == 0 * 10 + digit_val(c));
}

pub proof fn lemma_digit_nonzero(c: char)
    requires
        is_dec_digit(c),
        c != '0',
    ensures
        digit_val(c) >= 1,
{
    if (c as u32) == 48 {
        assert(c == '0');
    }
}

pub proof fn lemma_digit_char_round(c: char)
    requires
        is_dec_digit(c),
    ensures
        dec_digit(digit_val(c) as int) == c,
{
    let v = c as u32;
    assert(48 <= v <= 57);
    if v == 48 {
        assert(c == '0');
    } else if v == 49 {
        assert(c == '1');
    } else if v == 50 {
        assert(c == '2');
    } else if v == 51 {
        assert(c == '3');
    } else if v == 52 {
        assert(c == '4');
    } else if v == 53 {
        assert(c == '5');
    } else if v == 54 {
        assert(c == '6');
    } else if v == 55 {
        assert(c == '7');
    } else if v == 56 {
        assert(c == '8');
    } else {
        assert(c == '9');
    }
}

pub proof fn lemma_dec_of_digits(n: nat)
    ensures
        dec_of(n).len() >= 1,
        forall|k: int| 0 <= k < dec_of(n).len() ==> is_dec_digit(#[trigger] dec_of(n)[k]),
        n >= 1 ==> dec_of(n)[0] != '0',
    decreases n,
{
    if n < 10 {
        lemma_dec_digit_val(n as int);
    } else {
        lemma_dec_of_digits(n / 10);
        lemma_dec_digit_val((n % 10) as int);
        assert(dec_of(n) == dec_of(n / 10).push(dec_digit((n % 10) as int)));
        assert forall|k: int| 0 <= k < dec_of(n).len() implies is_dec_digit(
            #[trigger] dec_of(n)[k],
        ) by {
            if k < dec_of(n / 10).len() {
                assert(dec_of(n)[k] == dec_of(n / 10)[k]);
            }
        }
        assert(dec_of(n)[0] == dec_of(n / 10)[0]);
    }
}

pub proof fn lemma_dval_push(s: Seq<char>, c: char, acc: nat)
    ensures
        dval(s.push(c), acc) == dval(s, acc) * 10 + digit_val(c),
    decreases s.len(),
{
    if s.len() == 0 {
        assert(s.push(c)[0] == c);
        assert(s.push(c).drop_first() =~= Seq::<char>::empty());
        assert(dval(s.push(c), acc) == dval(s.push(c).drop_first(), acc * 10 + digit_val(c)));
        assert(dval(s.push(c).drop_first(), acc * 10 + digit_val(c)) == acc * 10 + digit_val(c));
        assert(dval(s, acc) == acc);
    } else {
        assert(s.push(c)[0] == s[0]);
        assert(s.push(c).drop_first() =~= s.drop_first().push(c));
        assert(dval(s.push(c), acc) == dval(s.drop_first().push(c), acc * 10 + digit_val(s[0])));
        lemma_dval_push(s.drop_first(), c, acc * 10 + digit_val(s[0]));
        assert(dval(s, acc) == dval(s.drop_first(), acc * 10 + digit_val(s[0])));
    }
}

pub proof fn lemma_dval_dec(n: nat)
    ensures
        dval(dec_of(n), 0) == n,
    decreases n,
{
    if n < 10 {
        lemma_dec_digit_val(n as int);
        assert(dec_of(n) == seq![dec_digit(n as int)]);
        lemma_dval_single(dec_digit(n as int));
    } else {
        lemma_dval_dec(n / 10);
        lemma_dec_digit_val((n % 10) as int);
        lemma_dval_push(dec_of(n / 10), dec_digit((n % 10) as int), 0);
        assert(dval(dec_of(n), 0) == (n / 10) * 10 + (n % 10));
        assert((n / 10) * 10 + (n % 10) == n) by (nonlinear_arith);
    }
}

pub proof fn lemma_dval_ge_acc(s: Seq<char>, acc: nat)
    ensures
        dval(s, acc) >= acc,
    decreases s.len(),
{
    if s.len() > 0 {
        lemma_dval_ge_acc(s.drop_first(), acc * 10 + digit_val(s[0]));
    }
}

/// Canonical digit runs: a nonempty all-digit run without a leading
/// zero (unless it is just "0") prints back to itself.
pub proof fn lemma_dec_canon(s: Seq<char>)
    requires
        s.len() >= 1,
        forall|k: int| 0 <= k < s.len() ==> is_dec_digit(#[trigger] s[k]),
        s[0] != '0' || s.len() == 1,
    ensures
        dec_of(dval(s, 0)) == s,
    decreases s.len(),
{
    if s.len() == 1 {
        assert(s =~= seq![s[0]]);
        lemma_dval_single(s[0]);
        assert(dval(s, 0) == digit_val(s[0]));
        lemma_digit_char_round(s[0]);
        assert(dec_of(dval(s, 0)) =~= s);
    } else {
        let s0 = s.drop_last();
        let c = s.last();
        assert(s0.len() >= 1 && s0[0] == s[0]);
        assert(forall|k: int| 0 <= k < s0.len() ==> is_dec_digit(#[trigger] s0[k])) by {
            assert(forall|k: int| 0 <= k < s0.len() ==> s0[k] == s[k]);
        }
        lemma_dec_canon(s0);
        let m = dval(s0, 0);
        // With a nonzero leading digit, the prefix value is at least 1.
        assert(m >= 1) by {
            assert(dval(s0, 0) == dval(s0.drop_first(), 0 * 10 + digit_val(s0[0])));
            lemma_dval_ge_acc(s0.drop_first(), 0 * 10 + digit_val(s0[0]));
            lemma_digit_nonzero(s0[0]);
        }
        assert(s0.push(c) =~= s);
        lemma_dval_push(s0, c, 0);
        let val = dval(s, 0);
        assert(val == m * 10 + digit_val(c));
        assert(val >= 10) by {
            assert(m * 10 >= 10) by (nonlinear_arith)
                requires
                    m >= 1,
            ;
        }
        assert(val / 10 == m && val % 10 == digit_val(c)) by (nonlinear_arith)
            requires
                val == m * 10 + digit_val(c),
                digit_val(c) < 10,
        ;
        lemma_digit_char_round(c);
        assert(dec_of(val) == dec_of(m).push(dec_digit(digit_val(c) as int)));
        assert(dec_of(val) == s0.push(c));
    }
}

/// Any prefix of a printed number denotes at most the number.
pub proof fn lemma_dec_prefix_bound(n: nat, k: int)
    requires
        0 <= k <= dec_of(n).len(),
    ensures
        dval(dec_of(n).take(k), 0) <= n,
    decreases n,
{
    if k == dec_of(n).len() {
        assert(dec_of(n).take(k) =~= dec_of(n));
        lemma_dval_dec(n);
    } else if n < 10 {
        assert(dec_of(n).take(k) =~= Seq::<char>::empty());
    } else {
        assert(dec_of(n) == dec_of(n / 10).push(dec_digit((n % 10) as int)));
        assert(dec_of(n).take(k) =~= dec_of(n / 10).take(k));
        lemma_dec_prefix_bound(n / 10, k);
    }
}

/// There is no digit at position `j` (or `j` is the end).
pub open spec fn dec_bound(s: Seq<char>, j: int) -> bool {
    j == s.len() || !is_dec_digit(s[j])
}

/// Two numbers printed at the same position with a non-digit boundary
/// are the same number.
pub proof fn lemma_dec_unique(s: Seq<char>, i: int, n: nat, m: nat)
    requires
        begins_at(s, i, dec_of(n)),
        dec_bound(s, i + dec_of(n).len()),
        begins_at(s, i, dec_of(m)),
        dec_bound(s, i + dec_of(m).len()),
    ensures
        n == m,
{
    lemma_dec_of_digits(n);
    lemma_dec_of_digits(m);
    if dec_of(n).len() < dec_of(m).len() {
        let k = dec_of(n).len();
        lemma_begins_index(s, i, dec_of(m), k as int);
        assert(is_dec_digit(s[i + k]));
    } else if dec_of(m).len() < dec_of(n).len() {
        let k = dec_of(m).len();
        lemma_begins_index(s, i, dec_of(n), k as int);
        assert(is_dec_digit(s[i + k]));
    }
    assert(dec_of(n) == dec_of(m));
    lemma_dval_dec(n);
    lemma_dval_dec(m);
}

// ---------------------------------------------------------------------
// The parser: literals and numbers.
// ---------------------------------------------------------------------

/// Consumes exactly the literal `lit` at position `i`, or fails when it
/// is not there.
fn expect_lit(v: &Vec<char>, i: usize, lit: &str) -> (r: Option<usize>)
    requires
        i <= v@.len(),
    ensures
        match r {
            Some(j) => j == i + lit@.len() && begins_at(v@, i as int, lit@),
            None => !begins_at(v@, i as int, lit@),
        },
{
    let cs = chars_of(lit);
    let n = cs.len();
    if n > v.len() - i {
        return None;
    }
    let mut k: usize = 0;
    while k < n
        invariant
            cs@ == lit@,
            n == lit@.len(),
            i + n <= v@.len(),
            v@.len() <= usize::MAX,
            k <= n,
            forall|m: int| 0 <= m < k ==> v@[i + m] == lit@[m],
        decreases n - k,
    {
        if v[i + k] != cs[k] {
            proof {
                if begins_at(v@, i as int, lit@) {
                    lemma_begins_index(v@, i as int, lit@, k as int);
                }
            }
            return None;
        }
        k = k + 1;
    }
    proof {
        assert(v@.subrange(i as int, i + lit@.len()) =~= lit@);
    }
    Some(i + n)
}

fn is_digit_char(c: char) -> (r: bool)
    ensures
        r == is_dec_digit(c),
{
    let u = c as u32;
    48 <= u && u <= 57
}

/// Parses a canonical decimal `u64` at position `i`: a maximal digit
/// run without leading zeros, whose value fits.
fn parse_u64(v: &Vec<char>, i: usize) -> (r: Option<(u64, usize)>)
    requires
        i <= v@.len(),
    ensures
        match r {
            Some(p) => i <= p.1 <= v@.len() && v@.subrange(i as int, p.1 as int) == dec_of(
                p.0 as nat,
            ) && dec_bound(v@, p.1 as int) && (forall|n: u64|
                begins_at(v@, i as int, #[trigger] dec_of(n as nat)) && dec_bound(
                    v@,
                    i + dec_of(n as nat).len(),
                ) ==> n == p.0),
            None => forall|n: u64|
                !(begins_at(v@, i as int, #[trigger] dec_of(n as nat)) && dec_bound(
                    v@,
                    i + dec_of(n as nat).len(),
                )),
        },
{
    if i == v.len() {
        proof {
            assert forall|n: u64|
                !(begins_at(v@, i as int, #[trigger] dec_of(n as nat)) && dec_bound(
                    v@,
                    i + dec_of(n as nat).len(),
                )) by {
                lemma_dec_of_digits(n as nat);
            }
        }
        return None;
    }
    let c0 = v[i];
    if !is_digit_char(c0) {
        proof {
            assert forall|n: u64|
                !(begins_at(v@, i as int, #[trigger] dec_of(n as nat)) && dec_bound(
                    v@,
                    i + dec_of(n as nat).len(),
                )) by {
                lemma_dec_of_digits(n as nat);
                if begins_at(v@, i as int, dec_of(n as nat)) {
                    lemma_begins_index(v@, i as int, dec_of(n as nat), 0);
                }
            }
        }
        return None;
    }
    if c0 == '0' {
        if i + 1 < v.len() && is_digit_char(v[i + 1]) {
            proof {
                assert forall|n: u64|
                    !(begins_at(v@, i as int, #[trigger] dec_of(n as nat)) && dec_bound(
                        v@,
                        i + dec_of(n as nat).len(),
                    )) by {
                    lemma_dec_of_digits(n as nat);
                    if begins_at(v@, i as int, dec_of(n as nat)) && dec_bound(
                        v@,
                        i + dec_of(n as nat).len(),
                    ) {
                        lemma_begins_index(v@, i as int, dec_of(n as nat), 0);
                        assert(dec_of(n as nat)[0] == '0');
                        assert(n == 0);
                        assert(dec_of(0nat) =~= seq![dec_digit(0)]);
                        assert(dec_of(n as nat).len() == 1);
                    }
                }
            }
            return None;
        }
        proof {
            assert(dec_of(0nat) =~= seq![dec_digit(0)]);
            assert(v@.subrange(i as int, i + 1) =~= seq![v@[i as int]]);
            assert(c0 == dec_digit(0));
            assert(begins_at(v@, i as int, dec_of(0nat)));
            assert forall|n: u64|
                begins_at(v@, i as int, #[trigger] dec_of(n as nat)) && dec_bound(
                    v@,
                    i + dec_of(n as nat).len(),
                ) implies n == 0 by {
                lemma_dec_unique(v@, i as int, n as nat, 0nat);
            }
        }
        return Some((0, i + 1));
    }
    let mut acc: u64 = (c0 as u32 - 48) as u64;
    let mut j: usize = i + 1;
    proof {
        assert(v@.subrange(i as int, i + 1) =~= seq![c0]);
        lemma_dval_single(c0);
        assert(dval(v@.subrange(i as int, i + 1), 0) == digit_val(c0));
    }
    while j < v.len() && is_digit_char(v[j])
        invariant
            i < j <= v@.len(),
            forall|m: int| i <= m < j ==> is_dec_digit(#[trigger] v@[m]),
            v@[i as int] != '0',
            acc as nat == dval(v@.subrange(i as int, j as int), 0),
        decreases v@.len() - j,
    {
        let d = (v[j] as u32 - 48) as u64;
        let ghost run = v@.subrange(i as int, j as int);
        proof {
            lemma_dval_push(run, v@[j as int], 0);
            assert(run.push(v@[j as int]) =~= v@.subrange(i as int, j + 1));
        }
        let step = match acc.checked_mul(10) {
            Some(t) => t.checked_add(d),
            None => None,
        };
        match step {
            Some(next) => {
                acc = next;
                j = j + 1;
            },
            None => {
                // The value of this very digit run exceeds `u64`; no
                // number printed here can have a non-digit boundary.
                proof {
                    let over = v@.subrange(i as int, j + 1);
                    assert(dval(over, 0) > u64::MAX);
                    assert forall|n: u64|
                        !(begins_at(v@, i as int, #[trigger] dec_of(n as nat)) && dec_bound(
                            v@,
                            i + dec_of(n as nat).len(),
                        )) by {
                        lemma_dec_of_digits(n as nat);
                        if begins_at(v@, i as int, dec_of(n as nat)) && dec_bound(
                            v@,
                            i + dec_of(n as nat).len(),
                        ) {
                            let dl = dec_of(n as nat).len() as int;
                            // The printed run ends before this position,
                            // else its boundary would be a digit.
                            assert(i + dl >= j + 1) by {
                                if i + dl < j + 1 {
                                    assert(is_dec_digit(v@[i + dl]));
                                }
                            }
                            assert(over =~= dec_of(n as nat).take(j + 1 - i)) by {
                                assert forall|m: int| 0 <= m < j + 1 - i implies over[m] == dec_of(
                                    n as nat,
                                ).take(j + 1 - i)[m] by {
                                    lemma_begins_index(v@, i as int, dec_of(n as nat), m);
                                }
                            }
                            lemma_dec_prefix_bound(n as nat, j + 1 - i);
                            assert(dval(over, 0) <= n as nat);
                        }
                    }
                }
                return None;
            },
        }
    }
    proof {
        let run = v@.subrange(i as int, j as int);
        assert(run.len() >= 1);
        assert(forall|k: int| 0 <= k < run.len() ==> is_dec_digit(#[trigger] run[k]));
        assert(run[0] == v@[i as int]);
        lemma_dec_canon(run);
        assert(dec_of(acc as nat) == run);
        assert(dec_bound(v@, j as int));
        assert(begins_at(v@, i as int, dec_of(acc as nat)));
        assert forall|n: u64|
            begins_at(v@, i as int, #[trigger] dec_of(n as nat)) && dec_bound(
                v@,
                i + dec_of(n as nat).len(),
            ) implies n == acc by {
            lemma_dec_unique(v@, i as int, n as nat, acc as nat);
        }
    }
    Some((acc, j))
}

// ---------------------------------------------------------------------
// Escaping facts, for the string parser.
// ---------------------------------------------------------------------

pub proof fn lemma_esc_concat(a: Seq<char>, b: Seq<char>)
    ensures
        esc(a + b) == esc(a) + esc(b),
    decreases b.len(),
{
    if b.len() == 0 {
        assert(a + b =~= a);
        assert(esc(b) == Seq::<char>::empty());
        assert(esc(a) + esc(b) =~= esc(a));
    } else {
        assert((a + b).drop_last() =~= a + b.drop_last());
        assert((a + b).last() == b.last());
        lemma_esc_concat(a, b.drop_last());
        assert(esc(a + b) == esc(a) + esc(b.drop_last()) + esc1(b.last()));
        assert(esc(a) + esc(b.drop_last()) + esc1(b.last()) =~= esc(a) + (esc(b.drop_last())
            + esc1(b.last())));
    }
}

pub proof fn lemma_esc_first(s: Seq<char>)
    requires
        s.len() >= 1,
    ensures
        esc(s) == esc1(s[0]) + esc(s.drop_first()),
{
    assert(s =~= seq![s[0]] + s.drop_first());
    lemma_esc_concat(seq![s[0]], s.drop_first());
    assert(seq![s[0]].drop_last() =~= Seq::<char>::empty());
    assert(esc(seq![s[0]]) == esc(seq![s[0]].drop_last()) + esc1(s[0]));
    assert(esc(Seq::<char>::empty()) == Seq::<char>::empty());
    assert(esc(seq![s[0]]) =~= esc1(s[0]));
}

/// Two characters with one scalar value are one character.
pub proof fn lemma_char_scalar_eq(c: char, d: char)
    requires
        (c as u32) == (d as u32),
    ensures
        c == d,
{
}

/// What must still follow at the cursor when, of an expected string
/// `t`, the first `acc.len()` characters are already decoded: either
/// the closing quote (all of `t` decoded), or the escaped form of the
/// next character of `t`.
pub proof fn lemma_rest_shape(v: Seq<char>, i: int, j: int, acc: Seq<char>, t: Seq<char>)
    requires
        acc.len() <= t.len(),
        begins_at(v, j, esc(t.skip(acc.len() as int)) + seq!['"']),
    ensures
        acc.len() == t.len() ==> j < v.len() && v[j] == '"',
        acc.len() < t.len() ==> begins_at(v, j, esc1(t[acc.len() as int])) && begins_at(
            v,
            j + esc1(t[acc.len() as int]).len(),
            esc(t.skip(acc.len() as int + 1)) + seq!['"'],
        ),
{
    let k = acc.len() as int;
    if acc.len() == t.len() {
        assert(t.skip(k) =~= Seq::<char>::empty());
        assert(esc(t.skip(k)) == Seq::<char>::empty());
        assert(esc(t.skip(k)) + seq!['"'] =~= seq!['"']);
        lemma_begins_index(v, j, seq!['"'], 0);
    } else {
        lemma_esc_first(t.skip(k));
        assert(t.skip(k)[0] == t[k]);
        assert(t.skip(k).drop_first() =~= t.skip(k + 1));
        assert(esc(t.skip(k)) + seq!['"'] =~= esc1(t[k]) + (esc(t.skip(k + 1)) + seq!['"']));
        lemma_begins_concat(v, j, esc1(t[k]), esc(t.skip(k + 1)) + seq!['"']);
    }
}

// ---------------------------------------------------------------------
// The parser: strings.
// ---------------------------------------------------------------------

/// The value of a lowercase hexadecimal digit character.
fn hex_val(c: char) -> (r: Option<u32>)
    ensures
        match r {
            Some(x) => x < 16 && hex_digit(x as int) == c,
            None => forall|x: int| 0 <= x < 16 ==> hex_digit(x) != c,
        },
{
    let u = c as u32;
    if 48 <= u && u <= 57 {
        Some(u - 48)
    } else if 97 <= u && u <= 102 {
        Some(u - 87)
    } else {
        None
    }
}

/// The control character with scalar value `x`.
fn ctrl_char(x: u32) -> (c: char)
    requires
        x < 32,
    ensures
        (c as u32) == x,
{
    if x == 0 {
        '\u{0}'
    } else if x == 1 {
        '\u{1}'
    } else if x == 2 {
        '\u{2}'
    } else if x == 3 {
        '\u{3}'
    } else if x == 4 {
        '\u{4}'
    } else if x == 5 {
        '\u{5}'
    } else if x == 6 {
        '\u{6}'
    } else if x == 7 {
        '\u{7}'
    } else if x == 8 {
        '\u{8}'
    } else if x == 9 {
        '\u{9}'
    } else if x == 10 {
        '\u{a}'
    } else if x == 11 {
        '\u{b}'
    } else if x == 12 {
        '\u{c}'
    } else if x == 13 {
        '\u{d}'
    } else if x == 14 {
        '\u{e}'
    } else if x == 15 {
        '\u{f}'
    } else if x == 16 {
        '\u{10}'
    } else if x == 17 {
        '\u{11}'
    } else if x == 18 {
        '\u{12}'
    } else if x == 19 {
        '\u{13}'
    } else if x == 20 {
        '\u{14}'
    } else if x == 21 {
        '\u{15}'
    } else if x == 22 {
        '\u{16}'
    } else if x == 23 {
        '\u{17}'
    } else if x == 24 {
        '\u{18}'
    } else if x == 25 {
        '\u{19}'
    } else if x == 26 {
        '\u{1a}'
    } else if x == 27 {
        '\u{1b}'
    } else if x == 28 {
        '\u{1c}'
    } else if x == 29 {
        '\u{1d}'
    } else if x == 30 {
        '\u{1e}'
    } else {
        '\u{1f}'
    }
}

/// Parses a quoted, escaped string at position `i`, returning its
/// decoded characters. Accepts exactly what the printer emits:
/// lowercase `\u00..` for control characters, `\"` and `\\`, every
/// other character standing for itself.
#[verifier::rlimit(100)]
fn parse_jstr(v: &Vec<char>, i: usize) -> (r: Option<(Vec<char>, usize)>)
    requires
        i <= v@.len(),
    ensures
        match r {
            Some(p) => i <= p.1 <= v@.len() && v@.subrange(i as int, p.1 as int) == jstr(p.0@)
                && (forall|t: Seq<char>|
                begins_at(v@, i as int, #[trigger] jstr(t)) ==> t == p.0@),
            None => forall|t: Seq<char>| !begins_at(v@, i as int, #[trigger] jstr(t)),
        },
{
    if i == v.len() || v[i] != '"' {
        proof {
            assert forall|t: Seq<char>| !begins_at(v@, i as int, #[trigger] jstr(t)) by {
                if begins_at(v@, i as int, jstr(t)) {
                    lemma_begins_index(v@, i as int, jstr(t), 0);
                    assert(jstr(t)[0] == '"');
                }
            }
        }
        return None;
    }
    let mut acc: Vec<char> = Vec::new();
    let mut j: usize = i + 1;
    proof {
        assert(v@.subrange(i as int, j as int) =~= seq!['"']);
        assert(esc(acc@) == Seq::<char>::empty());
        assert(v@.subrange(i as int, j as int) =~= seq!['"'] + esc(acc@));
        assert forall|t: Seq<char>|
            begins_at(v@, i as int, #[trigger] jstr(t)) implies acc@.len() <= t.len() && t.take(
            acc@.len() as int,
        ) == acc@ && begins_at(v@, j as int, esc(t.skip(acc@.len() as int)) + seq!['"']) by {
            assert(jstr(t) =~= seq!['"'] + (esc(t) + seq!['"']));
            lemma_begins_concat(v@, i as int, seq!['"'], esc(t) + seq!['"']);
            assert(t.take(0) =~= acc@);
            assert(t.skip(0) =~= t);
        }
    }
    loop
        invariant
            i < j <= v@.len(),
            v@.len() <= usize::MAX,
            v@.subrange(i as int, j as int) == seq!['"'] + esc(acc@),
            forall|t: Seq<char>|
                begins_at(v@, i as int, #[trigger] jstr(t)) ==> acc@.len() <= t.len() && t.take(
                    acc@.len() as int,
                ) == acc@ && begins_at(v@, j as int, esc(t.skip(acc@.len() as int)) + seq!['"']),
        decreases v@.len() - j,
    {
        if j == v.len() {
            proof {
                assert forall|t: Seq<char>| !begins_at(v@, i as int, #[trigger] jstr(t)) by {
                    if begins_at(v@, i as int, jstr(t)) {
                        lemma_rest_shape(v@, i as int, j as int, acc@, t);
                        if acc@.len() < t.len() {
                            let e1 = esc1(t[acc@.len() as int]);
                            assert(begins_at(v@, j as int, e1));
                            assert(e1.len() >= 1);
                        }
                    }
                }
            }
            return None;
        }
        let c = v[j];
        if c == '"' {
            proof {
                assert(v@.subrange(i as int, j + 1) =~= v@.subrange(i as int, j as int) + seq![
                    v@[j as int],
                ]);
                assert(v@.subrange(i as int, j + 1) =~= seq!['"'] + esc(acc@) + seq!['"']);
                assert(jstr(acc@) =~= seq!['"'] + esc(acc@) + seq!['"']);
                assert forall|t: Seq<char>|
                    begins_at(v@, i as int, #[trigger] jstr(t)) implies t == acc@ by {
                    lemma_rest_shape(v@, i as int, j as int, acc@, t);
                    assert(acc@.len() == t.len()) by {
                        if acc@.len() < t.len() {
                            let e1 = esc1(t[acc@.len() as int]);
                            lemma_begins_index(v@, j as int, e1, 0);
                        }
                    }
                    assert(t.take(acc@.len() as int) =~= t);
                }
            }
            return Some((acc, j + 1));
        }
        if c == '\\' {
            if v.len() - j < 2 {
                proof {
                    assert forall|t: Seq<char>| !begins_at(v@, i as int, #[trigger] jstr(t)) by {
                        if begins_at(v@, i as int, jstr(t)) {
                            lemma_rest_shape(v@, i as int, j as int, acc@, t);
                            if acc@.len() < t.len() {
                                let e1 = esc1(t[acc@.len() as int]);
                                lemma_begins_index(v@, j as int, e1, 0);
                                if e1.len() >= 2 {
                                    lemma_begins_index(v@, j as int, e1, 1);
                                }
                            }
                        }
                    }
                }
                return None;
            }
            let e = v[j + 1];
            if e == '"' || e == '\\' {
                let ghost oacc = acc@;
                let ghost oj = j as int;
                let decoded = if e == '"' {
                    '"'
                } else {
                    '\\'
                };
                acc.push(decoded);
                j = j + 2;
                proof {
                    assert(esc1(decoded) =~= seq!['\\', decoded]);
                    assert(acc@ == oacc.push(decoded));
                    assert(acc@.drop_last() =~= oacc);
                    assert(esc(acc@) == esc(oacc) + esc1(decoded));
                    assert(v@.subrange(i as int, j as int) =~= v@.subrange(i as int, oj) + seq![
                        v@[oj],
                        v@[oj + 1],
                    ]);
                    assert(v@.subrange(i as int, j as int) =~= seq!['"'] + esc(acc@));
                    assert forall|t: Seq<char>|
                        begins_at(v@, i as int, #[trigger] jstr(t)) implies acc@.len() <= t.len()
                        && t.take(acc@.len() as int) == acc@ && begins_at(
                        v@,
                        j as int,
                        esc(t.skip(acc@.len() as int)) + seq!['"'],
                    ) by {
                        lemma_rest_shape(v@, i as int, oj, oacc, t);
                        assert(oacc.len() < t.len()) by {
                            if oacc.len() == t.len() {
                                assert(v@[oj] == '"');
                            }
                        }
                        let k = oacc.len() as int;
                        let e1 = esc1(t[k]);
                        lemma_begins_index(v@, oj, e1, 0);
                        assert(t[k] == decoded) by {
                            if (t[k] as u32) < 32 {
                                lemma_begins_index(v@, oj, e1, 1);
                                assert(e1[1] == 'u');
                            } else if t[k] != '"' && t[k] != '\\' {
                                assert(e1[0] == t[k]);
                            } else {
                                lemma_begins_index(v@, oj, e1, 1);
                                assert(e1[1] == t[k]);
                            }
                        }
                        assert(e1.len() == 2);
                        assert(t.take(k + 1) =~= oacc.push(decoded));
                        assert(begins_at(
                            v@,
                            oj + 2,
                            esc(t.skip(k + 1)) + seq!['"'],
                        ));
                    }
                }
            } else if e == 'u' {
                if v.len() - j < 6 {
                    proof {
                        assert forall|t: Seq<char>| !begins_at(
                            v@,
                            i as int,
                            #[trigger] jstr(t),
                        ) by {
                            if begins_at(v@, i as int, jstr(t)) {
                                lemma_rest_shape(v@, i as int, j as int, acc@, t);
                                if acc@.len() < t.len() {
                                    let e1 = esc1(t[acc@.len() as int]);
                                    lemma_begins_index(v@, j as int, e1, 0);
                                    if e1.len() >= 2 {
                                        lemma_begins_index(v@, j as int, e1, 1);
                                    }
                                }
                            }
                        }
                    }
                    return None;
                }
                let okay = v[j + 2] == '0' && v[j + 3] == '0';
                let h1 = if okay {
                    hex_val(v[j + 4])
                } else {
                    None
                };
                let h2 = if okay {
                    hex_val(v[j + 5])
                } else {
                    None
                };
                let mut good = false;
                let mut val: u32 = 0;
                match (h1, h2) {
                    (Some(a), Some(b)) => {
                        val = a * 16 + b;
                        good = val < 32;
                    },
                    _ => {},
                }
                if !good {
                    proof {
                        assert forall|t: Seq<char>| !begins_at(
                            v@,
                            i as int,
                            #[trigger] jstr(t),
                        ) by {
                            if begins_at(v@, i as int, jstr(t)) {
                                lemma_rest_shape(v@, i as int, j as int, acc@, t);
                                if acc@.len() < t.len() {
                                    let k = acc@.len() as int;
                                    let e1 = esc1(t[k]);
                                    lemma_begins_index(v@, j as int, e1, 0);
                                    if e1.len() >= 2 {
                                        lemma_begins_index(v@, j as int, e1, 1);
                                    }
                                    // only the control escape fits '\\' then 'u'
                                    assert((t[k] as u32) < 32);
                                    let x = t[k] as u32;
                                    lemma_begins_index(v@, j as int, e1, 2);
                                    lemma_begins_index(v@, j as int, e1, 3);
                                    lemma_begins_index(v@, j as int, e1, 4);
                                    lemma_begins_index(v@, j as int, e1, 5);
                                    assert(v@[j + 2] == '0' && v@[j + 3] == '0');
                                    assert(v@[j + 4] == hex_digit((x / 16) as int));
                                    assert(v@[j + 5] == hex_digit((x % 16) as int));
                                    assert(x / 16 < 16 && x % 16 < 16);
                                    match (h1, h2) {
                                        (Some(a), Some(b)) => {
                                            assert(hex_digit(a as int) == hex_digit(
                                                (x / 16) as int,
                                            ));
                                            assert(hex_digit(b as int) == hex_digit(
                                                (x % 16) as int,
                                            ));
                                            assert(a == x / 16 && b == x % 16);
                                            assert(a * 16 + b == x) by (nonlinear_arith)
                                                requires
                                                    a == x / 16,
                                                    b == x % 16,
                                                    x < 32,
                                            ;
                                        },
                                        _ => {},
                                    }
                                }
                            }
                        }
                    }
                    return None;
                }
                let decoded = ctrl_char(val);
                let ghost oacc = acc@;
                let ghost oj = j as int;
                acc.push(decoded);
                j = j + 6;
                proof {
                    let a = (h1->0) as u32;
                    let b = (h2->0) as u32;
                    assert(val == a * 16 + b);
                    assert(val / 16 == a && val % 16 == b) by (nonlinear_arith)
                        requires
                            val == a * 16 + b,
                            b < 16,
                    ;
                    assert((decoded as u32) == val);
                    assert(decoded != '"' && decoded != '\\');
                    assert(esc1(decoded) =~= seq![
                        '\\',
                        'u',
                        '0',
                        '0',
                        hex_digit((val / 16) as int),
                        hex_digit((val % 16) as int),
                    ]);
                    assert(v@[oj + 4] == hex_digit((val / 16) as int));
                    assert(v@[oj + 5] == hex_digit((val % 16) as int));
                    assert(acc@ == oacc.push(decoded));
                    assert(acc@.drop_last() =~= oacc);
                    assert(esc(acc@) == esc(oacc) + esc1(decoded));
                    assert(v@.subrange(i as int, j as int) =~= v@.subrange(i as int, oj) + seq![
                        v@[oj],
                        v@[oj + 1],
                        v@[oj + 2],
                        v@[oj + 3],
                        v@[oj + 4],
                        v@[oj + 5],
                    ]);
                    assert(v@.subrange(i as int, j as int) =~= seq!['"'] + esc(acc@));
                    assert forall|t: Seq<char>|
                        begins_at(v@, i as int, #[trigger] jstr(t)) implies acc@.len() <= t.len()
                        && t.take(acc@.len() as int) == acc@ && begins_at(
                        v@,
                        j as int,
                        esc(t.skip(acc@.len() as int)) + seq!['"'],
                    ) by {
                        lemma_rest_shape(v@, i as int, oj, oacc, t);
                        assert(oacc.len() < t.len()) by {
                            if oacc.len() == t.len() {
                                assert(v@[oj] == '"');
                            }
                        }
                        let k = oacc.len() as int;
                        let e1 = esc1(t[k]);
                        lemma_begins_index(v@, oj, e1, 0);
                        assert((t[k] as u32) < 32) by {
                            if t[k] == '"' || t[k] == '\\' {
                                lemma_begins_index(v@, oj, e1, 1);
                                assert(e1[1] == t[k]);
                            } else if (t[k] as u32) >= 32 {
                                assert(e1[0] == t[k]);
                            }
                        }
                        let x = t[k] as u32;
                        lemma_begins_index(v@, oj, e1, 4);
                        lemma_begins_index(v@, oj, e1, 5);
                        assert(hex_digit((x / 16) as int) == hex_digit((val / 16) as int));
                        assert(hex_digit((x % 16) as int) == hex_digit((val % 16) as int));
                        assert(x / 16 < 16 && x % 16 < 16 && val / 16 < 16 && val % 16 < 16);
                        assert(x / 16 == val / 16 && x % 16 == val % 16);
                        assert(x == val) by (nonlinear_arith)
                            requires
                                x / 16 == val / 16,
                                x % 16 == val % 16,
                        ;
                        lemma_char_scalar_eq(t[k], decoded);
                        assert(t[k] == decoded);
                        assert(e1.len() == 6);
                        assert(t.take(k + 1) =~= oacc.push(decoded));
                        assert(begins_at(
                            v@,
                            oj + 6,
                            esc(t.skip(k + 1)) + seq!['"'],
                        ));
                    }
                }
            } else {
                proof {
                    assert forall|t: Seq<char>| !begins_at(v@, i as int, #[trigger] jstr(t)) by {
                        if begins_at(v@, i as int, jstr(t)) {
                            lemma_rest_shape(v@, i as int, j as int, acc@, t);
                            if acc@.len() < t.len() {
                                let e1 = esc1(t[acc@.len() as int]);
                                lemma_begins_index(v@, j as int, e1, 0);
                                if e1.len() >= 2 {
                                    lemma_begins_index(v@, j as int, e1, 1);
                                }
                            }
                        }
                    }
                }
                return None;
            }
        } else if (c as u32) < 32 {
            proof {
                assert forall|t: Seq<char>| !begins_at(v@, i as int, #[trigger] jstr(t)) by {
                    if begins_at(v@, i as int, jstr(t)) {
                        lemma_rest_shape(v@, i as int, j as int, acc@, t);
                        if acc@.len() < t.len() {
                            let e1 = esc1(t[acc@.len() as int]);
                            lemma_begins_index(v@, j as int, e1, 0);
                        }
                    }
                }
            }
            return None;
        } else {
            let ghost oacc = acc@;
            let ghost oj = j as int;
            acc.push(c);
            j = j + 1;
            proof {
                assert(esc1(c) =~= seq![c]);
                assert(acc@ == oacc.push(c));
                assert(acc@.drop_last() =~= oacc);
                assert(esc(acc@) == esc(oacc) + esc1(c));
                assert(v@.subrange(i as int, j as int) =~= v@.subrange(i as int, oj) + seq![
                    v@[oj],
                ]);
                assert(v@.subrange(i as int, j as int) =~= seq!['"'] + esc(acc@));
                assert forall|t: Seq<char>|
                    begins_at(v@, i as int, #[trigger] jstr(t)) implies acc@.len() <= t.len()
                    && t.take(acc@.len() as int) == acc@ && begins_at(
                    v@,
                    j as int,
                    esc(t.skip(acc@.len() as int)) + seq!['"'],
                ) by {
                    lemma_rest_shape(v@, i as int, oj, oacc, t);
                    assert(oacc.len() < t.len()) by {
                        if oacc.len() == t.len() {
                            assert(v@[oj] == '"');
                        }
                    }
                    let k = oacc.len() as int;
                    let e1 = esc1(t[k]);
                    lemma_begins_index(v@, oj, e1, 0);
                    assert(t[k] == c) by {
                        if t[k] == '"' || t[k] == '\\' || (t[k] as u32) < 32 {
                            assert(e1[0] == '\\');
                        } else {
                            assert(e1[0] == t[k]);
                        }
                    }
                    assert(e1.len() == 1);
                    assert(t.take(k + 1) =~= oacc.push(c));
                    assert(begins_at(v@, oj + 1, esc(t.skip(k + 1)) + seq!['"']));
                }
            }
        }
    }
}


// ---------------------------------------------------------------------
// The parser: tag objects.
// ---------------------------------------------------------------------

pub proof fn lemma_tags_body_head(s: Seq<(Seq<char>, Seq<char>)>)
    requires
        s.len() >= 1,
    ensures
        tags_body_doc(s) == tag_pair_doc(s[0]) + (if s.len() > 1 {
            ",\n"@ + tags_body_doc(s.drop_first())
        } else {
            Seq::<char>::empty()
        }),
    decreases s.len(),
{
    if s.len() == 1 {
        assert(tag_pair_doc(s[0]) + Seq::<char>::empty() =~= tag_pair_doc(s[0]));
    } else {
        let dl = s.drop_last();
        lemma_tags_body_head(dl);
        assert(dl[0] == s[0]);
        if s.len() == 2 {
            assert(tags_body_doc(dl) == tag_pair_doc(s[0]) + Seq::<char>::empty());
            assert(tags_body_doc(dl) =~= tag_pair_doc(s[0]));
            assert(s.drop_first().len() == 1);
            assert(s.drop_first()[0] == s[1] && s[1] == s.last());
            assert(tags_body_doc(s.drop_first()) == tag_pair_doc(s.last()));
            assert(tags_body_doc(s) == tag_pair_doc(s[0]) + ",\n"@ + tag_pair_doc(s.last()));
            assert(tag_pair_doc(s[0]) + ",\n"@ + tag_pair_doc(s.last()) =~= tag_pair_doc(s[0]) + (
            ",\n"@ + tags_body_doc(s.drop_first())));
        } else {
            let df = s.drop_first();
            assert(df.len() >= 2);
            assert(df.drop_last() =~= dl.drop_first());
            assert(df.last() == s.last());
            assert(tags_body_doc(df) == tags_body_doc(dl.drop_first()) + ",\n"@ + tag_pair_doc(
                s.last(),
            ));
            assert(tags_body_doc(s) == tags_body_doc(dl) + ",\n"@ + tag_pair_doc(s.last()));
            assert(tags_body_doc(dl) == tag_pair_doc(s[0]) + (",\n"@ + tags_body_doc(
                dl.drop_first(),
            )));
            assert(tag_pair_doc(s[0]) + (",\n"@ + tags_body_doc(dl.drop_first())) + ",\n"@
                + tag_pair_doc(s.last()) =~= tag_pair_doc(s[0]) + (",\n"@ + tags_body_doc(df)));
        }
    }
}

/// What must still follow once the first `n` tag pairs of an expected
/// tag object are consumed: the remaining pairs and the closing brace.
pub open spec fn tags_tail(tp: Seq<(Seq<char>, Seq<char>)>, n: int) -> Seq<char> {
    tags_body_doc(tp.skip(n)) + "\n      }"@
}

/// Splits the tail at pair `n` into the printed pair and what follows.
pub proof fn lemma_tags_tail_step(v: Seq<char>, j: int, tp: Seq<(Seq<char>, Seq<char>)>, n: int)
    requires
        0 <= n < tp.len(),
        begins_at(v, j, tags_tail(tp, n)),
    ensures
        begins_at(v, j, tag_pair_doc(tp[n])),
        begins_at(
            v,
            j + tag_pair_doc(tp[n]).len(),
            if n + 1 < tp.len() {
                ",\n"@ + tags_tail(tp, n + 1)
            } else {
                "\n      }"@
            },
        ),
{
    let sk = tp.skip(n);
    lemma_tags_body_head(sk);
    assert(sk[0] == tp[n]);
    assert(sk.drop_first() =~= tp.skip(n + 1));
    let rest = if n + 1 < tp.len() {
        ",\n"@ + tags_tail(tp, n + 1)
    } else {
        "\n      }"@
    };
    assert(tags_tail(tp, n) =~= tag_pair_doc(tp[n]) + rest) by {
        if n + 1 < tp.len() {
            assert(tags_body_doc(sk) == tag_pair_doc(tp[n]) + (",\n"@ + tags_body_doc(
                tp.skip(n + 1),
            )));
        } else {
            assert(tags_body_doc(sk) == tag_pair_doc(tp[n]) + Seq::<char>::empty());
        }
    }
    lemma_begins_concat(v, j, tag_pair_doc(tp[n]), rest);
}

/// Parses one indented `"key": "value"` tag line.
#[verifier::rlimit(100)]
fn parse_tag_pair(v: &Vec<char>, i: usize) -> (r: Option<((String, String), usize)>)
    requires
        i <= v@.len(),
    ensures
        match r {
            Some(p) => {
                &&& i <= p.1 <= v@.len()
                &&& v@.subrange(i as int, p.1 as int) == tag_pair_doc(((p.0).0@, (p.0).1@))
                &&& forall|q: (Seq<char>, Seq<char>)|
                    begins_at(v@, i as int, #[trigger] tag_pair_doc(q)) ==> q == ((p.0).0@, (
                    p.0).1@)
            },
            None => forall|q: (Seq<char>, Seq<char>)|
                !begins_at(v@, i as int, #[trigger] tag_pair_doc(q)),
        },
{
    proof {
        assert forall|q: (Seq<char>, Seq<char>)|
            begins_at(v@, i as int, #[trigger] tag_pair_doc(q)) implies begins_at(
            v@,
            i as int,
            "        "@,
        ) && begins_at(v@, i + "        "@.len(), jstr(q.0)) && begins_at(
            v@,
            i + "        "@.len() + jstr(q.0).len(),
            ": "@,
        ) && begins_at(v@, i + "        "@.len() + jstr(q.0).len() + ": "@.len(), jstr(q.1)) by {
            assert(tag_pair_doc(q) =~= "        "@ + (jstr(q.0) + (": "@ + jstr(q.1))));
            lemma_begins_concat(v@, i as int, "        "@, jstr(q.0) + (": "@ + jstr(q.1)));
            lemma_begins_concat(v@, i + "        "@.len(), jstr(q.0), ": "@ + jstr(q.1));
            lemma_begins_concat(v@, i + "        "@.len() + jstr(q.0).len(), ": "@, jstr(q.1));
        }
    }
    let j2 = match expect_lit(v, i, "        ") {
        Some(t) => t,
        None => {
            return None;
        },
    };
    let (kc, j3) = match parse_jstr(v, j2) {
        Some(p) => p,
        None => {
            return None;
        },
    };
    let j4 = match expect_lit(v, j3, ": ") {
        Some(t) => t,
        None => {
            proof {
                assert forall|q: (Seq<char>, Seq<char>)| !begins_at(
                    v@,
                    i as int,
                    #[trigger] tag_pair_doc(q),
                ) by {
                    if begins_at(v@, i as int, tag_pair_doc(q)) {
                        assert(q.0 == kc@);
                    }
                }
            }
            return None;
        },
    };
    let (vc, j5) = match parse_jstr(v, j4) {
        Some(p) => p,
        None => {
            proof {
                assert forall|q: (Seq<char>, Seq<char>)| !begins_at(
                    v@,
                    i as int,
                    #[trigger] tag_pair_doc(q),
                ) by {
                    if begins_at(v@, i as int, tag_pair_doc(q)) {
                        assert(q.0 == kc@);
                    }
                }
            }
            return None;
        },
    };
    let key_s = crate::text::string_from_chars(&kc);
    let val_s = crate::text::string_from_chars(&vc);
    proof {
        assert(v@.subrange(i as int, j5 as int) =~= "        "@ + jstr(kc@) + ": "@ + jstr(vc@))
            by {
            assert(v@.subrange(i as int, j2 as int) == "        "@);
            assert(v@.subrange(j2 as int, j3 as int) == jstr(kc@));
            assert(v@.subrange(j3 as int, j4 as int) == ": "@);
            assert(v@.subrange(j4 as int, j5 as int) == jstr(vc@));
            assert(v@.subrange(i as int, j5 as int) =~= v@.subrange(i as int, j2 as int)
                + v@.subrange(j2 as int, j3 as int) + v@.subrange(j3 as int, j4 as int)
                + v@.subrange(j4 as int, j5 as int));
        }
        assert(v@.subrange(i as int, j5 as int) == tag_pair_doc((key_s@, val_s@)));
        assert forall|q: (Seq<char>, Seq<char>)|
            begins_at(v@, i as int, #[trigger] tag_pair_doc(q)) implies q == (key_s@, val_s@) by {
            assert(q.0 == kc@);
            assert(q.1 == vc@);
        }
    }
    Some(((key_s, val_s), j5))
}

/// Parses a tag object at position `i`: `{}`, or tag lines between
/// braces. Rejects duplicate keys, so the result is well-formed.
#[verifier::rlimit(100)]
fn parse_tags(v: &Vec<char>, i: usize) -> (r: Option<(TagMap, usize)>)
    requires
        i <= v@.len(),
    ensures
        match r {
            Some(p) => {
                &&& p.0.wf()
                &&& i <= p.1 <= v@.len()
                &&& v@.subrange(i as int, p.1 as int) == tags_obj_doc(tag_rep(p.0.pair_seq()))
                &&& forall|tp: Seq<(Seq<char>, Seq<char>)>|
                    rep_unique(tp) && begins_at(v@, i as int, #[trigger] tags_obj_doc(tp)) ==> tp
                        == tag_rep(p.0.pair_seq())
            },
            None => forall|tp: Seq<(Seq<char>, Seq<char>)>|
                rep_unique(tp) ==> !begins_at(v@, i as int, #[trigger] tags_obj_doc(tp)),
        },
{
    proof {
            reveal_strlit(",\n");
            reveal_strlit("\n      }");
            reveal_strlit("{\n");
            reveal_strlit("{}");
        reveal_strlit(",\n");
        reveal_strlit("\n      }");
        reveal_strlit("{\n");
        reveal_strlit("{}");
    }
    match expect_lit(v, i, "{}") {
        Some(j) => {
            let tm = TagMap::new();
            proof {
            reveal_strlit(",\n");
            reveal_strlit("\n      }");
            reveal_strlit("{\n");
            reveal_strlit("{}");
                assert(tag_rep(tm.pair_seq()) =~= Seq::<(Seq<char>, Seq<char>)>::empty());
                assert(tags_obj_doc(tag_rep(tm.pair_seq())) == "{}"@);
                assert forall|tp: Seq<(Seq<char>, Seq<char>)>|
                    rep_unique(tp) && begins_at(v@, i as int, #[trigger] tags_obj_doc(tp)) implies tp
                    == tag_rep(tm.pair_seq()) by {
                        reveal_strlit(",\n");
                        reveal_strlit("\n      }");
                        reveal_strlit("{\n");
                        reveal_strlit("{}");
                    if tp.len() > 0 {
                        assert(tags_obj_doc(tp) =~= "{\n"@ + (tags_body_doc(tp) + "\n      }"@));
                        lemma_begins_index(v@, i as int, tags_obj_doc(tp), 1);
                        lemma_begins_index(v@, i as int, "{}"@, 1);
                        assert(tags_obj_doc(tp)[1] == '\n');
                        assert(v@[i + 1] == '\n' && v@[i + 1] == '}');
                    }
                    assert(tp =~= tag_rep(tm.pair_seq()));
                }
            }
            return Some((tm, j));
        },
        None => {},
    }
    let j1 = match expect_lit(v, i, "{\n") {
        Some(j) => j,
        None => {
            proof {
            reveal_strlit(",\n");
            reveal_strlit("\n      }");
            reveal_strlit("{\n");
            reveal_strlit("{}");
                assert forall|tp: Seq<(Seq<char>, Seq<char>)>| rep_unique(tp) implies !begins_at(
                    v@,
                    i as int,
                    #[trigger] tags_obj_doc(tp),
                ) by {
                        reveal_strlit(",\n");
                        reveal_strlit("\n      }");
                        reveal_strlit("{\n");
                        reveal_strlit("{}");
                    if begins_at(v@, i as int, tags_obj_doc(tp)) {
                        if tp.len() == 0 {
                            assert(begins_at(v@, i as int, "{}"@));
                        } else {
                            assert(tags_obj_doc(tp) =~= "{\n"@ + (tags_body_doc(tp)
                                + "\n      }"@));
                            lemma_begins_concat(
                                v@,
                                i as int,
                                "{\n"@,
                                tags_body_doc(tp) + "\n      }"@,
                            );
                        }
                    }
                }
            }
            return None;
        },
    };
    let mut tm = TagMap::new();
    let mut j: usize = j1;
    let vl = v.len();
    proof {
            reveal_strlit(",\n");
            reveal_strlit("\n      }");
            reveal_strlit("{\n");
            reveal_strlit("{}");
        assert(v@.len() == vl);
        assert(v@.subrange(i as int, j as int) == "{\n"@);
        assert(tag_rep(tm.pair_seq()) =~= Seq::<(Seq<char>, Seq<char>)>::empty());
        assert forall|tp: Seq<(Seq<char>, Seq<char>)>|
            rep_unique(tp) && begins_at(v@, i as int, #[trigger] tags_obj_doc(tp)) implies tag_rep(
            tm.pair_seq(),
        ).len() < tp.len() && tp.take(tag_rep(tm.pair_seq()).len() as int) == tag_rep(tm.pair_seq())
            && begins_at(v@, j as int, tags_tail(tp, tag_rep(tm.pair_seq()).len() as int)) by {
                        reveal_strlit(",\n");
                        reveal_strlit("\n      }");
                        reveal_strlit("{\n");
                        reveal_strlit("{}");
            if tp.len() == 0 {
                lemma_begins_index(v@, i as int, tags_obj_doc(tp), 1);
                lemma_begins_index(v@, i as int, "{\n"@, 1);
            } else {
                assert(tags_obj_doc(tp) =~= "{\n"@ + (tags_body_doc(tp) + "\n      }"@));
                lemma_begins_concat(v@, i as int, "{\n"@, tags_body_doc(tp) + "\n      }"@);
                assert(tp.skip(0) =~= tp);
                assert(begins_at(v@, j as int, tags_tail(tp, 0)));
            }
            assert(tp.take(0) =~= tag_rep(tm.pair_seq()));
        }
    }
    loop
        invariant
            i + 2 <= j <= v@.len(),
            v@.len() <= usize::MAX,
            tm.wf(),
            v@.subrange(i as int, j as int) == "{\n"@ + (if tag_rep(tm.pair_seq()).len() == 0 {
                Seq::<char>::empty()
            } else {
                tags_body_doc(tag_rep(tm.pair_seq())) + ",\n"@
            }),
            forall|tp: Seq<(Seq<char>, Seq<char>)>|
                rep_unique(tp) && begins_at(v@, i as int, #[trigger] tags_obj_doc(tp)) ==> tag_rep(
                    tm.pair_seq(),
                ).len() < tp.len() && tp.take(tag_rep(tm.pair_seq()).len() as int) == tag_rep(
                    tm.pair_seq(),
                ) && begins_at(v@, j as int, tags_tail(tp, tag_rep(tm.pair_seq()).len() as int)),
        decreases v@.len() - j,
    {
        let ghost cur = tag_rep(tm.pair_seq());
        let ghost n = cur.len() as int;
        let ghost head = v@.subrange(i as int, j as int);
        let (kv, j5) = match parse_tag_pair(v, j) {
            Some(p) => p,
            None => {
                proof {
            reveal_strlit(",\n");
            reveal_strlit("\n      }");
            reveal_strlit("{\n");
            reveal_strlit("{}");
                    assert forall|tp: Seq<(Seq<char>, Seq<char>)>| rep_unique(tp)
                        implies !begins_at(v@, i as int, #[trigger] tags_obj_doc(tp)) by {
                        reveal_strlit(",\n");
                        reveal_strlit("\n      }");
                        reveal_strlit("{\n");
                        reveal_strlit("{}");
                        if begins_at(v@, i as int, tags_obj_doc(tp)) {
                            lemma_tags_tail_step(v@, j as int, tp, n);
                        }
                    }
                }
                return None;
            },
        };
        let (key_s, val_s) = kv;
        if tm.contains_key(key_s.as_str()) {
            proof {
            reveal_strlit(",\n");
            reveal_strlit("\n      }");
            reveal_strlit("{\n");
            reveal_strlit("{}");
                crate::keyed::lemma_map_of_contains(tm.pair_seq(), key_s@);
                assert forall|tp: Seq<(Seq<char>, Seq<char>)>| rep_unique(tp) implies !begins_at(
                    v@,
                    i as int,
                    #[trigger] tags_obj_doc(tp),
                ) by {
                        reveal_strlit(",\n");
                        reveal_strlit("\n      }");
                        reveal_strlit("{\n");
                        reveal_strlit("{}");
                    if begins_at(v@, i as int, tags_obj_doc(tp)) {
                        lemma_tags_tail_step(v@, j as int, tp, n);
                        assert(tp[n] == (key_s@, val_s@));
                        let m = choose|m: int|
                            0 <= m < tm.pair_seq().len() && tm.pair_seq()[m].0@ == key_s@;
                        assert(cur[m].0 == key_s@);
                        assert(tp[m] == cur[m]) by {
                        reveal_strlit(",\n");
                        reveal_strlit("\n      }");
                        reveal_strlit("{\n");
                        reveal_strlit("{}");
                            assert(tp.take(n)[m] == cur[m]);
                        }
                        assert(tp[m].0 == tp[n].0);
                    }
                }
            }
            return None;
        }
        let ghost opairs = tm.pair_seq();
        tm.insert(key_s, val_s);
        proof {
            reveal_strlit(",\n");
            reveal_strlit("\n      }");
            reveal_strlit("{\n");
            reveal_strlit("{}");
            assert(tm.pair_seq() =~= opairs.push((key_s, val_s)));
            assert(tag_rep(tm.pair_seq()) =~= cur.push((key_s@, val_s@)));
            assert(tag_rep(tm.pair_seq()).len() == n + 1);
            assert(tags_body_doc(tag_rep(tm.pair_seq())) == (if n == 0 {
                Seq::<char>::empty()
            } else {
                tags_body_doc(cur) + ",\n"@
            }) + tag_pair_doc((key_s@, val_s@))) by {
                        reveal_strlit(",\n");
                        reveal_strlit("\n      }");
                        reveal_strlit("{\n");
                        reveal_strlit("{}");
                let now = tag_rep(tm.pair_seq());
                assert(now.drop_last() =~= cur);
                assert(now.last() == (key_s@, val_s@));
                if n == 0 {
                    assert(now.len() == 1);
                    assert(tags_body_doc(now) == tag_pair_doc(now[0]));
                    assert(Seq::<char>::empty() + tag_pair_doc((key_s@, val_s@)) =~= tag_pair_doc(
                        (key_s@, val_s@),
                    ));
                } else {
                    assert(tags_body_doc(now) == tags_body_doc(cur) + ",\n"@ + tag_pair_doc(
                        (key_s@, val_s@),
                    ));
                }
            }
            assert(v@.subrange(i as int, j5 as int) =~= head + v@.subrange(j as int, j5 as int));
            assert(v@.subrange(i as int, j5 as int) =~= "{\n"@ + tags_body_doc(
                tag_rep(tm.pair_seq()),
            ));
        }
        if j5 < v.len() && v[j5] == ',' {
            let j6 = match expect_lit(v, j5, ",\n") {
                Some(t) => t,
                None => {
                    proof {
            reveal_strlit(",\n");
            reveal_strlit("\n      }");
            reveal_strlit("{\n");
            reveal_strlit("{}");
                        assert forall|tp: Seq<(Seq<char>, Seq<char>)>| rep_unique(tp)
                            implies !begins_at(v@, i as int, #[trigger] tags_obj_doc(tp)) by {
                        reveal_strlit(",\n");
                        reveal_strlit("\n      }");
                        reveal_strlit("{\n");
                        reveal_strlit("{}");
                            if begins_at(v@, i as int, tags_obj_doc(tp)) {
                                lemma_tags_tail_step(v@, j as int, tp, n);
                                assert(tp[n] == (key_s@, val_s@));
                                if n + 1 < tp.len() {
                                    lemma_begins_concat(
                                        v@,
                                        j5 as int,
                                        ",\n"@,
                                        tags_tail(tp, n + 1),
                                    );
                                } else {
                                    lemma_begins_index(v@, j5 as int, "\n      }"@, 0);
                                }
                            }
                        }
                    }
                    return None;
                },
            };
            proof {
            reveal_strlit(",\n");
            reveal_strlit("\n      }");
            reveal_strlit("{\n");
            reveal_strlit("{}");
                assert(v@.subrange(i as int, j6 as int) =~= v@.subrange(i as int, j5 as int)
                    + ",\n"@);
                assert(v@.subrange(i as int, j6 as int) =~= "{\n"@ + (tags_body_doc(
                    tag_rep(tm.pair_seq()),
                ) + ",\n"@));
                assert forall|tp: Seq<(Seq<char>, Seq<char>)>|
                    rep_unique(tp) && begins_at(v@, i as int, #[trigger] tags_obj_doc(tp)) implies
                    tag_rep(tm.pair_seq()).len() < tp.len() && tp.take(
                    tag_rep(tm.pair_seq()).len() as int,
                ) == tag_rep(tm.pair_seq()) && begins_at(
                    v@,
                    j6 as int,
                    tags_tail(tp, tag_rep(tm.pair_seq()).len() as int),
                ) by {
                        reveal_strlit(",\n");
                        reveal_strlit("\n      }");
                        reveal_strlit("{\n");
                        reveal_strlit("{}");
                    lemma_tags_tail_step(v@, j as int, tp, n);
                    assert(tp[n] == (key_s@, val_s@));
                    assert(n + 1 < tp.len()) by {
                        reveal_strlit(",\n");
                        reveal_strlit("\n      }");
                        reveal_strlit("{\n");
                        reveal_strlit("{}");
                        if n + 1 == tp.len() {
                            lemma_begins_index(v@, j5 as int, "\n      }"@, 0);
                            assert(v@[j5 as int] == '\n');
                        }
                    }
                    lemma_begins_concat(v@, j5 as int, ",\n"@, tags_tail(tp, n + 1));
                    assert(tp.take(n + 1) =~= tp.take(n).push(tp[n]));
                    assert(tp.take(n + 1) == tag_rep(tm.pair_seq()));
                }
            }
            j = j6;
        } else {
            let jend = match expect_lit(v, j5, "\n      }") {
                Some(t) => t,
                None => {
                    proof {
            reveal_strlit(",\n");
            reveal_strlit("\n      }");
            reveal_strlit("{\n");
            reveal_strlit("{}");
                        assert forall|tp: Seq<(Seq<char>, Seq<char>)>| rep_unique(tp)
                            implies !begins_at(v@, i as int, #[trigger] tags_obj_doc(tp)) by {
                        reveal_strlit(",\n");
                        reveal_strlit("\n      }");
                        reveal_strlit("{\n");
                        reveal_strlit("{}");
                            if begins_at(v@, i as int, tags_obj_doc(tp)) {
                                lemma_tags_tail_step(v@, j as int, tp, n);
                                assert(tp[n] == (key_s@, val_s@));
                                if n + 1 < tp.len() {
                                    lemma_begins_concat(
                                        v@,
                                        j5 as int,
                                        ",\n"@,
                                        tags_tail(tp, n + 1),
                                    );
                                    lemma_begins_index(v@, j5 as int, ",\n"@, 0);
                                }
                            }
                        }
                    }
                    return None;
                },
            };
            proof {
            reveal_strlit(",\n");
            reveal_strlit("\n      }");
            reveal_strlit("{\n");
            reveal_strlit("{}");
                let now = tag_rep(tm.pair_seq());
                assert(v@.subrange(i as int, jend as int) =~= v@.subrange(i as int, j5 as int)
                    + "\n      }"@);
                assert(now.len() > 0);
                assert(v@.subrange(i as int, jend as int) =~= "{\n"@ + tags_body_doc(now)
                    + "\n      }"@);
                assert(v@.subrange(i as int, jend as int) == tags_obj_doc(now));
                assert forall|tp: Seq<(Seq<char>, Seq<char>)>|
                    rep_unique(tp) && begins_at(v@, i as int, #[trigger] tags_obj_doc(tp)) implies tp
                    == now by {
                    lemma_tags_tail_step(v@, j as int, tp, n);
                    assert(tp[n] == (key_s@, val_s@));
                    assert(n + 1 == tp.len()) by {
                        reveal_strlit(",\n");
                        reveal_strlit("\n      }");
                        reveal_strlit("{\n");
                        reveal_strlit("{}");
                        if n + 1 < tp.len() {
                            lemma_begins_concat(v@, j5 as int, ",\n"@, tags_tail(tp, n + 1));
                            lemma_begins_index(v@, j5 as int, ",\n"@, 0);
                            assert(v@[j5 as int] == ',');
                        }
                    }
                    assert(tp =~= tp.take(n + 1));
                    assert(tp.take(n + 1) =~= tp.take(n).push(tp[n]));
                    assert(tp == now);
                }
            }
            return Some((tm, jend));
        }
    }
}

// ---------------------------------------------------------------------
// The parser: entry objects.
// ---------------------------------------------------------------------

/// A well-formed expected entry sequence: unique entry keys and unique
/// tag keys within each entry.
pub open spec fn entries_rep_wf(es: Seq<(Seq<char>, EntryRep)>) -> bool {
    rep_unique(es) && forall|k: int| 0 <= k < es.len() ==> rep_unique((#[trigger] es[k]).1.tags)
}

#[verifier::rlimit(100)]
pub proof fn lemma_entries_body_head(s: Seq<(Seq<char>, EntryRep)>)
    requires
        s.len() >= 1,
    ensures
        entries_body_doc(s) == entry_pair_doc(s[0]) + (if s.len() > 1 {
            ",\n"@ + entries_body_doc(s.drop_first())
        } else {
            Seq::<char>::empty()
        }),
    decreases s.len(),
{
    if s.len() == 1 {
        assert(entry_pair_doc(s[0]) + Seq::<char>::empty() =~= entry_pair_doc(s[0]));
    } else {
        let dl = s.drop_last();
        lemma_entries_body_head(dl);
        assert(dl[0] == s[0]);
        if s.len() == 2 {
            assert(entries_body_doc(dl) == entry_pair_doc(s[0]) + Seq::<char>::empty());
            assert(entries_body_doc(dl) =~= entry_pair_doc(s[0]));
            assert(s.drop_first().len() == 1);
            assert(s.drop_first()[0] == s[1] && s[1] == s.last());
            assert(entries_body_doc(s.drop_first()) == entry_pair_doc(s.last()));
            assert(entries_body_doc(s) == entry_pair_doc(s[0]) + ",\n"@ + entry_pair_doc(
                s.last(),
            ));
            assert(entry_pair_doc(s[0]) + ",\n"@ + entry_pair_doc(s.last()) =~= entry_pair_doc(
                s[0],
            ) + (",\n"@ + entries_body_doc(s.drop_first())));
        } else {
            let df = s.drop_first();
            assert(df.len() >= 2);
            assert(df.drop_last() =~= dl.drop_first());
            assert(df.last() == s.last());
            assert(entries_body_doc(df) == entries_body_doc(dl.drop_first()) + ",\n"@
                + entry_pair_doc(s.last()));
            assert(entries_body_doc(s) == entries_body_doc(dl) + ",\n"@ + entry_pair_doc(
                s.last(),
            ));
            assert(entries_body_doc(dl) == entry_pair_doc(s[0]) + (",\n"@ + entries_body_doc(
                dl.drop_first(),
            )));
            assert(entry_pair_doc(s[0]) + (",\n"@ + entries_body_doc(dl.drop_first())) + ",\n"@
                + entry_pair_doc(s.last()) =~= entry_pair_doc(s[0]) + (",\n"@ + entries_body_doc(
                df,
            )));
        }
    }
}

/// What must still follow once the first `n` entries of an expected
/// entry object are consumed.
pub open spec fn entries_tail(es: Seq<(Seq<char>, EntryRep)>, n: int) -> Seq<char> {
    entries_body_doc(es.skip(n)) + "\n  }"@
}

pub proof fn lemma_entries_tail_step(v: Seq<char>, j: int, es: Seq<(Seq<char>, EntryRep)>, n: int)
    requires
        0 <= n < es.len(),
        begins_at(v, j, entries_tail(es, n)),
    ensures
        begins_at(v, j, entry_pair_doc(es[n])),
        begins_at(
            v,
            j + entry_pair_doc(es[n]).len(),
            if n + 1 < es.len() {
                ",\n"@ + entries_tail(es, n + 1)
            } else {
                "\n  }"@
            },
        ),
{
    let sk = es.skip(n);
    lemma_entries_body_head(sk);
    assert(sk[0] == es[n]);
    assert(sk.drop_first() =~= es.skip(n + 1));
    let rest = if n + 1 < es.len() {
        ",\n"@ + entries_tail(es, n + 1)
    } else {
        "\n  }"@
    };
    assert(entries_tail(es, n) =~= entry_pair_doc(es[n]) + rest) by {
        if n + 1 < es.len() {
            assert(entries_body_doc(sk) == entry_pair_doc(es[n]) + (",\n"@ + entries_body_doc(
                es.skip(n + 1),
            )));
        } else {
            assert(entries_body_doc(sk) == entry_pair_doc(es[n]) + Seq::<char>::empty());
        }
    }
    lemma_begins_concat(v, j, entry_pair_doc(es[n]), rest);
}

/// The opening of a printed entry: indent, quoted key, and the data
/// and timestamp fields, up to and including the metadata label.
pub open spec fn entry_head_doc(k: Seq<char>, d: Seq<char>, ts: u64) -> Seq<char> {
    "    "@ + jstr(k) + ": {\n      \"data\": "@ + jstr(d) + ",\n      \"timestamp\": "@ + dec_of(
        ts as nat,
    ) + ",\n      \"metadata\": "@
}

/// A printed entry is its opening, its tag object, and its closing.
pub proof fn lemma_entry_doc_parts(q: (Seq<char>, EntryRep))
    ensures
        entry_pair_doc(q) == entry_head_doc(q.0, q.1.data, q.1.timestamp) + tags_obj_doc(q.1.tags)
            + "\n    }"@,
{
    assert(entry_pair_doc(q) =~= entry_head_doc(q.0, q.1.data, q.1.timestamp) + tags_obj_doc(
        q.1.tags,
    ) + "\n    }"@);
}

/// Splits a printed entry opening into its pieces.
pub proof fn lemma_entry_head_split(v: Seq<char>, i: int, k: Seq<char>, d: Seq<char>, ts: u64)
    requires
        begins_at(v, i, entry_head_doc(k, d, ts)),
    ensures
        begins_at(v, i, "    "@),
        begins_at(v, i + "    "@.len(), jstr(k)),
        begins_at(v, i + "    "@.len() + jstr(k).len(), ": {\n      \"data\": "@),
        begins_at(
            v,
            i + "    "@.len() + jstr(k).len() + ": {\n      \"data\": "@.len(),
            jstr(d),
        ),
        begins_at(
            v,
            i + "    "@.len() + jstr(k).len() + ": {\n      \"data\": "@.len() + jstr(d).len(),
            ",\n      \"timestamp\": "@,
        ),
        begins_at(
            v,
            i + "    "@.len() + jstr(k).len() + ": {\n      \"data\": "@.len() + jstr(d).len()
                + ",\n      \"timestamp\": "@.len(),
            dec_of(ts as nat),
        ),
        begins_at(
            v,
            i + "    "@.len() + jstr(k).len() + ": {\n      \"data\": "@.len() + jstr(d).len()
                + ",\n      \"timestamp\": "@.len() + dec_of(ts as nat).len(),
            ",\n      \"metadata\": "@,
        ),
{
    let r1 = jstr(k) + (": {\n      \"data\": "@ + (jstr(d) + (",\n      \"timestamp\": "@ + (
    dec_of(ts as nat) + ",\n      \"metadata\": "@))));
    assert(entry_head_doc(k, d, ts) =~= "    "@ + r1);
    lemma_begins_concat(v, i, "    "@, r1);
    let p1 = i + "    "@.len();
    lemma_begins_concat(
        v,
        p1,
        jstr(k),
        ": {\n      \"data\": "@ + (jstr(d) + (",\n      \"timestamp\": "@ + (dec_of(ts as nat)
            + ",\n      \"metadata\": "@))),
    );
    let p2 = p1 + jstr(k).len();
    lemma_begins_concat(
        v,
        p2,
        ": {\n      \"data\": "@,
        jstr(d) + (",\n      \"timestamp\": "@ + (dec_of(ts as nat) + ",\n      \"metadata\": "@)),
    );
    let p3 = p2 + ": {\n      \"data\": "@.len();
    lemma_begins_concat(
        v,
        p3,
        jstr(d),
        ",\n      \"timestamp\": "@ + (dec_of(ts as nat) + ",\n      \"metadata\": "@),
    );
    let p4 = p3 + jstr(d).len();
    lemma_begins_concat(
        v,
        p4,
        ",\n      \"timestamp\": "@,
        dec_of(ts as nat) + ",\n      \"metadata\": "@,
    );
    let p5 = p4 + ",\n      \"timestamp\": "@.len();
    lemma_begins_concat(v, p5, dec_of(ts as nat), ",\n      \"metadata\": "@);
}

/// Parses an entry opening: the indented quoted key, the quoted data,
/// and the timestamp, consuming through the metadata label.
#[verifier::rlimit(100)]
fn parse_entry_head(v: &Vec<char>, i: usize) -> (r: Option<((Vec<char>, Vec<char>, u64), usize)>)
    requires
        i <= v@.len(),
    ensures
        match r {
            Some(p) => {
                &&& i <= p.1 <= v@.len()
                &&& v@.subrange(i as int, p.1 as int) == entry_head_doc(
                    (p.0).0@,
                    (p.0).1@,
                    (p.0).2,
                )
                &&& forall|k: Seq<char>, d: Seq<char>, ts: u64|
                    begins_at(v@, i as int, #[trigger] entry_head_doc(k, d, ts)) ==> k == (p.0).0@
                        && d == (p.0).1@ && ts == (p.0).2
            },
            None => forall|k: Seq<char>, d: Seq<char>, ts: u64|
                !begins_at(v@, i as int, #[trigger] entry_head_doc(k, d, ts)),
        },
{
    let j1 = match expect_lit(v, i, "    ") {
        Some(t) => t,
        None => {
            proof {
                assert forall|k: Seq<char>, d: Seq<char>, ts: u64| !begins_at(
                    v@,
                    i as int,
                    #[trigger] entry_head_doc(k, d, ts),
                ) by {
                    if begins_at(v@, i as int, entry_head_doc(k, d, ts)) {
                        lemma_entry_head_split(v@, i as int, k, d, ts);
                    }
                }
            }
            return None;
        },
    };
    let (kc, j2) = match parse_jstr(v, j1) {
        Some(p) => p,
        None => {
            proof {
                assert forall|k: Seq<char>, d: Seq<char>, ts: u64| !begins_at(
                    v@,
                    i as int,
                    #[trigger] entry_head_doc(k, d, ts),
                ) by {
                    if begins_at(v@, i as int, entry_head_doc(k, d, ts)) {
                        lemma_entry_head_split(v@, i as int, k, d, ts);
                    }
                }
            }
            return None;
        },
    };
    let j3 = match expect_lit(v, j2, ": {\n      \"data\": ") {
        Some(t) => t,
        None => {
            proof {
                assert forall|k: Seq<char>, d: Seq<char>, ts: u64| !begins_at(
                    v@,
                    i as int,
                    #[trigger] entry_head_doc(k, d, ts),
                ) by {
                    if begins_at(v@, i as int, entry_head_doc(k, d, ts)) {
                        lemma_entry_head_split(v@, i as int, k, d, ts);
                        assert(k == kc@);
                    }
                }
            }
            return None;
        },
    };
    let (dc, j4) = match parse_jstr(v, j3) {
        Some(p) => p,
        None => {
            proof {
                assert forall|k: Seq<char>, d: Seq<char>, ts: u64| !begins_at(
                    v@,
                    i as int,
                    #[trigger] entry_head_doc(k, d, ts),
                ) by {
                    if begins_at(v@, i as int, entry_head_doc(k, d, ts)) {
                        lemma_entry_head_split(v@, i as int, k, d, ts);
                        assert(k == kc@);
                    }
                }
            }
            return None;
        },
    };
    let j5 = match expect_lit(v, j4, ",\n      \"timestamp\": ") {
        Some(t) => t,
        None => {
            proof {
                assert forall|k: Seq<char>, d: Seq<char>, ts: u64| !begins_at(
                    v@,
                    i as int,
                    #[trigger] entry_head_doc(k, d, ts),
                ) by {
                    if begins_at(v@, i as int, entry_head_doc(k, d, ts)) {
                        lemma_entry_head_split(v@, i as int, k, d, ts);
                        assert(k == kc@ && d == dc@);
                    }
                }
            }
            return None;
        },
    };
    let (ts0, j6) = match parse_u64(v, j5) {
        Some(p) => p,
        None => {
            proof {
                reveal_strlit(",\n      \"metadata\": ");
                assert forall|k: Seq<char>, d: Seq<char>, ts: u64| !begins_at(
                    v@,
                    i as int,
                    #[trigger] entry_head_doc(k, d, ts),
                ) by {
                    if begins_at(v@, i as int, entry_head_doc(k, d, ts)) {
                        lemma_entry_head_split(v@, i as int, k, d, ts);
                        assert(k == kc@ && d == dc@);
                        let p6 = j5 + dec_of(ts as nat).len();
                        lemma_begins_index(v@, p6, ",\n      \"metadata\": "@, 0);
                        assert(v@[p6] == ',');
                        assert(!is_dec_digit(','));
                        assert(dec_bound(v@, p6));
                    }
                }
            }
            return None;
        },
    };
    let j7 = match expect_lit(v, j6, ",\n      \"metadata\": ") {
        Some(t) => t,
        None => {
            proof {
                reveal_strlit(",\n      \"metadata\": ");
                assert forall|k: Seq<char>, d: Seq<char>, ts: u64| !begins_at(
                    v@,
                    i as int,
                    #[trigger] entry_head_doc(k, d, ts),
                ) by {
                    if begins_at(v@, i as int, entry_head_doc(k, d, ts)) {
                        lemma_entry_head_split(v@, i as int, k, d, ts);
                        assert(k == kc@ && d == dc@);
                        let p6 = j5 + dec_of(ts as nat).len();
                        lemma_begins_index(v@, p6, ",\n      \"metadata\": "@, 0);
                        assert(!is_dec_digit(','));
                        assert(ts == ts0);
                        assert(p6 == j6);
                    }
                }
            }
            return None;
        },
    };
    proof {
        reveal_strlit(",\n      \"metadata\": ");
        assert(v@.subrange(i as int, j7 as int) == entry_head_doc(kc@, dc@, ts0)) by {
            assert(v@.subrange(i as int, j1 as int) == "    "@);
            assert(v@.subrange(j1 as int, j2 as int) == jstr(kc@));
            assert(v@.subrange(j2 as int, j3 as int) == ": {\n      \"data\": "@);
            assert(v@.subrange(j3 as int, j4 as int) == jstr(dc@));
            assert(v@.subrange(j4 as int, j5 as int) == ",\n      \"timestamp\": "@);
            assert(v@.subrange(j5 as int, j6 as int) == dec_of(ts0 as nat));
            assert(v@.subrange(j6 as int, j7 as int) == ",\n      \"metadata\": "@);
            assert(v@.subrange(i as int, j2 as int) =~= v@.subrange(i as int, j1 as int)
                + v@.subrange(j1 as int, j2 as int));
            assert(v@.subrange(i as int, j3 as int) =~= v@.subrange(i as int, j2 as int)
                + v@.subrange(j2 as int, j3 as int));
            assert(v@.subrange(i as int, j4 as int) =~= v@.subrange(i as int, j3 as int)
                + v@.subrange(j3 as int, j4 as int));
            assert(v@.subrange(i as int, j5 as int) =~= v@.subrange(i as int, j4 as int)
                + v@.subrange(j4 as int, j5 as int));
            assert(v@.subrange(i as int, j6 as int) =~= v@.subrange(i as int, j5 as int)
                + v@.subrange(j5 as int, j6 as int));
            assert(v@.subrange(i as int, j7 as int) =~= v@.subrange(i as int, j6 as int)
                + v@.subrange(j6 as int, j7 as int));
            assert(v@.subrange(i as int, j7 as int) =~= entry_head_doc(kc@, dc@, ts0));
        }
        assert forall|k: Seq<char>, d: Seq<char>, ts: u64|
            begins_at(v@, i as int, #[trigger] entry_head_doc(k, d, ts)) implies k == kc@ && d
            == dc@ && ts == ts0 by {
            lemma_entry_head_split(v@, i as int, k, d, ts);
            assert(k == kc@ && d == dc@);
            let p6 = j5 + dec_of(ts as nat).len();
            lemma_begins_index(v@, p6, ",\n      \"metadata\": "@, 0);
            assert(!is_dec_digit(','));
            assert(ts == ts0);
        }
    }
    Some(((kc, dc, ts0), j7))
}

/// Parses one keyed entry: its opening, its tag object and its
/// closing brace.
#[verifier::rlimit(100)]
fn parse_entry_pair(v: &Vec<char>, i: usize) -> (r: Option<((String, CacheEntry<String>), usize)>)
    requires
        i <= v@.len(),
    ensures
        match r {
            Some(p) => {
                &&& (p.0).1.metadata.wf()
                &&& i <= p.1 <= v@.len()
                &&& v@.subrange(i as int, p.1 as int) == entry_pair_doc(
                    ((p.0).0@, entry_rep((p.0).1)),
                )
                &&& forall|q: (Seq<char>, EntryRep)|
                    rep_unique(q.1.tags) && begins_at(v@, i as int, #[trigger] entry_pair_doc(q))
                        ==> q == ((p.0).0@, entry_rep((p.0).1))
            },
            None => forall|q: (Seq<char>, EntryRep)|
                rep_unique(q.1.tags) ==> !begins_at(v@, i as int, #[trigger] entry_pair_doc(q)),
        },
{
    let (head, j7) = match parse_entry_head(v, i) {
        Some(p) => p,
        None => {
            proof {
                assert forall|q: (Seq<char>, EntryRep)| rep_unique(q.1.tags) implies !begins_at(
                    v@,
                    i as int,
                    #[trigger] entry_pair_doc(q),
                ) by {
                    if begins_at(v@, i as int, entry_pair_doc(q)) {
                        lemma_entry_doc_parts(q);
                        lemma_begins_concat(
                            v@,
                            i as int,
                            entry_head_doc(q.0, q.1.data, q.1.timestamp),
                            tags_obj_doc(q.1.tags) + "\n    }"@,
                        );
                        assert(begins_at(v@, i as int, entry_pair_doc(q)) == begins_at(
                            v@,
                            i as int,
                            entry_head_doc(q.0, q.1.data, q.1.timestamp) + (tags_obj_doc(q.1.tags)
                                + "\n    }"@),
                        )) by {
                            assert(entry_pair_doc(q) =~= entry_head_doc(
                                q.0,
                                q.1.data,
                                q.1.timestamp,
                            ) + (tags_obj_doc(q.1.tags) + "\n    }"@));
                        }
                        lemma_begins_concat(
                            v@,
                            i as int,
                            entry_head_doc(q.0, q.1.data, q.1.timestamp),
                            tags_obj_doc(q.1.tags) + "\n    }"@,
                        );
                    }
                }
            }
            return None;
        },
    };
    let (kc, dc, ts0) = head;
    let (tm, j8) = match parse_tags(v, j7) {
        Some(p) => p,
        None => {
            proof {
                assert forall|q: (Seq<char>, EntryRep)| rep_unique(q.1.tags) implies !begins_at(
                    v@,
                    i as int,
                    #[trigger] entry_pair_doc(q),
                ) by {
                    if begins_at(v@, i as int, entry_pair_doc(q)) {
                        lemma_entry_doc_parts(q);
                        assert(entry_pair_doc(q) =~= entry_head_doc(q.0, q.1.data, q.1.timestamp)
                            + (tags_obj_doc(q.1.tags) + "\n    }"@));
                        lemma_begins_concat(
                            v@,
                            i as int,
                            entry_head_doc(q.0, q.1.data, q.1.timestamp),
                            tags_obj_doc(q.1.tags) + "\n    }"@,
                        );
                        assert(q.0 == kc@ && q.1.data == dc@ && q.1.timestamp == ts0);
                        lemma_begins_concat(v@, j7 as int, tags_obj_doc(q.1.tags), "\n    }"@);
                    }
                }
            }
            return None;
        },
    };
    let j9 = match expect_lit(v, j8, "\n    }") {
        Some(t) => t,
        None => {
            proof {
                assert forall|q: (Seq<char>, EntryRep)| rep_unique(q.1.tags) implies !begins_at(
                    v@,
                    i as int,
                    #[trigger] entry_pair_doc(q),
                ) by {
                    if begins_at(v@, i as int, entry_pair_doc(q)) {
                        lemma_entry_doc_parts(q);
                        assert(entry_pair_doc(q) =~= entry_head_doc(q.0, q.1.data, q.1.timestamp)
                            + (tags_obj_doc(q.1.tags) + "\n    }"@));
                        lemma_begins_concat(
                            v@,
                            i as int,
                            entry_head_doc(q.0, q.1.data, q.1.timestamp),
                            tags_obj_doc(q.1.tags) + "\n    }"@,
                        );
                        assert(q.0 == kc@ && q.1.data == dc@ && q.1.timestamp == ts0);
                        lemma_begins_concat(v@, j7 as int, tags_obj_doc(q.1.tags), "\n    }"@);
                        assert(q.1.tags == tag_rep(tm.pair_seq()));
                        assert(begins_at(v@, j8 as int, "\n    }"@));
                    }
                }
            }
            return None;
        },
    };
    let data_s = crate::text::string_from_chars(&dc);
    let key_s = crate::text::string_from_chars(&kc);
    let entry = CacheEntry { data: data_s, timestamp: ts0, metadata: tm };
    proof {
        let er = entry_rep(entry);
        assert(v@.subrange(i as int, j9 as int) == entry_pair_doc((key_s@, er))) by {
            assert(v@.subrange(i as int, j7 as int) == entry_head_doc(kc@, dc@, ts0));
            assert(v@.subrange(j7 as int, j8 as int) == tags_obj_doc(er.tags));
            assert(v@.subrange(j8 as int, j9 as int) == "\n    }"@);
            assert(v@.subrange(i as int, j8 as int) =~= v@.subrange(i as int, j7 as int)
                + v@.subrange(j7 as int, j8 as int));
            assert(v@.subrange(i as int, j9 as int) =~= v@.subrange(i as int, j8 as int)
                + v@.subrange(j8 as int, j9 as int));
            lemma_entry_doc_parts((key_s@, er));
            assert(v@.subrange(i as int, j9 as int) =~= entry_head_doc(kc@, dc@, ts0)
                + tags_obj_doc(er.tags) + "\n    }"@);
        }
        assert forall|q: (Seq<char>, EntryRep)|
            rep_unique(q.1.tags) && begins_at(v@, i as int, #[trigger] entry_pair_doc(q)) implies q
            == (key_s@, entry_rep(entry)) by {
            lemma_entry_doc_parts(q);
            assert(entry_pair_doc(q) =~= entry_head_doc(q.0, q.1.data, q.1.timestamp) + (
            tags_obj_doc(q.1.tags) + "\n    }"@));
            lemma_begins_concat(
                v@,
                i as int,
                entry_head_doc(q.0, q.1.data, q.1.timestamp),
                tags_obj_doc(q.1.tags) + "\n    }"@,
            );
            assert(q.0 == kc@ && q.1.data == dc@ && q.1.timestamp == ts0);
            lemma_begins_concat(v@, j7 as int, tags_obj_doc(q.1.tags), "\n    }"@);
            assert(q.1.tags == tag_rep(tm.pair_seq()));
            assert(q.1 =~= entry_rep(entry));
        }
    }
    Some(((key_s, entry), j9))
}

/// Once the parsed pair at the cursor is known to match any expected
/// pair printed there, the expected sequence is pinned down one step
/// further, and what follows is either a separator or the closing.
pub proof fn lemma_entries_advance(
    v: Seq<char>,
    i: int,
    j: int,
    j5: int,
    cur: Seq<(Seq<char>, EntryRep)>,
    p: (Seq<char>, EntryRep),
    es: Seq<(Seq<char>, EntryRep)>,
)
    requires
        entries_rep_wf(es),
        cur.len() < es.len(),
        es.take(cur.len() as int) == cur,
        begins_at(v, j, entries_tail(es, cur.len() as int)),
        forall|q: (Seq<char>, EntryRep)|
            rep_unique(q.1.tags) && begins_at(v, j, #[trigger] entry_pair_doc(q)) ==> q == p,
        j5 == j + entry_pair_doc(p).len(),
    ensures
        es[cur.len() as int] == p,
        es.take(cur.len() as int + 1) == cur.push(p),
        cur.len() + 1 < es.len() ==> begins_at(v, j5, ",\n"@ + entries_tail(es, cur.len() as int + 1)),
        cur.len() + 1 == es.len() ==> begins_at(v, j5, "\n  }"@),
{
    let n = cur.len() as int;
    lemma_entries_tail_step(v, j, es, n);
    assert(rep_unique(es[n].1.tags));
    assert(es[n] == p);
    assert(es.take(n + 1) =~= cur.push(p));
}

/// Parses the entries object: `{}`, or keyed entries between braces.
/// Rejects duplicate keys, so the result is well-formed.
#[verifier::rlimit(100)]
#[verifier::spinoff_prover]
fn parse_entries(v: &Vec<char>, i: usize) -> (r: Option<(KeyedVec<CacheEntry<String>>, usize)>)
    requires
        i <= v@.len(),
    ensures
        match r {
            Some(p) => {
                &&& p.0.wf()
                &&& forall|m: int|
                    0 <= m < p.0.pair_seq().len() ==> (#[trigger] p.0.pair_seq()[m]).1.metadata.wf()
                &&& i <= p.1 <= v@.len()
                &&& v@.subrange(i as int, p.1 as int) == entries_obj_doc(
                    entries_rep(p.0.pair_seq()),
                )
                &&& forall|es: Seq<(Seq<char>, EntryRep)>|
                    entries_rep_wf(es) && begins_at(v@, i as int, #[trigger] entries_obj_doc(es))
                        ==> es == entries_rep(p.0.pair_seq())
            },
            None => forall|es: Seq<(Seq<char>, EntryRep)>|
                entries_rep_wf(es) ==> !begins_at(v@, i as int, #[trigger] entries_obj_doc(es)),
        },
{
    match expect_lit(v, i, "{}") {
        Some(j) => {
            let em = KeyedVec::<CacheEntry<String>>::new();
            proof {
                reveal_strlit("{}");
                reveal_strlit("{\n");
                assert(entries_rep(em.pair_seq()) =~= Seq::<(Seq<char>, EntryRep)>::empty());
                assert(entries_obj_doc(entries_rep(em.pair_seq())) == "{}"@);
                assert forall|es: Seq<(Seq<char>, EntryRep)>|
                    entries_rep_wf(es) && begins_at(v@, i as int, #[trigger] entries_obj_doc(es))
                        implies es == entries_rep(em.pair_seq()) by {
                    if es.len() > 0 {
                        assert(entries_obj_doc(es) =~= "{\n"@ + (entries_body_doc(es) + "\n  }"@));
                        lemma_begins_index(v@, i as int, entries_obj_doc(es), 1);
                        lemma_begins_index(v@, i as int, "{}"@, 1);
                        assert(entries_obj_doc(es)[1] == '\n');
                        assert(v@[i + 1] == '\n' && v@[i + 1] == '}');
                    }
                    assert(es =~= entries_rep(em.pair_seq()));
                }
            }
            return Some((em, j));
        },
        None => {},
    }
    let j1 = match expect_lit(v, i, "{\n") {
        Some(j) => j,
        None => {
            proof {
                reveal_strlit("{}");
                reveal_strlit("{\n");
                assert forall|es: Seq<(Seq<char>, EntryRep)>| entries_rep_wf(es)
                    implies !begins_at(v@, i as int, #[trigger] entries_obj_doc(es)) by {
                    if begins_at(v@, i as int, entries_obj_doc(es)) {
                        if es.len() == 0 {
                            assert(begins_at(v@, i as int, "{}"@));
                        } else {
                            assert(entries_obj_doc(es) =~= "{\n"@ + (entries_body_doc(es)
                                + "\n  }"@));
                            lemma_begins_concat(
                                v@,
                                i as int,
                                "{\n"@,
                                entries_body_doc(es) + "\n  }"@,
                            );
                        }
                    }
                }
            }
            return None;
        },
    };
    let mut em = KeyedVec::<CacheEntry<String>>::new();
    let mut j: usize = j1;
    let vl = v.len();
    proof {
        reveal_strlit("{\n");
        assert(v@.len() == vl);
        assert(v@.subrange(i as int, j as int) == "{\n"@);
        assert(entries_rep(em.pair_seq()) =~= Seq::<(Seq<char>, EntryRep)>::empty());
        assert forall|es: Seq<(Seq<char>, EntryRep)>|
            entries_rep_wf(es) && begins_at(v@, i as int, #[trigger] entries_obj_doc(es)) implies
            entries_rep(em.pair_seq()).len() < es.len() && es.take(
            entries_rep(em.pair_seq()).len() as int,
        ) == entries_rep(em.pair_seq()) && begins_at(
            v@,
            j as int,
            entries_tail(es, entries_rep(em.pair_seq()).len() as int),
        ) by {
            if es.len() == 0 {
                lemma_begins_index(v@, i as int, entries_obj_doc(es), 1);
                lemma_begins_index(v@, i as int, "{\n"@, 1);
            } else {
                assert(entries_obj_doc(es) =~= "{\n"@ + (entries_body_doc(es) + "\n  }"@));
                lemma_begins_concat(v@, i as int, "{\n"@, entries_body_doc(es) + "\n  }"@);
                assert(es.skip(0) =~= es);
                assert(begins_at(v@, j as int, entries_tail(es, 0)));
            }
            assert(es.take(0) =~= entries_rep(em.pair_seq()));
        }
    }
    loop
        invariant
            i + 2 <= j <= v@.len(),
            v@.len() <= usize::MAX,
            em.wf(),
            forall|m: int|
                0 <= m < em.pair_seq().len() ==> (#[trigger] em.pair_seq()[m]).1.metadata.wf(),
            v@.subrange(i as int, j as int) == "{\n"@ + (if entries_rep(em.pair_seq()).len()
                == 0 {
                Seq::<char>::empty()
            } else {
                entries_body_doc(entries_rep(em.pair_seq())) + ",\n"@
            }),
            forall|es: Seq<(Seq<char>, EntryRep)>|
                entries_rep_wf(es) && begins_at(v@, i as int, #[trigger] entries_obj_doc(es))
                    ==> entries_rep(em.pair_seq()).len() < es.len() && es.take(
                    entries_rep(em.pair_seq()).len() as int,
                ) == entries_rep(em.pair_seq()) && begins_at(
                    v@,
                    j as int,
                    entries_tail(es, entries_rep(em.pair_seq()).len() as int),
                ),
        decreases v@.len() - j,
    {
        let ghost cur = entries_rep(em.pair_seq());
        let ghost n = cur.len() as int;
        let ghost head = v@.subrange(i as int, j as int);
        let (kv, j5) = match parse_entry_pair(v, j) {
            Some(p) => p,
            None => {
                proof {
                    assert forall|es: Seq<(Seq<char>, EntryRep)>| entries_rep_wf(es)
                        implies !begins_at(v@, i as int, #[trigger] entries_obj_doc(es)) by {
                        if begins_at(v@, i as int, entries_obj_doc(es)) {
                            lemma_entries_tail_step(v@, j as int, es, n);
                            assert(rep_unique(es[n].1.tags));
                        }
                    }
                }
                return None;
            },
        };
        let (key_s, entry) = kv;
        if em.contains_key(key_s.as_str()) {
            proof {
                crate::keyed::lemma_map_of_contains(em.pair_seq(), key_s@);
                assert forall|es: Seq<(Seq<char>, EntryRep)>| entries_rep_wf(es)
                    implies !begins_at(v@, i as int, #[trigger] entries_obj_doc(es)) by {
                    if begins_at(v@, i as int, entries_obj_doc(es)) {
                        lemma_entries_advance(
                            v@,
                            i as int,
                            j as int,
                            j5 as int,
                            cur,
                            (key_s@, entry_rep(entry)),
                            es,
                        );
                        let m = choose|m: int|
                            0 <= m < em.pair_seq().len() && em.pair_seq()[m].0@ == key_s@;
                        assert(cur[m].0 == key_s@);
                        assert(es[m] == cur[m]) by {
                            assert(es.take(n)[m] == cur[m]);
                        }
                        assert(es[m].0 == es[n].0);
                    }
                }
            }
            return None;
        }
        let ghost opairs = em.pair_seq();
        em.insert(key_s, entry);
        proof {
            assert(em.pair_seq() =~= opairs.push((key_s, entry)));
            assert(entries_rep(em.pair_seq()) =~= cur.push((key_s@, entry_rep(entry))));
            assert(entries_rep(em.pair_seq()).len() == n + 1);
            assert forall|m: int|
                0 <= m < em.pair_seq().len() implies (
            #[trigger] em.pair_seq()[m]).1.metadata.wf() by {
                if m < opairs.len() {
                    assert(em.pair_seq()[m] == opairs[m]);
                }
            }
            assert(entries_body_doc(entries_rep(em.pair_seq())) == (if n == 0 {
                Seq::<char>::empty()
            } else {
                entries_body_doc(cur) + ",\n"@
            }) + entry_pair_doc((key_s@, entry_rep(entry)))) by {
                let now = entries_rep(em.pair_seq());
                assert(now.drop_last() =~= cur);
                assert(now.last() == (key_s@, entry_rep(entry)));
                if n == 0 {
                    assert(now.len() == 1);
                    assert(entries_body_doc(now) == entry_pair_doc(now[0]));
                    assert(Seq::<char>::empty() + entry_pair_doc((key_s@, entry_rep(entry)))
                        =~= entry_pair_doc((key_s@, entry_rep(entry))));
                } else {
                    assert(entries_body_doc(now) == entries_body_doc(cur) + ",\n"@
                        + entry_pair_doc((key_s@, entry_rep(entry))));
                }
            }
            assert(v@.subrange(i as int, j5 as int) =~= head + v@.subrange(j as int, j5 as int));
            assert(v@.subrange(i as int, j5 as int) =~= "{\n"@ + entries_body_doc(
                entries_rep(em.pair_seq()),
            ));
        }
        if j5 < v.len() && v[j5] == ',' {
            let j6 = match expect_lit(v, j5, ",\n") {
                Some(t) => t,
                None => {
                    proof {
                        reveal_strlit(",\n");
                        reveal_strlit("\n  }");
                        assert forall|es: Seq<(Seq<char>, EntryRep)>| entries_rep_wf(es)
                            implies !begins_at(v@, i as int, #[trigger] entries_obj_doc(es)) by {
                            if begins_at(v@, i as int, entries_obj_doc(es)) {
                                lemma_entries_advance(
                                    v@,
                                    i as int,
                                    j as int,
                                    j5 as int,
                                    cur,
                                    (key_s@, entry_rep(entry)),
                                    es,
                                );
                                if n + 1 < es.len() {
                                    lemma_begins_concat(
                                        v@,
                                        j5 as int,
                                        ",\n"@,
                                        entries_tail(es, n + 1),
                                    );
                                } else {
                                    lemma_begins_index(v@, j5 as int, "\n  }"@, 0);
                                }
                            }
                        }
                    }
                    return None;
                },
            };
            proof {
                reveal_strlit(",\n");
                reveal_strlit("\n  }");
                assert(v@.subrange(i as int, j6 as int) =~= v@.subrange(i as int, j5 as int)
                    + ",\n"@);
                assert(v@.subrange(i as int, j6 as int) =~= "{\n"@ + (entries_body_doc(
                    entries_rep(em.pair_seq()),
                ) + ",\n"@));
                assert forall|es: Seq<(Seq<char>, EntryRep)>|
                    entries_rep_wf(es) && begins_at(v@, i as int, #[trigger] entries_obj_doc(es))
                        implies entries_rep(em.pair_seq()).len() < es.len() && es.take(
                    entries_rep(em.pair_seq()).len() as int,
                ) == entries_rep(em.pair_seq()) && begins_at(
                    v@,
                    j6 as int,
                    entries_tail(es, entries_rep(em.pair_seq()).len() as int),
                ) by {
                    lemma_entries_advance(
                        v@,
                        i as int,
                        j as int,
                        j5 as int,
                        cur,
                        (key_s@, entry_rep(entry)),
                        es,
                    );
                    assert(n + 1 < es.len()) by {
                        if n + 1 == es.len() {
                            lemma_begins_index(v@, j5 as int, "\n  }"@, 0);
                            assert(v@[j5 as int] == '\n');
                        }
                    }
                    lemma_begins_concat(v@, j5 as int, ",\n"@, entries_tail(es, n + 1));
                    assert(es.take(n + 1) == entries_rep(em.pair_seq()));
                }
            }
            j = j6;
        } else {
            let jend = match expect_lit(v, j5, "\n  }") {
                Some(t) => t,
                None => {
                    proof {
                        reveal_strlit(",\n");
                        reveal_strlit("\n  }");
                        assert forall|es: Seq<(Seq<char>, EntryRep)>| entries_rep_wf(es)
                            implies !begins_at(v@, i as int, #[trigger] entries_obj_doc(es)) by {
                            if begins_at(v@, i as int, entries_obj_doc(es)) {
                                lemma_entries_advance(
                                    v@,
                                    i as int,
                                    j as int,
                                    j5 as int,
                                    cur,
                                    (key_s@, entry_rep(entry)),
                                    es,
                                );
                                if n + 1 < es.len() {
                                    lemma_begins_concat(
                                        v@,
                                        j5 as int,
                                        ",\n"@,
                                        entries_tail(es, n + 1),
                                    );
                                    lemma_begins_index(v@, j5 as int, ",\n"@, 0);
                                }
                            }
                        }
                    }
                    return None;
                },
            };
            proof {
                reveal_strlit(",\n");
                reveal_strlit("\n  }");
                let now = entries_rep(em.pair_seq());
                assert(v@.subrange(i as int, jend as int) =~= v@.subrange(i as int, j5 as int)
                    + "\n  }"@);
                assert(now.len() > 0);
                assert(v@.subrange(i as int, jend as int) =~= "{\n"@ + entries_body_doc(now)
                    + "\n  }"@);
                assert(v@.subrange(i as int, jend as int) == entries_obj_doc(now));
                assert forall|es: Seq<(Seq<char>, EntryRep)>|
                    entries_rep_wf(es) && begins_at(v@, i as int, #[trigger] entries_obj_doc(es))
                        implies es == now by {
                    lemma_entries_advance(
                        v@,
                        i as int,
                        j as int,
                        j5 as int,
                        cur,
                        (key_s@, entry_rep(entry)),
                        es,
                    );
                    assert(n + 1 == es.len()) by {
                        if n + 1 < es.len() {
                            lemma_begins_concat(v@, j5 as int, ",\n"@, entries_tail(es, n + 1));
                            lemma_begins_index(v@, j5 as int, ",\n"@, 0);
                            assert(v@[j5 as int] == ',');
                        }
                    }
                    assert(es =~= es.take(n + 1));
                    assert(es == now);
                }
            }
            return Some((em, jend));
        }
    }
}

/// Splits a printed cache document into its pieces.
pub proof fn lemma_cache_doc_split(v: Seq<char>, rep: CacheRep)
    requires
        v == cache_doc(rep),
    ensures
        begins_at(v, 0, "{\n  \"metadata\": {\n    \"last_updated\": "@),
        begins_at(
            v,
            "{\n  \"metadata\": {\n    \"last_updated\": "@.len() as int,
            dec_of(rep.last_updated as nat),
        ),
        begins_at(
            v,
            "{\n  \"metadata\": {\n    \"last_updated\": "@.len() as int + dec_of(
                rep.last_updated as nat,
            ).len(),
            ",\n    \"total_entries\": "@,
        ),
        begins_at(
            v,
            "{\n  \"metadata\": {\n    \"last_updated\": "@.len() as int + dec_of(
                rep.last_updated as nat,
            ).len() + ",\n    \"total_entries\": "@.len(),
            dec_of(rep.total_entries as nat),
        ),
        begins_at(
            v,
            "{\n  \"metadata\": {\n    \"last_updated\": "@.len() as int + dec_of(
                rep.last_updated as nat,
            ).len() + ",\n    \"total_entries\": "@.len() + dec_of(rep.total_entries as nat).len(),
            "\n  },\n  \"entries\": "@,
        ),
        begins_at(
            v,
            "{\n  \"metadata\": {\n    \"last_updated\": "@.len() as int + dec_of(
                rep.last_updated as nat,
            ).len() + ",\n    \"total_entries\": "@.len() + dec_of(rep.total_entries as nat).len()
                + "\n  },\n  \"entries\": "@.len(),
            entries_obj_doc(rep.entries),
        ),
        begins_at(
            v,
            "{\n  \"metadata\": {\n    \"last_updated\": "@.len() as int + dec_of(
                rep.last_updated as nat,
            ).len() + ",\n    \"total_entries\": "@.len() + dec_of(rep.total_entries as nat).len()
                + "\n  },\n  \"entries\": "@.len() + entries_obj_doc(rep.entries).len(),
            "\n}"@,
        ),
        v.len() == "{\n  \"metadata\": {\n    \"last_updated\": "@.len() as int + dec_of(
            rep.last_updated as nat,
        ).len() + ",\n    \"total_entries\": "@.len() + dec_of(rep.total_entries as nat).len()
            + "\n  },\n  \"entries\": "@.len() + entries_obj_doc(rep.entries).len() + "\n}"@.len(),
{
    let r1 = dec_of(rep.last_updated as nat) + (",\n    \"total_entries\": "@ + (dec_of(
        rep.total_entries as nat,
    ) + ("\n  },\n  \"entries\": "@ + (entries_obj_doc(rep.entries) + "\n}"@))));
    assert(v =~= "{\n  \"metadata\": {\n    \"last_updated\": "@ + r1);
    assert(v.subrange(0, v.len() as int) =~= v);
    assert(begins_at(v, 0, "{\n  \"metadata\": {\n    \"last_updated\": "@ + r1));
    lemma_begins_concat(v, 0, "{\n  \"metadata\": {\n    \"last_updated\": "@, r1);
    let p1 = "{\n  \"metadata\": {\n    \"last_updated\": "@.len() as int;
    lemma_begins_concat(
        v,
        p1,
        dec_of(rep.last_updated as nat),
        ",\n    \"total_entries\": "@ + (dec_of(rep.total_entries as nat) + (
        "\n  },\n  \"entries\": "@ + (entries_obj_doc(rep.entries) + "\n}"@))),
    );
    let p2 = p1 + dec_of(rep.last_updated as nat).len();
    lemma_begins_concat(
        v,
        p2,
        ",\n    \"total_entries\": "@,
        dec_of(rep.total_entries as nat) + ("\n  },\n  \"entries\": "@ + (entries_obj_doc(
            rep.entries,
        ) + "\n}"@)),
    );
    let p3 = p2 + ",\n    \"total_entries\": "@.len();
    lemma_begins_concat(
        v,
        p3,
        dec_of(rep.total_entries as nat),
        "\n  },\n  \"entries\": "@ + (entries_obj_doc(rep.entries) + "\n}"@),
    );
    let p4 = p3 + dec_of(rep.total_entries as nat).len();
    lemma_begins_concat(
        v,
        p4,
        "\n  },\n  \"entries\": "@,
        entries_obj_doc(rep.entries) + "\n}"@,
    );
    let p5 = p4 + "\n  },\n  \"entries\": "@.len();
    lemma_begins_concat(v, p5, entries_obj_doc(rep.entries), "\n}"@);
}

/// Deserializes a cache from its canonical document. Returns the cache
/// the document denotes, or `Malformed` exactly when the text is not
/// the canonical document of any well-formed cache content: parsing a
/// serialized cache gives back exactly the content that was written.
#[verifier::rlimit(100)]
pub fn from_json(s: &str) -> (r: Result<Cache<String>, CacheError>)
    ensures
        match r {
            Ok(c) => {
                &&& c.wf()
                &&& s@ == json_of(c)
                &&& forall|rep: CacheRep|
                    rep_wf(rep) && s@ == #[trigger] cache_doc(rep) ==> rep == rep_of(c)
            },
            Err(e) => {
                &&& e == CacheError::Malformed
                &&& forall|rep: CacheRep| rep_wf(rep) ==> s@ != #[trigger] cache_doc(rep)
            },
        },
{
    let v = chars_of(s);
    let vl = v.len();
    let j1 = match expect_lit(&v, 0, "{\n  \"metadata\": {\n    \"last_updated\": ") {
        Some(t) => t,
        None => {
            proof {
                assert forall|rep: CacheRep| rep_wf(rep) implies s@ != #[trigger] cache_doc(
                    rep,
                ) by {
                    if s@ == cache_doc(rep) {
                        lemma_cache_doc_split(v@, rep);
                    }
                }
            }
            return Err(CacheError::Malformed);
        },
    };
    let (lu, j2) = match parse_u64(&v, j1) {
        Some(p) => p,
        None => {
            proof {
                reveal_strlit(",\n    \"total_entries\": ");
                assert forall|rep: CacheRep| rep_wf(rep) implies s@ != #[trigger] cache_doc(
                    rep,
                ) by {
                    if s@ == cache_doc(rep) {
                        lemma_cache_doc_split(v@, rep);
                        let p2 = j1 + dec_of(rep.last_updated as nat).len();
                        lemma_begins_index(v@, p2, ",\n    \"total_entries\": "@, 0);
                        assert(v@[p2] == ',');
                        assert(!is_dec_digit(','));
                        assert(dec_bound(v@, p2));
                    }
                }
            }
            return Err(CacheError::Malformed);
        },
    };
    let j3 = match expect_lit(&v, j2, ",\n    \"total_entries\": ") {
        Some(t) => t,
        None => {
            proof {
                reveal_strlit(",\n    \"total_entries\": ");
                assert forall|rep: CacheRep| rep_wf(rep) implies s@ != #[trigger] cache_doc(
                    rep,
                ) by {
                    if s@ == cache_doc(rep) {
                        lemma_cache_doc_split(v@, rep);
                        let p2 = j1 + dec_of(rep.last_updated as nat).len();
                        lemma_begins_index(v@, p2, ",\n    \"total_entries\": "@, 0);
                        assert(!is_dec_digit(','));
                        assert(rep.last_updated == lu);
                        assert(p2 == j2);
                    }
                }
            }
            return Err(CacheError::Malformed);
        },
    };
    let (te, j4) = match parse_u64(&v, j3) {
        Some(p) => p,
        None => {
            proof {
                reveal_strlit(",\n    \"total_entries\": ");
                reveal_strlit("\n  },\n  \"entries\": ");
                assert forall|rep: CacheRep| rep_wf(rep) implies s@ != #[trigger] cache_doc(
                    rep,
                ) by {
                    if s@ == cache_doc(rep) {
                        lemma_cache_doc_split(v@, rep);
                        let p2 = j1 + dec_of(rep.last_updated as nat).len();
                        lemma_begins_index(v@, p2, ",\n    \"total_entries\": "@, 0);
                        assert(!is_dec_digit(','));
                        assert(rep.last_updated == lu);
                        assert(p2 == j2);
                        let p4 = j3 + dec_of(rep.total_entries as nat).len();
                        lemma_begins_index(v@, p4, "\n  },\n  \"entries\": "@, 0);
                        assert(v@[p4] == '\n');
                        assert(!is_dec_digit('\n'));
                        assert(begins_at(v@, j3 as int, dec_of((rep.total_entries as u64) as nat)));
                        assert(dec_bound(v@, j3 + dec_of((rep.total_entries as u64) as nat).len()));
                    }
                }
            }
            return Err(CacheError::Malformed);
        },
    };
    let j5 = match expect_lit(&v, j4, "\n  },\n  \"entries\": ") {
        Some(t) => t,
        None => {
            proof {
                reveal_strlit(",\n    \"total_entries\": ");
                reveal_strlit("\n  },\n  \"entries\": ");
                assert forall|rep: CacheRep| rep_wf(rep) implies s@ != #[trigger] cache_doc(
                    rep,
                ) by {
                    if s@ == cache_doc(rep) {
                        lemma_cache_doc_split(v@, rep);
                        let p2 = j1 + dec_of(rep.last_updated as nat).len();
                        lemma_begins_index(v@, p2, ",\n    \"total_entries\": "@, 0);
                        assert(!is_dec_digit(','));
                        assert(rep.last_updated == lu);
                        assert(p2 == j2);
                        let p4 = j3 + dec_of(rep.total_entries as nat).len();
                        lemma_begins_index(v@, p4, "\n  },\n  \"entries\": "@, 0);
                        assert(!is_dec_digit('\n'));
                        assert(begins_at(v@, j3 as int, dec_of((rep.total_entries as u64) as nat)));
                        assert(dec_bound(v@, j3 + dec_of((rep.total_entries as u64) as nat).len()));
                        assert(rep.total_entries as u64 == te);
                        assert(p4 == j4);
                    }
                }
            }
            return Err(CacheError::Malformed);
        },
    };
    let (em, j6) = match parse_entries(&v, j5) {
        Some(p) => p,
        None => {
            proof {
                reveal_strlit(",\n    \"total_entries\": ");
                reveal_strlit("\n  },\n  \"entries\": ");
                assert forall|rep: CacheRep| rep_wf(rep) implies s@ != #[trigger] cache_doc(
                    rep,
                ) by {
                    if s@ == cache_doc(rep) {
                        lemma_cache_doc_split(v@, rep);
                        let p2 = j1 + dec_of(rep.last_updated as nat).len();
                        lemma_begins_index(v@, p2, ",\n    \"total_entries\": "@, 0);
                        assert(!is_dec_digit(','));
                        assert(rep.last_updated == lu);
                        assert(p2 == j2);
                        let p4 = j3 + dec_of(rep.total_entries as nat).len();
                        lemma_begins_index(v@, p4, "\n  },\n  \"entries\": "@, 0);
                        assert(!is_dec_digit('\n'));
                        assert(begins_at(v@, j3 as int, dec_of((rep.total_entries as u64) as nat)));
                        assert(dec_bound(v@, j3 + dec_of((rep.total_entries as u64) as nat).len()));
                        assert(rep.total_entries as u64 == te);
                        assert(p4 == j4);
                        assert(begins_at(v@, j5 as int, entries_obj_doc(rep.entries)));
                        assert(entries_rep_wf(rep.entries));
                    }
                }
            }
            return Err(CacheError::Malformed);
        },
    };
    let j7 = match expect_lit(&v, j6, "\n}") {
        Some(t) => t,
        None => {
            proof {
                reveal_strlit(",\n    \"total_entries\": ");
                reveal_strlit("\n  },\n  \"entries\": ");
                assert forall|rep: CacheRep| rep_wf(rep) implies s@ != #[trigger] cache_doc(
                    rep,
                ) by {
                    if s@ == cache_doc(rep) {
                        lemma_cache_doc_split(v@, rep);
                        let p2 = j1 + dec_of(rep.last_updated as nat).len();
                        lemma_begins_index(v@, p2, ",\n    \"total_entries\": "@, 0);
                        assert(!is_dec_digit(','));
                        assert(rep.last_updated == lu);
                        assert(p2 == j2);
                        let p4 = j3 + dec_of(rep.total_entries as nat).len();
                        lemma_begins_index(v@, p4, "\n  },\n  \"entries\": "@, 0);
                        assert(!is_dec_digit('\n'));
                        assert(begins_at(v@, j3 as int, dec_of((rep.total_entries as u64) as nat)));
                        assert(dec_bound(v@, j3 + dec_of((rep.total_entries as u64) as nat).len()));
                        assert(rep.total_entries as u64 == te);
                        assert(p4 == j4);
                        assert(begins_at(v@, j5 as int, entries_obj_doc(rep.entries)));
                        assert(entries_rep_wf(rep.entries));
                        assert(rep.entries == entries_rep(em.pair_seq()));
                        assert(begins_at(v@, j6 as int, "\n}"@));
                    }
                }
            }
            return Err(CacheError::Malformed);
        },
    };
    let n = em.len();
    if j7 != vl || te != n as u64 {
        proof {
            reveal_strlit(",\n    \"total_entries\": ");
            reveal_strlit("\n  },\n  \"entries\": ");
            crate::keyed::lemma_map_of_len(em.pair_seq());
            assert forall|rep: CacheRep| rep_wf(rep) implies s@ != #[trigger] cache_doc(rep) by {
                if s@ == cache_doc(rep) {
                    lemma_cache_doc_split(v@, rep);
                    let p2 = j1 + dec_of(rep.last_updated as nat).len();
                    lemma_begins_index(v@, p2, ",\n    \"total_entries\": "@, 0);
                    assert(!is_dec_digit(','));
                    assert(rep.last_updated == lu);
                    assert(p2 == j2);
                    let p4 = j3 + dec_of(rep.total_entries as nat).len();
                    lemma_begins_index(v@, p4, "\n  },\n  \"entries\": "@, 0);
                    assert(!is_dec_digit('\n'));
                    assert(begins_at(v@, j3 as int, dec_of((rep.total_entries as u64) as nat)));
                    assert(dec_bound(v@, j3 + dec_of((rep.total_entries as u64) as nat).len()));
                    assert(rep.total_entries as u64 == te);
                    assert(p4 == j4);
                    assert(begins_at(v@, j5 as int, entries_obj_doc(rep.entries)));
                    assert(entries_rep_wf(rep.entries));
                    assert(rep.entries == entries_rep(em.pair_seq()));
                    assert(rep.entries.len() == n);
                    assert(rep.total_entries == n);
                    assert(te == n as u64);
                    assert(v@.len() == j7);
                    assert(j7 == vl);
                }
            }
        }
        return Err(CacheError::Malformed);
    }
    let c = Cache { metadata: CacheMetadata { last_updated: lu, total_entries: n }, entries: em };
    proof {
        reveal_strlit(",\n    \"total_entries\": ");
        reveal_strlit("\n  },\n  \"entries\": ");
        crate::keyed::lemma_map_of_len(c.entries.pair_seq());
        assert(c.wf());
        assert(rep_of(c).last_updated == lu);
        assert(rep_of(c).total_entries == n);
        assert(rep_of(c).entries == entries_rep(c.entries.pair_seq()));
        assert((n as u64) as nat == n as nat);
        assert(s@ == json_of(c)) by {
            assert(v@.subrange(0, j1 as int) == "{\n  \"metadata\": {\n    \"last_updated\": "@);
            assert(v@.subrange(j1 as int, j2 as int) == dec_of(lu as nat));
            assert(v@.subrange(j2 as int, j3 as int) == ",\n    \"total_entries\": "@);
            assert(v@.subrange(j3 as int, j4 as int) == dec_of(te as nat));
            assert(v@.subrange(j4 as int, j5 as int) == "\n  },\n  \"entries\": "@);
            assert(v@.subrange(j5 as int, j6 as int) == entries_obj_doc(
                entries_rep(c.entries.pair_seq()),
            ));
            assert(v@.subrange(j6 as int, j7 as int) == "\n}"@);
            assert(v@.subrange(0, j2 as int) =~= v@.subrange(0, j1 as int) + v@.subrange(
                j1 as int,
                j2 as int,
            ));
            assert(v@.subrange(0, j3 as int) =~= v@.subrange(0, j2 as int) + v@.subrange(
                j2 as int,
                j3 as int,
            ));
            assert(v@.subrange(0, j4 as int) =~= v@.subrange(0, j3 as int) + v@.subrange(
                j3 as int,
                j4 as int,
            ));
            assert(v@.subrange(0, j5 as int) =~= v@.subrange(0, j4 as int) + v@.subrange(
                j4 as int,
                j5 as int,
            ));
            assert(v@.subrange(0, j6 as int) =~= v@.subrange(0, j5 as int) + v@.subrange(
                j5 as int,
                j6 as int,
            ));
            assert(v@.subrange(0, j7 as int) =~= v@.subrange(0, j6 as int) + v@.subrange(
                j6 as int,
                j7 as int,
            ));
            assert(v@.subrange(0, j7 as int) =~= v@);
            assert(dec_of(te as nat) == dec_of(rep_of(c).total_entries as nat));
            assert(v@ =~= cache_doc(rep_of(c)));
        }
        assert forall|rep: CacheRep|
            rep_wf(rep) && s@ == #[trigger] cache_doc(rep) implies rep == rep_of(c) by {
            lemma_cache_doc_split(v@, rep);
            let p2 = j1 + dec_of(rep.last_updated as nat).len();
            lemma_begins_index(v@, p2, ",\n    \"total_entries\": "@, 0);
            assert(!is_dec_digit(','));
            assert(rep.last_updated == lu);
            assert(p2 == j2);
            let p4 = j3 + dec_of(rep.total_entries as nat).len();
            lemma_begins_index(v@, p4, "\n  },\n  \"entries\": "@, 0);
            assert(!is_dec_digit('\n'));
            assert(begins_at(v@, j3 as int, dec_of((rep.total_entries as u64) as nat)));
            assert(dec_bound(v@, j3 + dec_of((rep.total_entries as u64) as nat).len()));
            assert(rep.total_entries as u64 == te);
            assert(rep.total_entries == n);
            assert(begins_at(v@, j5 as int, entries_obj_doc(rep.entries)));
            assert(entries_rep_wf(rep.entries));
            assert(rep.entries == entries_rep(em.pair_seq()));
            assert(rep =~= rep_of(c));
        }
    }
    Ok(c)
}

/// A well-formed cache has well-formed content: unique keys all round,
/// and a summary count that equals the entry count.
pub proof fn lemma_wf_rep(c: Cache<String>)
    requires
        c.wf(),
    ensures
        rep_wf(rep_of(c)),
{
    crate::keyed::lemma_map_of_len(c.entries.pair_seq());
    let es = rep_of(c).entries;
    assert forall|i: int, j: int| 0 <= i < j < es.len() implies es[i].0 != es[j].0 by {
        assert(c.entries.pair_seq()[i].0@ != c.entries.pair_seq()[j].0@);
    }
    assert forall|i: int| 0 <= i < es.len() implies rep_unique((#[trigger] es[i]).1.tags) by {
        let tmp = c.entries.pair_seq()[i].1.metadata;
        assert(tmp.wf());
        assert(es[i].1.tags == tag_rep(tmp.pair_seq()));
        assert forall|a: int, b: int|
            0 <= a < b < es[i].1.tags.len() implies es[i].1.tags[a].0 != es[i].1.tags[b].0 by {
            assert(tmp.pair_seq()[a].0@ != tmp.pair_seq()[b].0@);
        }
    }
}

/// The round trip: serializing a cache and parsing the document yields
/// a cache with identical content, entry for entry, tag for tag.
pub fn encode_decode(cache: &Cache<String>) -> (r: Cache<String>)
    requires
        cache.wf(),
    ensures
        r.wf(),
        rep_of(r) == rep_of(*cache),
{
    let doc = to_json(cache);
    proof {
        lemma_wf_rep(*cache);
    }
    match from_json(doc.as_str()) {
        Ok(c) => {
            proof {
                assert(rep_of(*cache) == rep_of(c));
            }
            c
        },
        Err(_) => {
            proof {
                assert(doc@ == cache_doc(rep_of(*cache)));
                assert(false);
            }
            Cache::new()
        },
    }
}

} // verus!
