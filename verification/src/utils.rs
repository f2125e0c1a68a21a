//! Delimiter stripping for project names, comparison of strings, and the
//! ordering of score buckets.

use regex::Regex;
use std::collections::HashMap;
use vstd::prelude::*;
use vstd::std_specs::iter::IteratorSpec;
use vstd::string::StringSliceAdditionalSpecFns;
use vstd::utf8::{encode_utf8, encode_utf8_decode_utf8};

verus! {

/// The characters that separate the words of a project name and that are
/// ignored when names are compared: `-`, `_`, `/`, `\`, space and `:`.
pub open spec fn is_delimiter(c: char) -> bool {
    c == '-' || c == '_' || c == '/' || c == '\\' || c == ' ' || c == ':'
}

/// `s` with every delimiter taken out and all other characters kept in order.
pub open spec fn without_delimiters(s: Seq<char>) -> Seq<char> {
    s.filter(|c: char| !is_delimiter(c))
}

/// Calls `regex::Regex::new` on `pattern` and `Regex::replace_all` on the
/// result, with `haystack` and `replacement`.
///
/// The contract is stated for one pattern only, the character class of the
/// delimiters, and for the empty replacement. That class compiles, each of
/// its matches is exactly one delimiter character, and `replace_all` copies
/// the text between the matches and puts the replacement in their place: what
/// comes back is the haystack without its delimiters. This is taken from the
/// source of `regex`; Verus does not check it.
#[verifier::external_body]
fn regex_replace_all(pattern: &str, haystack: &str, replacement: &str) -> (replaced: String)
    requires
        pattern@ == r"[-_/\\ :]"@,
        replacement@ == ""@,
    ensures
        replaced@ == without_delimiters(haystack@),
{
    let re = Regex::new(pattern).expect("Failed to create regex exp");
    re.replace_all(haystack, replacement).to_string()
}

/// Strips the delimiters `- _ / \ space :` from a project name, so that names
/// compare alike however their words are separated.
pub fn normalize_string(input: &str) -> (normalized: String)
    ensures
        normalized@ == without_delimiters(input@),
{
    regex_replace_all(r"[-_/\\ :]", input, "")
}

/// Whether two strings hold the same characters.
pub fn str_equal(a: &str, b: &str) -> (same: bool)
    ensures
        same == (a@ == b@),
{
    let x = a.as_bytes();
    let y = b.as_bytes();
    proof {
        // An encoding decodes to the characters it was made from, so two
        // strings with the same bytes are the same string.
        encode_utf8_decode_utf8(a@);
        encode_utf8_decode_utf8(b@);
    }
    if x.len() != y.len() {
        return false;
    }
    let mut i: usize = 0;
    while i < x.len()
        invariant
            i <= x@.len() == y@.len(),
            x@ == encode_utf8(a@),
            y@ == encode_utf8(b@),
            forall|k: int| 0 <= k < i ==> x@[k] == y@[k],
        decreases x@.len() - i,
    {
        if x[i] != y[i] {
            return false;
        }
        i += 1;
    }
    assert(x@ =~= y@);
    true
}

/// The keys of `sorted` go strictly down: no key occurs twice, and each is
/// larger than all that follow it.
pub open spec fn strictly_descending<V>(sorted: Seq<(u32, V)>) -> bool {
    forall|i: int, j: int| 0 <= i < j < sorted.len() ==> sorted[i].0 > sorted[j].0
}

/// `sorted` lists the entries of `map`, each key once with the value that the
/// map holds under it, from the largest key to the smallest.
pub open spec fn is_descending_listing<V>(sorted: Seq<(u32, &V)>, map: Map<u32, V>) -> bool {
    &&& strictly_descending(sorted)
    &&& forall|i: int|
        0 <= i < sorted.len() ==> map.contains_key(#[trigger] sorted[i].0) && *sorted[i].1
            == map[sorted[i].0]
    &&& forall|k: u32| map.contains_key(k) ==> lists_key(sorted, k)
}

/// Whether some entry of `sorted` has the key `k`.
pub open spec fn lists_key<V>(sorted: Seq<(u32, V)>, k: u32) -> bool {
    exists|i: int| 0 <= i < sorted.len() && #[trigger] sorted[i].0 == k
}

/// Whether one of the first `upto` entries that the map yields has the key `k`.
spec fn yields_key<V>(entries: Seq<(&u32, &V)>, upto: int, k: u32) -> bool {
    exists|j: int| 0 <= j < upto && *(#[trigger] entries[j]).0 == k
}

/// Lists the entries of a map from the largest key to the smallest.
///
/// The map is walked in whatever order it yields its entries, and each entry
/// is put in its place among those listed so far; the listing that comes out
/// does not depend on that order.
pub fn sort_hashmap_by_keys<V>(map: &HashMap<u32, V>) -> (sorted: Vec<(u32, &V)>)
    ensures
        is_descending_listing(sorted@, map@),
        sorted@.len() == map@.len(),
{
    broadcast use vstd::std_specs::hash::group_hash_axioms;

    let mut sorted: Vec<(u32, &V)> = Vec::new();
    let ghost entries = map.iter().remaining();
    for entry in it: map.iter()
        invariant
            it.seq() == entries,
            entries == map.iter().remaining(),
            entries.no_duplicates(),
            strictly_descending(sorted@),
            sorted@.len() == it.index(),
            forall|i: int|
                0 <= i < sorted@.len() ==> map@.contains_key(#[trigger] sorted@[i].0)
                    && *sorted@[i].1 == map@[sorted@[i].0],
            forall|i: int|
                0 <= i < sorted@.len() ==> yields_key(
                    entries,
                    sorted@.len() as int,
                    (#[trigger] sorted@[i]).0,
                ),
            forall|j: int|
                0 <= j < sorted@.len() ==> lists_key(sorted@, *(#[trigger] entries[j]).0),
    {
        let (k, v) = entry;
        let key: u32 = *k;
        let ghost before = sorted@;
        let ghost now = it.index();
        assert(it.seq()[now] == entry);
        assert(map@.contains_key(key) && map@[key] == *v);
        assert(!lists_key(before, key)) by {
            if lists_key(before, key) {
                let i = choose|i: int| 0 <= i < before.len() && #[trigger] before[i].0 == key;
                assert(yields_key(entries, now, before[i].0));
                let j = choose|j: int| 0 <= j < now && *(#[trigger] entries[j]).0 == key;
                assert(map@[*it.seq()[j].0] == *it.seq()[j].1);
                assert(it.seq()[j] == it.seq()[now]);
            }
        }
        let mut at: usize = 0;
        while at < sorted.len() && sorted[at].0 > key
            invariant
                sorted@ == before,
                at <= sorted@.len(),
                forall|i: int| 0 <= i < at ==> sorted@[i].0 > key,
            decreases sorted@.len() - at,
        {
            at += 1;
        }
        sorted.insert(at, (key, v));
        proof {
            assert(forall|i: int| at <= i < before.len() ==> before[i].0 < key) by {
                if at < before.len() {
                    assert(before[at as int].0 <= key);
                    assert(before[at as int].0 != key);
                }
            }
            assert(forall|i: int| 0 <= i < at ==> sorted@[i] == before[i]);
            assert(sorted@[at as int] == (key, v));
            assert(forall|i: int| at < i < sorted@.len() ==> sorted@[i] == before[i - 1]);
            assert forall|j: int| 0 <= j < sorted@.len() implies lists_key(
                sorted@,
                *(#[trigger] entries[j]).0,
            ) by {
                if j == now {
                    assert(sorted@[at as int].0 == *it.seq()[j].0);
                } else {
                    let i = choose|i: int|
                        0 <= i < before.len() && #[trigger] before[i].0 == *it.seq()[j].0;
                    if i < at {
                        assert(sorted@[i].0 == *it.seq()[j].0);
                    } else {
                        assert(sorted@[i + 1].0 == *it.seq()[j].0);
                    }
                }
            }
            assert forall|i: int| 0 <= i < sorted@.len() implies yields_key(
                entries,
                now + 1,
                (#[trigger] sorted@[i]).0,
            ) by {
                if i == at {
                    assert(*entries[now].0 == sorted@[i].0);
                } else {
                    let o = if i < at {
                        i
                    } else {
                        i - 1
                    };
                    assert(yields_key(entries, now, before[o].0));
                    let j = choose|j: int|
                        0 <= j < now && *(#[trigger] entries[j]).0 == before[o].0;
                    assert(*entries[j].0 == sorted@[i].0);
                }
            }
        }
    }
    proof {
        assert forall|k: u32| map@.contains_key(k) implies lists_key(sorted@, k) by {
            let j = entries.index_of((&k, &map@[k]));
            assert(entries[j] == (&k, &map@[k]));
        }
    }
    sorted
}

} // verus!
