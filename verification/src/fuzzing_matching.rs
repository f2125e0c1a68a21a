//! The similarity score of a candidate name against a query, and the grouping
//! of candidates by rounded score.

use crate::edit_distance::{distance_of_bytes, edit_distance, lemma_edit_distance_upper_bound};
use crate::text::texts_of;
use crate::utils::{normalize_string, without_delimiters};
use std::collections::HashMap;
use vstd::prelude::*;
use vstd::string::StringSliceAdditionalSpecFns;
use vstd::utf8::encode_utf8;

verus! {

/// Whether `needle` occurs in `hay` as a run of consecutive bytes.
pub open spec fn contains_bytes(hay: Seq<u8>, needle: Seq<u8>) -> bool {
    exists|k: int| occurs_at(hay, needle, k)
}

/// Whether `needle` occurs in `hay` at offset `k`.
pub open spec fn occurs_at(hay: Seq<u8>, needle: Seq<u8>, k: int) -> bool {
    0 <= k && k + needle.len() <= hay.len() && hay.subrange(k, k + needle.len()) == needle
}

/// The length of the longer of two sequences.
pub open spec fn longest(candidate: Seq<u8>, pattern: Seq<u8>) -> nat {
    if candidate.len() >= pattern.len() {
        candidate.len()
    } else {
        pattern.len()
    }
}

/// The bonuses that a candidate earns, in tenths: three when it starts with
/// the pattern, one when it is within two edits of the pattern, and one when
/// the pattern occurs anywhere in it.
pub open spec fn bonus_tenths(candidate: Seq<u8>, pattern: Seq<u8>) -> nat {
    let prefix: nat = if pattern.is_prefix_of(candidate) {
        3
    } else {
        0
    };
    let near: nat = if edit_distance(candidate, pattern) <= 2 {
        1
    } else {
        0
    };
    let inside: nat = if contains_bytes(candidate, pattern) {
        1
    } else {
        0
    };
    prefix + near + inside
}

/// The denominator under which a score is held: ten times the length of the
/// longer sequence, so that both the distance ratio and the bonuses in tenths
/// are whole numbers over it.
pub open spec fn score_denominator(candidate: Seq<u8>, pattern: Seq<u8>) -> nat {
    10 * longest(candidate, pattern)
}

/// The score before clamping, over [`score_denominator`]:
/// `1 - distance / longest + bonus / 10`.
pub open spec fn unclamped_numerator(candidate: Seq<u8>, pattern: Seq<u8>) -> int {
    10 * (longest(candidate, pattern) - edit_distance(candidate, pattern)) + bonus_tenths(
        candidate,
        pattern,
    ) * longest(candidate, pattern)
}

/// The score over [`score_denominator`], clamped between zero and one.
pub open spec fn score_numerator(candidate: Seq<u8>, pattern: Seq<u8>) -> int {
    let raw = unclamped_numerator(candidate, pattern);
    let one: int = score_denominator(candidate, pattern) as int;
    if raw < 0 {
        0
    } else if raw > one {
        one
    } else {
        raw
    }
}

/// `numerator / denominator` as a percentage, rounded to the nearest whole
/// number, halves upwards.
pub open spec fn rounded_percent(numerator: int, denominator: int) -> int {
    (200 * numerator + denominator) / (2 * denominator)
}

/// A similarity score: the exact fraction `numerator / denominator`, between
/// zero and one.
#[derive(Clone, Copy, Debug)]
pub struct Score {
    pub numerator: u128,
    pub denominator: u128,
}

impl Score {
    /// The fraction is defined, lies between zero and one, and is held over a
    /// denominator that a pair of strings can give.
    pub open spec fn wf(self) -> bool {
        0 < self.denominator <= 10 * usize::MAX && self.numerator <= self.denominator
    }

    /// The score as a percentage, rounded to the nearest whole number.
    pub fn percent(&self) -> (key: u32)
        requires
            self.wf(),
        ensures
            key == rounded_percent(self.numerator as int, self.denominator as int),
            key <= 100,
    {
        let twice: u128 = 2 * self.denominator;
        let scaled: u128 = 200 * self.numerator + self.denominator;
        let key: u128 = scaled / twice;
        assert(key <= 100) by (nonlinear_arith)
            requires
                key == scaled / twice,
                scaled <= 201 * self.denominator,
                twice == 2 * self.denominator,
                self.denominator > 0,
        ;
        key as u32
    }
}

/// Whether `hay` starts with `needle`.
pub fn has_prefix(hay: &[u8], needle: &[u8]) -> (found: bool)
    ensures
        found == needle@.is_prefix_of(hay@),
{
    if needle.len() > hay.len() {
        return false;
    }
    let mut k: usize = 0;
    while k < needle.len()
        invariant
            k <= needle@.len() <= hay@.len(),
            forall|x: int| 0 <= x < k ==> hay@[x] == needle@[x],
        decreases needle@.len() - k,
    {
        if hay[k] != needle[k] {
            assert(hay@.subrange(0, needle@.len() as int)[k as int] != needle@[k as int]);
            return false;
        }
        k += 1;
    }
    assert(needle@ =~= hay@.subrange(0, needle@.len() as int));
    true
}

/// Whether `needle` occurs in `hay` at offset `at`.
fn matches_at(hay: &[u8], needle: &[u8], at: usize) -> (found: bool)
    requires
        at + needle@.len() <= hay@.len(),
    ensures
        found == occurs_at(hay@, needle@, at as int),
{
    let mut k: usize = 0;
    while k < needle.len()
        invariant
            k <= needle@.len(),
            at + needle@.len() <= hay@.len() == hay.len(),
            forall|x: int| 0 <= x < k ==> hay@[at + x] == needle@[x],
        decreases needle@.len() - k,
    {
        if hay[at + k] != needle[k] {
            assert(hay@.subrange(at as int, at + needle@.len())[k as int] != needle@[k as int]);
            return false;
        }
        k += 1;
    }
    assert(needle@ =~= hay@.subrange(at as int, at + needle@.len()));
    true
}

/// Whether `needle` occurs anywhere in `hay`.
pub fn has_substring(hay: &[u8], needle: &[u8]) -> (found: bool)
    ensures
        found == contains_bytes(hay@, needle@),
{
    if needle.len() > hay.len() {
        return false;
    }
    let last: usize = hay.len() - needle.len();
    let mut at: usize = 0;
    while at <= last
        invariant
            at <= last + 1,
            last == hay@.len() - needle@.len(),
            forall|k: int| 0 <= k < at ==> !occurs_at(hay@, needle@, k),
        decreases last + 1 - at,
    {
        if matches_at(hay, needle, at) {
            return true;
        }
        if at == last {
            return false;
        }
        at += 1;
    }
    false
}

/// The score lies between zero and one whenever one of the two sequences is
/// not empty.
pub proof fn lemma_score_in_unit_interval(candidate: Seq<u8>, pattern: Seq<u8>)
    requires
        longest(candidate, pattern) > 0,
    ensures
        0 <= score_numerator(candidate, pattern) <= score_denominator(candidate, pattern),
        0 < score_denominator(candidate, pattern),
        0 <= rounded_percent(
            score_numerator(candidate, pattern),
            score_denominator(candidate, pattern) as int,
        ) <= 100,
{
    let num = score_numerator(candidate, pattern);
    let den = score_denominator(candidate, pattern) as int;
    assert(0 <= (200 * num + den) / (2 * den) <= 100) by (nonlinear_arith)
        requires
            0 <= num <= den,
            0 < den,
    ;
}

/// Scores a candidate, already stripped of its delimiters, against a pattern.
///
/// The base is one minus the edit distance over the length of the longer of
/// the two. To it are added, in this order, three tenths when the candidate
/// starts with the pattern, one tenth when the distance is at most two, and
/// one tenth when the pattern occurs in the candidate; the sum is clamped
/// between zero and one.
pub fn score_of_bytes(candidate: &[u8], pattern: &[u8]) -> (score: Score)
    requires
        longest(candidate@, pattern@) > 0,
    ensures
        score.wf(),
        score.numerator == score_numerator(candidate@, pattern@),
        score.denominator == score_denominator(candidate@, pattern@),
{
    let distance = distance_of_bytes(candidate, pattern);
    proof {
        lemma_edit_distance_upper_bound(candidate@, pattern@);
    }
    let len1 = candidate.len();
    let len2 = pattern.len();
    let longer: usize = if len1 >= len2 {
        len1
    } else {
        len2
    };
    let mut tenths: u128 = 0;
    if has_prefix(candidate, pattern) {
        tenths += 3;
    }
    if distance <= 2 {
        tenths += 1;
    }
    if has_substring(candidate, pattern) {
        tenths += 1;
    }
    assert(tenths * longer <= 5 * longer) by (nonlinear_arith)
        requires
            tenths <= 5,
    ;
    let one: u128 = 10 * (longer as u128);
    let raw: u128 = 10 * ((longer - distance) as u128) + tenths * (longer as u128);
    let numerator: u128 = if raw > one {
        one
    } else {
        raw
    };
    Score { numerator, denominator: one }
}

/// The bytes that a candidate name is compared by: its UTF-8 encoding once
/// the delimiters are taken out.
pub open spec fn normalized_bytes(candidate: Seq<char>) -> Seq<u8> {
    encode_utf8(without_delimiters(candidate))
}

/// Scores the candidate name `s1` against the query `s2`.
///
/// The candidate is stripped of its delimiters first; the query is taken as
/// it is. Both empty is the one pair that has no score.
pub fn compute_matching_score(s1: &str, s2: &str) -> (score: Score)
    requires
        longest(normalized_bytes(s1@), s2.spec_bytes()) > 0,
    ensures
        score.wf(),
        score.numerator == score_numerator(normalized_bytes(s1@), s2.spec_bytes()),
        score.denominator == score_denominator(normalized_bytes(s1@), s2.spec_bytes()),
{
    let s1 = normalize_string(s1);
    score_of_bytes(s1.as_str().as_bytes(), s2.as_bytes())
}

/// The bucket that a candidate falls in: its score against the pattern as a
/// rounded percentage, and zero for the pair without a score, an empty
/// candidate against an empty pattern.
pub open spec fn bucket_key(candidate: Seq<char>, pattern: Seq<char>) -> int {
    let c = normalized_bytes(candidate);
    let p = encode_utf8(pattern);
    if longest(c, p) == 0 {
        0
    } else {
        rounded_percent(score_numerator(c, p), score_denominator(c, p) as int)
    }
}

/// Every bucket key is a percentage.
pub proof fn lemma_bucket_key_is_percentage(candidate: Seq<char>, pattern: Seq<char>)
    ensures
        0 <= bucket_key(candidate, pattern) <= 100,
{
    let c = normalized_bytes(candidate);
    let p = encode_utf8(pattern);
    if longest(c, p) > 0 {
        lemma_score_in_unit_interval(c, p);
    }
}

/// Computes the bucket that `candidate` falls in for the query `pattern`.
pub fn matching_key(candidate: &str, pattern: &str) -> (key: u32)
    ensures
        key == bucket_key(candidate@, pattern@),
        key <= 100,
{
    let normalized = normalize_string(candidate);
    let candidate_bytes = normalized.as_str().as_bytes();
    let pattern_bytes = pattern.as_bytes();
    if candidate_bytes.len() == 0 && pattern_bytes.len() == 0 {
        0
    } else {
        score_of_bytes(candidate_bytes, pattern_bytes).percent()
    }
}

/// The candidates that fall in the bucket `key`, in the order in which they
/// were given.
pub open spec fn bucket(names: Seq<Seq<char>>, pattern: Seq<char>, key: int) -> Seq<Seq<char>> {
    names.filter(|name: Seq<char>| bucket_key(name, pattern) == key)
}

/// `groups` holds the candidates by bucket: a key is present exactly when some
/// candidate falls in its bucket, and under it stand the candidates of that
/// bucket, in the order in which they were given.
pub open spec fn is_grouping(
    groups: Map<u32, Vec<String>>,
    names: Seq<Seq<char>>,
    pattern: Seq<char>,
) -> bool {
    forall|key: u32|
        {
            &&& #[trigger] groups.contains_key(key) <==> bucket(names, pattern, key as int).len()
                > 0
            &&& groups.contains_key(key) ==> groups[key].deep_view() == bucket(
                names,
                pattern,
                key as int,
            )
        }
}

/// Taking one more candidate in adds it to its own bucket and leaves the
/// other buckets as they were.
proof fn lemma_bucket_push(names: Seq<Seq<char>>, name: Seq<char>, pattern: Seq<char>, key: int)
    ensures
        bucket(names.push(name), pattern, key) == if bucket_key(name, pattern) == key {
            bucket(names, pattern, key).push(name)
        } else {
            bucket(names, pattern, key)
        },
{
    reveal(Seq::filter);
    assert(names.push(name).drop_last() =~= names);
}

/// A bucket holds a name as often as the candidates do when the name falls in
/// that bucket, and not at all when it falls in another.
proof fn lemma_bucket_count(names: Seq<Seq<char>>, pattern: Seq<char>, key: int, name: Seq<char>)
    ensures
        bucket(names, pattern, key).to_multiset().count(name) == if bucket_key(name, pattern)
            == key {
            names.to_multiset().count(name)
        } else {
            0
        },
    decreases names.len(),
{
    broadcast use vstd::seq_lib::group_to_multiset_ensures;

    if names.len() == 0 {
        reveal(Seq::filter);
    } else {
        let front = names.drop_last();
        assert(names =~= front.push(names.last()));
        lemma_bucket_count(front, pattern, key, name);
        lemma_bucket_push(front, names.last(), pattern, key);
    }
}

/// Grouping partitions the candidates. The bucket of every candidate is
/// present; and a bucket holds a name exactly as often as the candidates hold
/// it when that is the name's bucket, and never otherwise. So the buckets
/// together hold the candidates, each occurrence once, and no name stands in
/// two buckets.
pub proof fn lemma_grouping_partitions(
    groups: Map<u32, Vec<String>>,
    names: Seq<Seq<char>>,
    pattern: Seq<char>,
)
    requires
        is_grouping(groups, names, pattern),
    ensures
        forall|i: int|
            0 <= i < names.len() ==> groups.contains_key(
                bucket_key(#[trigger] names[i], pattern) as u32,
            ),
        forall|key: u32, name: Seq<char>|
            groups.contains_key(key) ==> #[trigger] groups[key].deep_view().to_multiset().count(
                name,
            ) == if bucket_key(name, pattern) == key {
                names.to_multiset().count(name)
            } else {
                0
            },
{
    broadcast use vstd::seq_lib::group_to_multiset_ensures;

    assert forall|i: int| 0 <= i < names.len() implies groups.contains_key(
        bucket_key(#[trigger] names[i], pattern) as u32,
    ) by {
        let name = names[i];
        lemma_bucket_key_is_percentage(name, pattern);
        let key = bucket_key(name, pattern) as u32;
        lemma_bucket_count(names, pattern, key as int, name);
        assert(names.contains(name));
        assert(bucket(names, pattern, key as int).to_multiset().count(name) > 0);
        assert(bucket(names, pattern, key as int).contains(name));
    }
    assert forall|key: u32, name: Seq<char>| groups.contains_key(key) implies #[trigger] groups[key].deep_view().to_multiset().count(
        name,
    ) == if bucket_key(name, pattern) == key {
        names.to_multiset().count(name)
    } else {
        0
    } by {
        lemma_bucket_count(names, pattern, key as int, name);
    }
}

/// Scores every candidate against the pattern and groups the candidates by
/// rounded score. No candidate is left out, however low its score.
pub fn matching(source: Vec<&str>, pattern: &str) -> (result: HashMap<u32, Vec<String>>)
    ensures
        is_grouping(result@, texts_of(source@), pattern@),
{
    broadcast use vstd::std_specs::hash::group_hash_axioms;

    let mut result: HashMap<u32, Vec<String>> = HashMap::new();
    let ghost names = texts_of(source@);
    assert(is_grouping(result@, names.take(0), pattern@)) by {
        reveal(Seq::filter);
    }
    let mut i: usize = 0;
    while i < source.len()
        invariant
            i <= source@.len(),
            names == texts_of(source@),
            is_grouping(result@, names.take(i as int), pattern@),
        decreases source@.len() - i,
    {
        let sample: &str = source[i];
        let key = matching_key(sample, pattern);
        let ghost before = result@;
        let mut members: Vec<String> = match result.remove(&key) {
            Some(members) => members,
            None => Vec::new(),
        };
        let ghost old_members = members;
        let owned = sample.to_string();
        members.push(owned);
        result.insert(key, members);
        proof {
            let seen = names.take(i as int);
            assert(names.take(i + 1) =~= seen.push(sample@));
            assert(members.deep_view() =~= old_members.deep_view().push(sample@));
            assert forall|k: u32|
                {
                    &&& #[trigger] result@.contains_key(k) <==> bucket(
                        names.take(i + 1),
                        pattern@,
                        k as int,
                    ).len() > 0
                    &&& result@.contains_key(k) ==> result@[k].deep_view() == bucket(
                        names.take(i + 1),
                        pattern@,
                        k as int,
                    )
                } by {
                lemma_bucket_push(seen, sample@, pattern@, k as int);
                assert(before.contains_key(k) <==> bucket(seen, pattern@, k as int).len() > 0);
                if k == key {
                    if !before.contains_key(key) {
                        assert(old_members.deep_view() =~= bucket(seen, pattern@, k as int));
                    }
                }
            }
        }
        i += 1;
    }
    assert(names.take(source@.len() as int) =~= names);
    result
}

} // verus!
