//! From scored buckets to one project name: the gap filter, and the choice
//! between answering at once and asking the user.

use crate::fuzzing_matching::{
    bucket,
    bucket_key,
    is_grouping,
    lemma_bucket_key_is_percentage,
    matching,
};
use crate::models::project_index::ProjectIndex;
use crate::text::texts_of;
use crate::utils::{
    is_descending_listing,
    lists_key,
    sort_hashmap_by_keys,
    str_equal,
    strictly_descending,
};
use vstd::prelude::*;

verus! {

/// How far below its predecessor a bucket may lie and still be offered.
pub const SCORE_GAP: u32 = 20;

/// Why a query could not be resolved to a project name.
#[derive(Clone, Copy, Debug, PartialEq, Eq)]
pub enum ResolveError {
    /// There is no candidate to match the query against.
    EmptyCandidateSet,
    /// No bucket, or a bucket without a name, was left to choose from.
    NoExactOrFuzzyMatch,
    /// The line that the user typed is not a number.
    InvalidSelectionInput,
    /// The number that the user typed is not the index of a choice.
    SelectionOutOfRange,
}

/// How a query was resolved.
#[derive(Debug, PartialEq, Eq)]
pub enum Resolution {
    /// One name stands out: it equals the query, or it scores clearly above
    /// every other candidate.
    Resolved(String),
    /// Several buckets score close to one another. The user has to choose
    /// between their first names, listed from the best score down.
    Ambiguous(Vec<String>),
}

/// What a [`Resolution`] says, in characters.
pub enum ResolutionView {
    Resolved(Seq<char>),
    Ambiguous(Seq<Seq<char>>),
}

impl View for Resolution {
    type V = ResolutionView;

    open spec fn view(&self) -> ResolutionView {
        match self {
            Resolution::Resolved(name) => ResolutionView::Resolved(name@),
            Resolution::Ambiguous(choices) => ResolutionView::Ambiguous(choices.deep_view()),
        }
    }
}

/// The view of a resolution that may have failed.
pub open spec fn outcome_view(outcome: Result<Resolution, ResolveError>) -> Result<
    ResolutionView,
    ResolveError,
> {
    match outcome {
        Ok(resolution) => Ok(resolution@),
        Err(error) => Err(error),
    }
}

/// How many of the buckets of `sorted`, counted from the top, are offered.
///
/// The top bucket always is. Each further bucket is while it lies no more than
/// `gap` points below the bucket before it; the first bucket that lies
/// further below ends the window, whatever follows it.
pub open spec fn gap_window_len<V>(sorted: Seq<(u32, V)>, gap: int) -> nat
    decreases sorted.len(),
{
    if sorted.len() == 0 {
        0
    } else if sorted.len() == 1 || sorted[0].0 - sorted[1].0 > gap {
        1
    } else {
        1 + gap_window_len(sorted.drop_first(), gap)
    }
}

/// The buckets that are offered: the window at the top of `sorted`.
pub open spec fn gap_window<V>(sorted: Seq<(u32, V)>, gap: int) -> Seq<(u32, V)> {
    sorted.take(gap_window_len(sorted, gap) as int)
}

/// The window is a prefix that holds the top bucket; inside it no bucket lies
/// more than `gap` points below the one before it; and the bucket that
/// follows the window, if there is one, lies more than `gap` points below the
/// last bucket of the window.
pub proof fn lemma_gap_window<V>(sorted: Seq<(u32, V)>, gap: int)
    ensures
        gap_window_len(sorted, gap) <= sorted.len(),
        sorted.len() > 0 ==> gap_window_len(sorted, gap) >= 1,
        forall|i: int|
            1 <= i < gap_window_len(sorted, gap) ==> sorted[i - 1].0 - (#[trigger] sorted[i]).0
                <= gap,
        gap_window_len(sorted, gap) < sorted.len() ==> sorted[gap_window_len(sorted, gap) - 1].0
            - sorted[gap_window_len(sorted, gap) as int].0 > gap,
    decreases sorted.len(),
{
    if sorted.len() >= 2 && sorted[0].0 - sorted[1].0 <= gap {
        let rest = sorted.drop_first();
        lemma_gap_window(rest, gap);
        assert forall|i: int| 1 <= i < gap_window_len(sorted, gap) implies sorted[i - 1].0 - (
        #[trigger] sorted[i]).0 <= gap by {
            if i >= 2 {
                assert(rest[i - 1] == sorted[i]);
                assert(rest[i - 2] == sorted[i - 1]);
            }
        }
    }
}

/// Whether a bucket scored `current` lies no more than `gap` points below a
/// bucket scored `previous`.
fn within_gap(previous: u32, current: u32, gap: u32) -> (close: bool)
    ensures
        close == (previous - current <= gap),
{
    previous <= current || previous - current <= gap
}

/// Keeps the buckets worth offering: the top bucket, and every bucket after
/// it up to the first one that lies more than `gap` points below the bucket
/// before it.
pub fn filter_by_score_gap<'a>(sorted_matches: &mut [(u32, &'a Vec<String>)], gap: u32) -> (filtered:
    Vec<(u32, &'a Vec<String>)>)
    ensures
        final(sorted_matches)@ == old(sorted_matches)@,
        filtered@ == gap_window(old(sorted_matches)@, gap as int),
        old(sorted_matches)@.len() > 0 ==> filtered@.len() >= 1,
        forall|i: int|
            1 <= i < filtered@.len() ==> filtered@[i - 1].0 - (#[trigger] filtered@[i]).0 <= gap,
        filtered@.len() < old(sorted_matches)@.len() ==> old(sorted_matches)@[filtered@.len()
            - 1].0 - old(sorted_matches)@[filtered@.len() as int].0 > gap,
{
    let mut filtered: Vec<(u32, &'a Vec<String>)> = Vec::new();
    if sorted_matches.len() == 0 {
        return filtered;
    }
    let ghost sorted = sorted_matches@;
    proof {
        lemma_gap_window(sorted, gap as int);
    }
    filtered.push(sorted_matches[0]);
    assert(sorted.skip(0) =~= sorted);
    let mut i: usize = 1;
    while i < sorted_matches.len() && within_gap(
        sorted_matches[i - 1].0,
        sorted_matches[i].0,
        gap,
    )
        invariant
            sorted_matches@ == sorted,
            1 <= i <= sorted.len(),
            filtered@ == sorted.take(i as int),
            gap_window_len(sorted, gap as int) == i - 1 + gap_window_len(
                sorted.skip(i - 1),
                gap as int,
            ),
        decreases sorted.len() - i,
    {
        assert(sorted.skip(i - 1).drop_first() =~= sorted.skip(i as int));
        filtered.push(sorted_matches[i]);
        assert(sorted.take(i + 1) =~= sorted.take(i as int).push(sorted[i as int]));
        i += 1;
    }
    filtered
}

/// The buckets of a listing, in characters.
pub open spec fn listing_view(sorted: Seq<(u32, &Vec<String>)>) -> Seq<(u32, Seq<Seq<char>>)> {
    Seq::new(sorted.len(), |i: int| (sorted[i].0, sorted[i].1.deep_view()))
}

/// The first name of every bucket of a window.
pub open spec fn first_names(window: Seq<(u32, Seq<Seq<char>>)>) -> Seq<Seq<char>> {
    Seq::new(window.len(), |i: int| window[i].1[0])
}

/// Whether every bucket of a window holds at least one name.
pub open spec fn all_inhabited(window: Seq<(u32, Seq<Seq<char>>)>) -> bool {
    forall|i: int| 0 <= i < window.len() ==> (#[trigger] window[i]).1.len() > 0
}

/// What a window of buckets resolves to. A single bucket answers with its
/// first name; several buckets ask the user to choose between their first
/// names; no bucket at all, or a bucket without a name, is a failure.
pub open spec fn window_outcome(window: Seq<(u32, Seq<Seq<char>>)>) -> Result<
    ResolutionView,
    ResolveError,
> {
    if window.len() == 0 || !all_inhabited(window) {
        Err(ResolveError::NoExactOrFuzzyMatch)
    } else if window.len() == 1 {
        Ok(ResolutionView::Resolved(window[0].1[0]))
    } else {
        Ok(ResolutionView::Ambiguous(first_names(window)))
    }
}

/// Decides what a window of buckets resolves to.
///
/// Of a bucket that holds several names of equal score only the first is
/// answered or offered.
pub fn resolve_window(window: &[(u32, &Vec<String>)]) -> (outcome: Result<
    Resolution,
    ResolveError,
>)
    ensures
        outcome_view(outcome) == window_outcome(listing_view(window@)),
{
    let ghost view = listing_view(window@);
    let mut choices: Vec<String> = Vec::new();
    let mut i: usize = 0;
    while i < window.len()
        invariant
            i <= window@.len(),
            view == listing_view(window@),
            choices@.len() == i,
            forall|k: int| 0 <= k < i ==> (#[trigger] view[k]).1.len() > 0,
            forall|k: int| 0 <= k < i ==> (#[trigger] choices@[k])@ == view[k].1[0],
        decreases window@.len() - i,
    {
        let names: &Vec<String> = window[i].1;
        if names.len() == 0 {
            assert(view[i as int].1.len() == 0);
            return Err(ResolveError::NoExactOrFuzzyMatch);
        }
        choices.push(names[0].clone());
        i += 1;
    }
    if choices.len() == 0 {
        Err(ResolveError::NoExactOrFuzzyMatch)
    } else if choices.len() == 1 {
        let name = choices.remove(0);
        Ok(Resolution::Resolved(name))
    } else {
        assert(choices.deep_view() =~= first_names(view));
        Ok(Resolution::Ambiguous(choices))
    }
}

/// The buckets that hold a candidate and whose key is at most `top`, from the
/// largest key to the smallest.
pub open spec fn ranked_buckets(names: Seq<Seq<char>>, pattern: Seq<char>, top: int) -> Seq<
    (u32, Seq<Seq<char>>),
>
    decreases top + 1,
{
    if top < 0 {
        Seq::empty()
    } else {
        let here = bucket(names, pattern, top);
        let below = ranked_buckets(names, pattern, top - 1);
        if here.len() > 0 {
            seq![(top as u32, here)] + below
        } else {
            below
        }
    }
}

/// All buckets that hold a candidate, from the best score to the worst.
pub open spec fn ranking(names: Seq<Seq<char>>, pattern: Seq<char>) -> Seq<(u32, Seq<Seq<char>>)> {
    ranked_buckets(names, pattern, 100)
}

/// The ranking up to `top` goes strictly down, holds each key with its
/// bucket, and holds exactly the keys up to `top` whose bucket has a name.
proof fn lemma_ranked_buckets(names: Seq<Seq<char>>, pattern: Seq<char>, top: int)
    requires
        -1 <= top <= u32::MAX,
    ensures
        strictly_descending(ranked_buckets(names, pattern, top)),
        forall|i: int|
            0 <= i < ranked_buckets(names, pattern, top).len() ==> {
                let entry = #[trigger] ranked_buckets(names, pattern, top)[i];
                entry.0 <= top && entry.1 == bucket(names, pattern, entry.0 as int) && entry.1.len()
                    > 0
            },
        forall|k: u32|
            lists_key(ranked_buckets(names, pattern, top), k) <==> k <= top && bucket(
                names,
                pattern,
                k as int,
            ).len() > 0,
    decreases top + 1,
{
    let ranked = ranked_buckets(names, pattern, top);
    if top >= 0 {
        let below = ranked_buckets(names, pattern, top - 1);
        let here = bucket(names, pattern, top);
        lemma_ranked_buckets(names, pattern, top - 1);
        if here.len() > 0 {
            assert(ranked[0] == (top as u32, here));
            assert(forall|i: int| 1 <= i < ranked.len() ==> ranked[i] == below[i - 1]);
            assert forall|k: u32| lists_key(ranked, k) <==> k <= top && bucket(
                names,
                pattern,
                k as int,
            ).len() > 0 by {
                if lists_key(ranked, k) {
                    let i = choose|i: int| 0 <= i < ranked.len() && #[trigger] ranked[i].0 == k;
                    if i >= 1 {
                        assert(below[i - 1].0 == k);
                        assert(lists_key(below, k));
                    }
                }
                if k <= top && bucket(names, pattern, k as int).len() > 0 {
                    if k == top {
                        assert(ranked[0].0 == k);
                    } else {
                        assert(lists_key(below, k));
                        let i = choose|i: int| 0 <= i < below.len() && #[trigger] below[i].0 == k;
                        assert(ranked[i + 1].0 == k);
                    }
                }
            }
        } else {
            assert(ranked == below);
        }
    }
}

/// Two listings that go strictly down and hold the same keys hold them at
/// the same places.
proof fn lemma_descending_keys_unique<A, B>(a: Seq<(u32, A)>, b: Seq<(u32, B)>)
    requires
        strictly_descending(a),
        strictly_descending(b),
        forall|k: u32| lists_key(a, k) <==> lists_key(b, k),
    ensures
        a.len() == b.len(),
        forall|i: int| 0 <= i < a.len() ==> (#[trigger] a[i]).0 == b[i].0,
    decreases a.len(),
{
    if a.len() == 0 {
        if b.len() > 0 {
            assert(lists_key(b, b[0].0));
            let i = choose|i: int| 0 <= i < a.len() && #[trigger] a[i].0 == b[0].0;
        }
    } else {
        assert(lists_key(a, a[0].0));
        let j = choose|j: int| 0 <= j < b.len() && #[trigger] b[j].0 == a[0].0;
        assert(lists_key(b, b[0].0));
        let i = choose|i: int| 0 <= i < a.len() && #[trigger] a[i].0 == b[0].0;
        assert(a[0].0 == b[0].0);
        let a1 = a.drop_first();
        let b1 = b.drop_first();
        assert forall|k: u32| lists_key(a1, k) <==> lists_key(b1, k) by {
            if lists_key(a1, k) {
                let x = choose|x: int| 0 <= x < a1.len() && #[trigger] a1[x].0 == k;
                assert(a[x + 1].0 == k);
                assert(lists_key(a, k));
                let y = choose|y: int| 0 <= y < b.len() && #[trigger] b[y].0 == k;
                assert(b1[y - 1].0 == k);
            }
            if lists_key(b1, k) {
                let y = choose|y: int| 0 <= y < b1.len() && #[trigger] b1[y].0 == k;
                assert(b[y + 1].0 == k);
                assert(lists_key(b, k));
                let x = choose|x: int| 0 <= x < a.len() && #[trigger] a[x].0 == k;
                assert(a1[x - 1].0 == k);
            }
        }
        lemma_descending_keys_unique(a1, b1);
        assert forall|i: int| 0 <= i < a.len() implies (#[trigger] a[i]).0 == b[i].0 by {
            if i >= 1 {
                assert(a1[i - 1] == a[i]);
                assert(b1[i - 1] == b[i]);
            }
        }
    }
}

/// Listing the groups of the candidates from the largest key down gives the
/// ranking, in whatever order the groups were found.
pub proof fn lemma_listing_is_ranking(
    sorted: Seq<(u32, &Vec<String>)>,
    groups: Map<u32, Vec<String>>,
    names: Seq<Seq<char>>,
    pattern: Seq<char>,
)
    requires
        is_descending_listing(sorted, groups),
        is_grouping(groups, names, pattern),
    ensures
        listing_view(sorted) == ranking(names, pattern),
{
    let ranked = ranking(names, pattern);
    lemma_ranked_buckets(names, pattern, 100);
    assert forall|k: u32| lists_key(sorted, k) <==> lists_key(ranked, k) by {
        if lists_key(sorted, k) {
            let i = choose|i: int| 0 <= i < sorted.len() && #[trigger] sorted[i].0 == k;
            assert(groups.contains_key(k));
            let members = bucket(names, pattern, k as int);
            names.lemma_filter_pred(|name: Seq<char>| bucket_key(name, pattern) == k as int, 0);
            assert(bucket_key(members[0], pattern) == k);
            lemma_bucket_key_is_percentage(members[0], pattern);
        }
        if lists_key(ranked, k) {
            assert(groups.contains_key(k));
        }
    }
    lemma_descending_keys_unique(sorted, ranked);
    assert forall|i: int| 0 <= i < sorted.len() implies listing_view(sorted)[i] == ranked[i] by {
        assert(groups.contains_key(sorted[i].0));
        assert(sorted[i].0 == ranked[i].0);
    }
    assert(listing_view(sorted) =~= ranked);
}

/// The window of a listing depends on its keys alone.
proof fn lemma_gap_window_of_view(sorted: Seq<(u32, &Vec<String>)>, gap: int)
    ensures
        gap_window_len(listing_view(sorted), gap) == gap_window_len(sorted, gap),
        listing_view(gap_window(sorted, gap)) == gap_window(listing_view(sorted), gap),
    decreases sorted.len(),
{
    if sorted.len() >= 2 {
        assert(listing_view(sorted).drop_first() =~= listing_view(sorted.drop_first()));
        lemma_gap_window_of_view(sorted.drop_first(), gap);
    }
    lemma_gap_window(sorted, gap);
    assert(listing_view(gap_window(sorted, gap)) =~= gap_window(listing_view(sorted), gap));
}

/// What a query resolves to among the candidate names.
///
/// Without candidates there is nothing to resolve. A query that is itself a
/// candidate resolves to that candidate, whatever the scores are. Otherwise
/// the candidates are ranked by score, and the window at the top of the
/// ranking decides.
pub open spec fn resolution_of(names: Seq<Seq<char>>, query: Seq<char>) -> Result<
    ResolutionView,
    ResolveError,
> {
    if names.len() == 0 {
        Err(ResolveError::EmptyCandidateSet)
    } else if names.contains(query) {
        Ok(ResolutionView::Resolved(query))
    } else {
        window_outcome(gap_window(ranking(names, query), SCORE_GAP as int))
    }
}

/// The exact-match shortcut: a query that is itself one of the candidates
/// resolves to that candidate, whatever any candidate scores.
pub proof fn lemma_exact_match_shortcut(names: Seq<Seq<char>>, query: Seq<char>)
    requires
        names.contains(query),
    ensures
        resolution_of(names, query) == Ok::<ResolutionView, ResolveError>(
            ResolutionView::Resolved(query),
        ),
{
}

/// Resolution fails only for want of candidates, and what it answers or
/// offers is taken from the candidates: a resolved name is one of them, and
/// the choices put to the user are at least two, each one of them.
pub proof fn lemma_resolution_is_candidate(names: Seq<Seq<char>>, query: Seq<char>)
    ensures
        match resolution_of(names, query) {
            Ok(ResolutionView::Resolved(name)) => names.contains(name),
            Ok(ResolutionView::Ambiguous(choices)) => choices.len() >= 2 && forall|i: int|
                0 <= i < choices.len() ==> names.contains(#[trigger] choices[i]),
            Err(error) => error == ResolveError::EmptyCandidateSet && names.len() == 0,
        },
{
    if names.len() > 0 && !names.contains(query) {
        let ranked = ranking(names, query);
        let window = gap_window(ranked, SCORE_GAP as int);
        lemma_ranked_buckets(names, query, 100);
        lemma_gap_window(ranked, SCORE_GAP as int);
        // The first candidate falls in some bucket, so the ranking is not empty.
        let key = bucket_key(names[0], query);
        lemma_bucket_key_is_percentage(names[0], query);
        names.lemma_filter_contains(|name: Seq<char>| bucket_key(name, query) == key, 0);
        assert(bucket(names, query, key).contains(names[0]));
        assert(lists_key(ranked, key as u32));
        assert(window.len() >= 1);
        assert forall|i: int| 0 <= i < window.len() implies (#[trigger] window[i]).1.len() > 0
            && names.contains(window[i].1[0]) by {
            let entry = ranked[i];
            assert(window[i] == entry);
            assert(entry.1.contains(entry.1[0]));
            names.lemma_filter_contains_rev(
                |name: Seq<char>| bucket_key(name, query) == entry.0 as int,
                entry.1[0],
            );
        }
        assert(all_inhabited(window));
    }
}

/// Resolves a query to one of the candidate names.
///
/// A query that is itself a candidate is answered at once, before any score
/// is computed. Otherwise every candidate is scored, the buckets are ranked,
/// and the window at the top of the ranking either answers with its one
/// first name or is handed back for the user to choose from.
pub fn resolve_name(candidates: Vec<&str>, query: &str) -> (outcome: Result<
    Resolution,
    ResolveError,
>)
    ensures
        outcome_view(outcome) == resolution_of(texts_of(candidates@), query@),
        candidates@.len() == 0 ==> outcome == Err::<Resolution, ResolveError>(
            ResolveError::EmptyCandidateSet,
        ),
        texts_of(candidates@).contains(query@) ==> outcome_view(outcome) == Ok::<
            ResolutionView,
            ResolveError,
        >(ResolutionView::Resolved(query@)),
{
    let ghost names = texts_of(candidates@);
    if candidates.len() == 0 {
        return Err(ResolveError::EmptyCandidateSet);
    }
    let mut i: usize = 0;
    while i < candidates.len()
        invariant
            i <= candidates@.len(),
            names == texts_of(candidates@),
            forall|k: int| 0 <= k < i ==> names[k] != query@,
        decreases candidates@.len() - i,
    {
        if str_equal(candidates[i], query) {
            assert(names[i as int] == query@);
            return Ok(Resolution::Resolved(query.to_string()));
        }
        i += 1;
    }
    let groups = matching(candidates, query);
    let mut sorted = sort_hashmap_by_keys(&groups);
    let ghost listing = sorted@;
    let window = filter_by_score_gap(sorted.as_mut_slice(), SCORE_GAP);
    proof {
        lemma_listing_is_ranking(listing, groups@, names, query@);
        lemma_gap_window_of_view(listing, SCORE_GAP as int);
    }
    resolve_window(window.as_slice())
}

/// Resolves what the user typed to the name of a project of the index: the
/// project of exactly that name where there is one, else the project whose
/// name comes closest, or the close ones for the user to choose from.
pub fn find_or_fuzzing_match_project(project_index: &ProjectIndex, project_name: &str) -> (outcome:
    Result<Resolution, ResolveError>)
    ensures
        outcome_view(outcome) == resolution_of(project_index.names(), project_name@),
{
    resolve_name(project_index.project_names(), project_name)
}

} // verus!
