use cli_project_manager::models::project_config::ProjectMetaData;
use cli_project_manager::models::project_index::ProjectIndex;
use cli_project_manager::resolver::{
    filter_by_score_gap, find_or_fuzzing_match_project, resolve_name, resolve_window, Resolution,
    ResolveError, SCORE_GAP,
};

#[test]
fn test_filter_by_score_gap() {
    let a = vec!["a".to_string()];
    let b = vec!["b".to_string()];
    let c = vec!["c".to_string()];
    let d = vec!["d".to_string()];
    let all_pass_match: Vec<(u32, &Vec<String>)> = vec![(100, &a), (90, &b), (80, &c), (70, &d)];
    let all_pass_expected = vec![(100, &a), (90, &b), (80, &c), (70, &d)];

    let only_first: Vec<(u32, &Vec<String>)> = vec![(100, &a), (50, &b), (30, &c), (20, &d)];
    let only_first_expected = vec![(100, &a)];

    let first_three: Vec<(u32, &Vec<String>)> = vec![(100, &a), (90, &b), (80, &c), (10, &d)];
    let first_three_expected = vec![(100, &a), (90, &b), (80, &c)];

    let samples = vec![
        (all_pass_match, all_pass_expected),
        (only_first, only_first_expected),
        (first_three, first_three_expected),
    ];

    for (mut input, expected) in samples {
        let result = filter_by_score_gap(&mut input, 20);
        assert_eq!(
            result, expected,
            "Failed on input: {:?} -> {:?}",
            input, expected
        );
    }
}

#[test]
fn filter_by_score_gap_stops_at_the_first_wide_gap() {
    let a = vec!["a".to_string()];
    let b = vec!["b".to_string()];
    let c = vec!["c".to_string()];
    let d = vec!["d".to_string()];
    // 50 and 45 lie close to each other, but beyond the gap after 90.
    let mut input: Vec<(u32, &Vec<String>)> = vec![(100, &a), (90, &b), (50, &c), (45, &d)];
    assert_eq!(
        filter_by_score_gap(&mut input, 20),
        vec![(100, &a), (90, &b)]
    );
    assert_eq!(input, vec![(100, &a), (90, &b), (50, &c), (45, &d)]);
}

#[test]
fn filter_by_score_gap_at_the_threshold() {
    let a = vec!["a".to_string()];
    let b = vec!["b".to_string()];
    let c = vec!["c".to_string()];
    // A gap of exactly 20 is kept, a gap of 21 is not.
    let mut input: Vec<(u32, &Vec<String>)> = vec![(100, &a), (80, &b), (59, &c)];
    assert_eq!(
        filter_by_score_gap(&mut input, SCORE_GAP),
        vec![(100, &a), (80, &b)]
    );
    let mut input: Vec<(u32, &Vec<String>)> = vec![(100, &a), (80, &b), (60, &c)];
    assert_eq!(
        filter_by_score_gap(&mut input, SCORE_GAP),
        vec![(100, &a), (80, &b), (60, &c)]
    );
    let mut input: Vec<(u32, &Vec<String>)> = vec![(100, &a), (80, &b), (60, &c)];
    assert_eq!(filter_by_score_gap(&mut input, 0), vec![(100, &a)]);
}

#[test]
fn filter_by_score_gap_of_one_bucket_and_of_none() {
    let a = vec!["a".to_string()];
    let mut one: Vec<(u32, &Vec<String>)> = vec![(40, &a)];
    assert_eq!(filter_by_score_gap(&mut one, 20), vec![(40, &a)]);

    let mut none: Vec<(u32, &Vec<String>)> = Vec::new();
    assert!(filter_by_score_gap(&mut none, 20).is_empty());
}

#[test]
fn exact_match_resolves_at_once() {
    assert_eq!(
        resolve_name(vec!["alpha", "beta"], "alpha"),
        Ok(Resolution::Resolved("alpha".to_string()))
    );
}

#[test]
fn exact_match_wins_over_better_scoring_neighbours() {
    // "web" scores 100 against "webapp" and "web-app" as well (prefix and
    // substring bonus), yet the literal name is answered without a question.
    assert_eq!(
        resolve_name(vec!["webapp", "web-app", "web"], "web"),
        Ok(Resolution::Resolved("web".to_string()))
    );
}

#[test]
fn close_scores_ask_the_user() {
    // "alpha" scores 100 and "alpine" 90 against "alp".
    assert_eq!(
        resolve_name(vec!["alpha", "alpine"], "alp"),
        Ok(Resolution::Ambiguous(vec![
            "alpha".to_string(),
            "alpine".to_string()
        ]))
    );
}

#[test]
fn choices_come_from_the_best_score_down() {
    assert_eq!(
        resolve_name(vec!["alpine", "zzz", "alpha"], "alp"),
        Ok(Resolution::Ambiguous(vec![
            "alpha".to_string(),
            "alpine".to_string()
        ]))
    );
}

#[test]
fn clear_winner_resolves_without_a_question() {
    // "webapp" scores 100 against "webap", "zzzzzz" scores 0.
    assert_eq!(
        resolve_name(vec!["zzzzzz", "webapp"], "webap"),
        Ok(Resolution::Resolved("webapp".to_string()))
    );
}

#[test]
fn single_candidate_resolves_to_itself() {
    assert_eq!(
        resolve_name(vec!["webapp"], "completely different"),
        Ok(Resolution::Resolved("webapp".to_string()))
    );
}

#[test]
fn equal_scores_resolve_to_the_first_candidate() {
    assert_eq!(
        resolve_name(vec!["web-app", "web_app"], "webapp"),
        Ok(Resolution::Resolved("web-app".to_string()))
    );
    assert_eq!(
        resolve_name(vec!["web_app", "web-app"], "webapp"),
        Ok(Resolution::Resolved("web_app".to_string()))
    );
}

#[test]
fn no_candidates_is_an_error() {
    assert_eq!(
        resolve_name(Vec::new(), "alpha"),
        Err(ResolveError::EmptyCandidateSet)
    );
    assert_eq!(
        resolve_name(Vec::new(), ""),
        Err(ResolveError::EmptyCandidateSet)
    );
}

#[test]
fn resolved_name_is_a_candidate() {
    let candidates = vec!["alpha", "alpine", "beta", "web-app", "cli_project_manager"];
    for query in ["alp", "beta", "webapp", "cli", "x", "", "manager"] {
        match resolve_name(candidates.clone(), query) {
            Ok(Resolution::Resolved(name)) => {
                assert!(candidates.contains(&name.as_str()), "Failed on {}", query)
            }
            Ok(Resolution::Ambiguous(choices)) => {
                assert!(choices.len() >= 2, "Failed on {}", query);
                for name in choices {
                    assert!(candidates.contains(&name.as_str()), "Failed on {}", query);
                }
            }
            Err(error) => panic!("Failed on {}: {:?}", query, error),
        }
    }
}

#[test]
fn window_without_buckets_or_names_is_no_match() {
    assert_eq!(
        resolve_window(&[]),
        Err(ResolveError::NoExactOrFuzzyMatch)
    );

    let empty: Vec<String> = Vec::new();
    let a = vec!["a".to_string()];
    assert_eq!(
        resolve_window(&[(100, &empty)]),
        Err(ResolveError::NoExactOrFuzzyMatch)
    );
    assert_eq!(
        resolve_window(&[(100, &a), (90, &empty)]),
        Err(ResolveError::NoExactOrFuzzyMatch)
    );
}

#[test]
fn window_shows_the_first_name_of_each_bucket() {
    let a = vec!["a1".to_string(), "a2".to_string()];
    let b = vec!["b1".to_string(), "b2".to_string(), "b3".to_string()];
    assert_eq!(
        resolve_window(&[(100, &a)]),
        Ok(Resolution::Resolved("a1".to_string()))
    );
    assert_eq!(
        resolve_window(&[(100, &a), (90, &b)]),
        Ok(Resolution::Ambiguous(vec![
            "a1".to_string(),
            "b1".to_string()
        ]))
    );
}

fn indexed_project(name: &str, path: &str) -> ProjectMetaData {
    ProjectMetaData::new(
        path.to_string(),
        Some(name.to_string()),
        None,
        "2023-09-23T12:00:00Z".to_string(),
    )
}

#[test]
fn resolves_against_the_names_of_the_index() {
    let mut project_index = ProjectIndex::new();
    project_index.projects.push(indexed_project("alpha", "/work/alpha"));
    project_index.projects.push(indexed_project("alpine", "/work/alpine"));
    project_index.projects.push(indexed_project("web-app", "/work/web"));

    assert_eq!(
        find_or_fuzzing_match_project(&project_index, "alpine"),
        Ok(Resolution::Resolved("alpine".to_string()))
    );
    assert_eq!(
        find_or_fuzzing_match_project(&project_index, "webapp"),
        Ok(Resolution::Resolved("web-app".to_string()))
    );
    assert_eq!(
        find_or_fuzzing_match_project(&project_index, "alp"),
        Ok(Resolution::Ambiguous(vec![
            "alpha".to_string(),
            "alpine".to_string()
        ]))
    );
    assert_eq!(
        find_or_fuzzing_match_project(&ProjectIndex::new(), "alp"),
        Err(ResolveError::EmptyCandidateSet)
    );
}
