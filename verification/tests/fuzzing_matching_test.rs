use std::collections::HashMap;

use cli_project_manager::fuzzing_matching::{
    compute_matching_score, has_prefix, has_substring, matching, matching_key, score_of_bytes,
    Score,
};

fn as_float(score: &Score) -> f64 {
    score.numerator as f64 / score.denominator as f64
}

#[test]
fn webapp_against_webap_scores_one() {
    // Distance 1 over length 6, plus all three bonuses: 5/6 + 0.5, clamped.
    let score = compute_matching_score("webapp", "webap");
    assert_eq!(score.denominator, 60);
    assert_eq!(score.numerator, 60);
    assert_eq!(as_float(&score), 1.0);
    assert_eq!(score.percent(), 100);
    assert_eq!(matching_key("webapp", "webap"), 100);
}

#[test]
fn score_without_bonus_is_the_distance_ratio() {
    // Distance 3 over length 7, no bonus: 4/7.
    let score = compute_matching_score("kitten", "sitting");
    assert_eq!(score.numerator, 40);
    assert_eq!(score.denominator, 70);
    assert!((as_float(&score) - 4.0 / 7.0).abs() < 1e-12);
    assert_eq!(score.percent(), 57);
}

#[test]
fn score_strips_delimiters_from_the_candidate_only() {
    // "cliprojectmanager" against "cliproj": distance 10 over length 17,
    // prefix and substring bonus: 7/17 + 0.4.
    let score = compute_matching_score("cli-project_manager", "cliproj");
    assert_eq!(score.numerator, 138);
    assert_eq!(score.denominator, 170);
    assert_eq!(score.percent(), 81);

    // The delimiter stays in the query and counts as an edit.
    let score = compute_matching_score("cliproj", "cli-proj");
    assert_eq!(score.denominator, 80);
    // distance 1: 7/8 + 0.1, neither prefix nor substring
    assert_eq!(score.numerator, 78);
}

#[test]
fn score_bonuses_one_by_one() {
    // Near-exact bonus alone: distance 2 over length 2.
    let score = compute_matching_score("ab", "ba");
    assert_eq!((score.numerator, score.denominator), (2, 20));
    assert_eq!(score.percent(), 10);

    // Substring bonus alone: "xxabcxx" holds "abc", distance 4 over length 7.
    let score = compute_matching_score("xxabcxx", "abc");
    assert_eq!((score.numerator, score.denominator), (37, 70));
    assert_eq!(score.percent(), 53);

    // Prefix and substring bonus: "abcxxxx" starts with "abc".
    let score = compute_matching_score("abcxxxx", "abc");
    assert_eq!((score.numerator, score.denominator), (58, 70));
    assert_eq!(score.percent(), 83);

    // No bonus, nothing in common.
    let score = compute_matching_score("abc", "xyz");
    assert_eq!((score.numerator, score.denominator), (0, 30));
    assert_eq!(score.percent(), 0);
}

#[test]
fn score_against_empty_query() {
    // Distance 3 over length 3; the empty query is a prefix and a substring.
    let score = compute_matching_score("abc", "");
    assert_eq!((score.numerator, score.denominator), (12, 30));
    assert_eq!(score.percent(), 40);
}

#[test]
fn score_half_percent_rounds_up() {
    // Distance 1 over length 8, near-exact bonus: 7/8 + 0.1 = 97.5 %.
    let score = compute_matching_score("abcdefgh", "xbcdefgh");
    assert_eq!((score.numerator, score.denominator), (78, 80));
    assert_eq!(score.percent(), 98);
}

#[test]
fn score_lies_between_zero_and_one() {
    let names = ["", "a", "alpha", "web-app", "cli_project_manager", "héllo"];
    let queries = ["", "a", "alp", "webapp", "zzzzzzzzzzzzzzzzzzzzzzzz", "é"];
    for name in names {
        for query in queries {
            if name.is_empty() && query.is_empty() {
                continue;
            }
            let score = compute_matching_score(name, query);
            assert!(score.denominator > 0, "Failed on {} / {}", name, query);
            assert!(
                score.numerator <= score.denominator,
                "Failed on {} / {}",
                name,
                query
            );
            assert!(score.percent() <= 100);
            assert_eq!(score.percent(), matching_key(name, query));
        }
    }
}

#[test]
fn score_of_bytes_takes_the_candidate_as_it_is() {
    let score = score_of_bytes(b"web-app", b"webapp");
    // distance 1 over length 7, near-exact bonus only
    assert_eq!((score.numerator, score.denominator), (67, 70));
}

#[test]
fn key_of_empty_candidate_against_empty_query_is_zero() {
    assert_eq!(matching_key("", ""), 0);
    assert_eq!(matching_key("-_-", ""), 0);
    // Against a query of one letter the empty candidate is one edit away.
    assert_eq!(matching_key("-_-", "a"), 10);
}

#[test]
fn prefix_and_substring_search() {
    assert!(has_prefix(b"webapp", b"web"));
    assert!(has_prefix(b"webapp", b""));
    assert!(has_prefix(b"webapp", b"webapp"));
    assert!(!has_prefix(b"webapp", b"webappp"));
    assert!(!has_prefix(b"webapp", b"ebapp"));

    assert!(has_substring(b"webapp", b"bap"));
    assert!(has_substring(b"webapp", b"webapp"));
    assert!(has_substring(b"webapp", b"pp"));
    assert!(has_substring(b"webapp", b""));
    assert!(has_substring(b"", b""));
    assert!(!has_substring(b"webapp", b"wa"));
    assert!(!has_substring(b"webapp", b"webappp"));
    assert!(!has_substring(b"", b"a"));
}

#[test]
fn matching_groups_candidates_by_rounded_score() {
    let groups = matching(vec!["alpha", "alpine", "beta"], "alp");

    let mut expected: HashMap<u32, Vec<String>> = HashMap::new();
    expected.insert(100, vec!["alpha".to_string()]);
    expected.insert(90, vec!["alpine".to_string()]);
    expected.insert(0, vec!["beta".to_string()]);
    assert_eq!(groups, expected);
}

#[test]
fn matching_keeps_the_order_inside_a_bucket() {
    let groups = matching(vec!["web-app", "zzz", "web_app", "webapp"], "webapp");

    assert_eq!(groups.len(), 2);
    assert_eq!(
        groups[&100],
        vec![
            "web-app".to_string(),
            "web_app".to_string(),
            "webapp".to_string()
        ]
    );
    assert_eq!(groups[&0], vec!["zzz".to_string()]);
}

#[test]
fn matching_drops_no_candidate() {
    let candidates = vec![
        "alpha", "alpine", "beta", "alp", "a-l-p", "gamma", "alpha", "", "--",
    ];
    let groups = matching(candidates.clone(), "alp");

    let mut grouped: Vec<String> = Vec::new();
    for (key, names) in &groups {
        assert!(!names.is_empty());
        for name in names {
            assert_eq!(matching_key(name, "alp"), *key);
            grouped.push(name.clone());
        }
    }
    let mut given: Vec<String> = candidates.iter().map(|name| name.to_string()).collect();
    grouped.sort();
    given.sort();
    assert_eq!(grouped, given);
}

#[test]
fn matching_of_no_candidates_is_empty() {
    assert!(matching(Vec::new(), "alp").is_empty());
}
