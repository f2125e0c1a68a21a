use std::collections::HashMap;

use cli_project_manager::utils::{normalize_string, sort_hashmap_by_keys, str_equal};

#[test]
fn test_normalize_string() {
    let samples = vec![
        ("cli-project_manager", "cliprojectmanager"),
        ("my_project-name/2024\\final", "myprojectname2024final"),
        ("project_1/test-case", "project1testcase"),
        ("----__//\\\\___", ""),
        ("  cli  / - project  _ manager  ", "cliprojectmanager"),
        (
            "C:/Users/Admin/cli_Project-Manager",
            "CUsersAdmincliProjectManager",
        ),
    ];

    for (input, expected) in samples {
        assert_eq!(
            normalize_string(input),
            expected,
            "Failed on {} -> {}",
            input,
            expected
        );
    }
}

#[test]
fn normalize_string_keeps_everything_but_delimiters() {
    assert_eq!(normalize_string(""), "");
    assert_eq!(normalize_string("plain"), "plain");
    assert_eq!(normalize_string("a.b,c;d|e\tf"), "a.b,c;d|e\tf");
    assert_eq!(normalize_string("héllo wörld"), "héllowörld");
    assert_eq!(normalize_string("-_/\\ :"), "");
    assert_eq!(normalize_string("a-b_c/d\\e f:g"), "abcdefg");
}

#[test]
fn test_sort_hashmap_by_keys_desc() {
    let mut sample = HashMap::new();

    sample.insert(10, "test");
    sample.insert(64, "test");
    sample.insert(123, "test");
    sample.insert(12, "test");

    let exepected = vec![(123, &"test"), (64, &"test"), (12, &"test"), (10, &"test")];

    assert_eq!(sort_hashmap_by_keys(&sample), exepected);
}

#[test]
fn sort_hashmap_by_keys_pairs_each_key_with_its_value() {
    let mut sample: HashMap<u32, String> = HashMap::new();
    for key in [7u32, 100, 0, 55, 56, 3] {
        sample.insert(key, format!("value {}", key));
    }

    let sorted = sort_hashmap_by_keys(&sample);

    let keys: Vec<u32> = sorted.iter().map(|entry| entry.0).collect();
    assert_eq!(keys, vec![100, 56, 55, 7, 3, 0]);
    for (key, value) in sorted {
        assert_eq!(*value, format!("value {}", key));
    }
}

#[test]
fn sort_hashmap_by_keys_of_empty_map() {
    let sample: HashMap<u32, &str> = HashMap::new();
    assert!(sort_hashmap_by_keys(&sample).is_empty());
}

#[test]
fn str_equal_compares_contents() {
    assert!(str_equal("", ""));
    assert!(str_equal("alpha", "alpha"));
    assert!(str_equal("héllo", "héllo"));
    assert!(!str_equal("alpha", "alphA"));
    assert!(!str_equal("alpha", "alph"));
    assert!(!str_equal("", "a"));
}
