use cli_project_manager::resolver::{resolve_name, Resolution, ResolveError};
use cli_project_manager::selection::{
    decimal_string, prompt_user_for_project_selection, read_selection, selection_menu,
};

fn choices() -> Vec<String> {
    vec!["alpha".to_string(), "alpine".to_string(), "beta".to_string()]
}

#[test]
fn menu_numbers_the_choices_from_zero() {
    assert_eq!(
        selection_menu(&choices()),
        vec![
            "0: alpha".to_string(),
            "1: alpine".to_string(),
            "2: beta".to_string()
        ]
    );
    assert!(selection_menu(&[]).is_empty());
}

#[test]
fn menu_numbers_beyond_nine() {
    let many: Vec<String> = (0..12).map(|i| format!("project-{}", i)).collect();
    let lines = selection_menu(&many);
    assert_eq!(lines.len(), 12);
    assert_eq!(lines[9], "9: project-9");
    assert_eq!(lines[10], "10: project-10");
    assert_eq!(lines[11], "11: project-11");
}

#[test]
fn decimal_string_writes_base_ten() {
    assert_eq!(decimal_string(0), "0");
    assert_eq!(decimal_string(7), "7");
    assert_eq!(decimal_string(10), "10");
    assert_eq!(decimal_string(109), "109");
    assert_eq!(decimal_string(usize::MAX), usize::MAX.to_string());
}

#[test]
fn selection_by_index() {
    assert_eq!(
        prompt_user_for_project_selection(&choices(), "0\n"),
        Ok("alpha".to_string())
    );
    assert_eq!(
        prompt_user_for_project_selection(&choices(), "1\n"),
        Ok("alpine".to_string())
    );
    assert_eq!(
        prompt_user_for_project_selection(&choices(), "2"),
        Ok("beta".to_string())
    );
}

#[test]
fn selection_ignores_surrounding_white_space() {
    assert_eq!(read_selection("  1  \r\n", 3), Ok(1));
    assert_eq!(read_selection("\t2\n", 3), Ok(2));
    assert_eq!(read_selection("\u{a0}0\u{2003}\u{3000}", 3), Ok(0));
    // White space inside the number is not ignored.
    assert_eq!(
        read_selection("1 2\n", 30),
        Err(ResolveError::InvalidSelectionInput)
    );
}

#[test]
fn selection_accepts_sign_and_leading_zeros() {
    assert_eq!(read_selection("+1\n", 3), Ok(1));
    assert_eq!(read_selection("002\n", 3), Ok(2));
    assert_eq!(read_selection("+000\n", 3), Ok(0));
}

#[test]
fn selection_that_is_not_a_number_is_invalid() {
    for line in [
        "", "\n", "   ", "abc\n", "-1\n", "1.0\n", "0x1\n", "+\n", "++1\n", "1+\n", "1_0\n", "one\n",
        "１\n",
    ] {
        assert_eq!(
            read_selection(line, 3),
            Err(ResolveError::InvalidSelectionInput),
            "Failed on {:?}",
            line
        );
        assert_eq!(
            prompt_user_for_project_selection(&choices(), line),
            Err(ResolveError::InvalidSelectionInput),
            "Failed on {:?}",
            line
        );
    }
}

#[test]
fn selection_beyond_the_choices_is_out_of_range() {
    for line in ["3\n", "4\n", "10\n", "18446744073709551615\n", "18446744073709551616\n",
        "99999999999999999999999999999999999999999999\n"]
    {
        assert_eq!(
            read_selection(line, 3),
            Err(ResolveError::SelectionOutOfRange),
            "Failed on {:?}",
            line
        );
        assert_eq!(
            prompt_user_for_project_selection(&choices(), line),
            Err(ResolveError::SelectionOutOfRange),
            "Failed on {:?}",
            line
        );
    }
    assert_eq!(
        read_selection("0\n", 0),
        Err(ResolveError::SelectionOutOfRange)
    );
}

#[test]
fn selection_of_large_indices() {
    assert_eq!(read_selection("4096\n", 5000), Ok(4096));
    assert_eq!(
        read_selection("18446744073709551614\n", usize::MAX),
        Ok(18446744073709551614)
    );
    assert_eq!(
        read_selection("18446744073709551615\n", usize::MAX),
        Err(ResolveError::SelectionOutOfRange)
    );
}

#[test]
fn written_index_reads_back() {
    for index in [0usize, 1, 9, 10, 11, 99, 100, 12345] {
        assert_eq!(
            read_selection(&decimal_string(index), index + 1),
            Ok(index)
        );
    }
}

#[test]
fn close_matches_are_listed_and_chosen_by_index() {
    let resolution = resolve_name(vec!["alpha", "alpine"], "alp");
    let choices = match resolution {
        Ok(Resolution::Ambiguous(choices)) => choices,
        other => panic!("expected a question, got {:?}", other),
    };
    assert_eq!(
        selection_menu(&choices),
        vec!["0: alpha".to_string(), "1: alpine".to_string()]
    );
    assert_eq!(
        prompt_user_for_project_selection(&choices, "1\n"),
        Ok("alpine".to_string())
    );
    assert_eq!(
        prompt_user_for_project_selection(&choices, "2\n"),
        Err(ResolveError::SelectionOutOfRange)
    );
    assert_eq!(
        prompt_user_for_project_selection(&choices, "alpine\n"),
        Err(ResolveError::InvalidSelectionInput)
    );
}
