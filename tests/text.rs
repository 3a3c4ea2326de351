use ghh::text::{blocked_by_lines, has_prefix, split_lines};

#[test]
fn lines_are_cut_as_str_lines_does() {
    assert_eq!(split_lines("a\nb\r\nc\n"), vec!["a", "b", "c"]);
    assert_eq!(split_lines(""), Vec::<String>::new());
    assert_eq!(split_lines("\n\nx"), vec!["", "", "x"]);
    assert_eq!(split_lines("tail\r"), vec!["tail\r"]);
}

#[test]
fn prefix_test() {
    assert!(has_prefix("Blocked by #1", "Blocked by"));
    assert!(!has_prefix("Blocked", "Blocked by"));
    assert!(has_prefix("x", ""));
}

#[test]
fn blocked_by_block_is_prefix_lines_then_list() {
    let body = "intro\nBlocked by #1\n- #2\n- #3\nother\n- #4\nBlocked by #5";
    assert_eq!(
        blocked_by_lines(body, "Blocked by"),
        vec!["Blocked by #1", "Blocked by #5", "- #2", "- #3"]
    );
}

#[test]
fn blocked_by_block_may_be_empty() {
    assert!(blocked_by_lines("no blockers\n- #1", "Blocked by").is_empty());
    assert_eq!(blocked_by_lines("Blocked by:\nBlocked by #9\n- #2", "Blocked by"), vec![
        "Blocked by:",
        "Blocked by #9",
        "- #2"
    ]);
}
