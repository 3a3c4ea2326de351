use ghh::branch::{card_issue_number, BranchFromIssue};
use ghh::github::{Assignee, Issue};

#[test]
fn regex_replace() {
    assert_eq!(
        BranchFromIssue::stupify(
            "1412_Extend TestResult` model for ChangeOverTime evaluations".to_string()
        )
        .unwrap(),
        "1412_extend_testresult_model_for_changeovertime_evaluations"
    )
}

#[test]
fn stupify_joins_runs_of_non_word_characters() {
    assert_eq!(BranchFromIssue::stupify("Fix: the  BUG!".to_string()).unwrap(), "fix_the_bug_");
    assert_eq!(BranchFromIssue::stupify(String::new()).unwrap(), "");
}

#[test]
fn branch_name_joins_id_and_title() {
    assert_eq!(BranchFromIssue::branch_name("42", "Add Login page".to_string()).unwrap(), "42_add_login_page");
    assert_eq!(BranchFromIssue::branch_name("PRJ-7", "Öl & Wasser".to_string()).unwrap(), "PRJ-7_öl_wasser");
}

#[test]
fn card_numbers() {
    assert_eq!(card_issue_number("https://api.github.com/repos/o/r/issues/123"), Some(123));
    assert_eq!(card_issue_number("123"), Some(123));
    assert_eq!(card_issue_number("https://x/issues/"), None);
    assert_eq!(card_issue_number("https://x/issues/12a"), None);
    assert_eq!(card_issue_number("https://x/issues/99999999999999999999"), None);
    assert_eq!(card_issue_number("https://x/issues/18446744073709551615"), Some(u64::MAX));
}

#[test]
fn assignment() {
    let issue = Issue {
        number: 1,
        title: "t".to_string(),
        assignees: vec![Assignee { login: "ann".to_string() }, Assignee { login: "bob".to_string() }],
        body: String::new(),
        labels: vec![],
        milestone: None,
        closed_at: None,
    };
    assert!(issue.is_assigned_to(&"bob".to_string()));
    assert!(!issue.is_assigned_to(&"bo".to_string()));
}
