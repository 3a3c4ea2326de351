use ghh::refs::{LocalRefExtractor, RemoteRefExtractor};

#[test]
fn test_remote_ref() {
    let vec1 = RemoteRefExtractor::new().extract("ref org/repo#1375: some issue");
    assert_eq!(vec1.get(0).unwrap().message, "ref: some issue".to_string(),);
    assert_eq!(
        vec1.get(0).unwrap().full_issue_url,
        "https://github.com/org/repo/issues/1375".to_string(),
    );
}

#[test]
fn remote_ref_is_the_only_one_and_has_its_number() {
    let refs = RemoteRefExtractor::new().extract("ref org/repo#1375: some issue");
    assert_eq!(refs.len(), 1);
    assert_eq!(refs[0].number, 1375);
}

#[test]
fn line_without_tokens_gives_nothing() {
    let url = "https://github.com/org/repo".to_string();
    assert!(LocalRefExtractor::new().extract("nothing to see here", &url).is_empty());
    assert!(LocalRefExtractor::new().extract("#12 at the start has no space", &url).is_empty());
    assert!(LocalRefExtractor::new().extract("", &url).is_empty());
    assert!(RemoteRefExtractor::new().extract("no remote # here / at all").is_empty());
}

#[test]
fn one_local_token() {
    let url = "https://github.com/org/repo".to_string();
    let refs = LocalRefExtractor::new().extract("fix #42 today", &url);
    assert_eq!(refs.len(), 1);
    assert_eq!(refs[0].number, 42);
    assert_eq!(refs[0].message, "fix today");
    assert_eq!(refs[0].full_issue_url, "https://github.com/org/repo/issues/42");
}

#[test]
fn two_local_tokens_share_the_message() {
    let url = "https://github.com/org/repo".to_string();
    let refs = LocalRefExtractor::new().extract("- #1 and #22", &url);
    assert_eq!(refs.len(), 2);
    assert_eq!(refs[0].number, 1);
    assert_eq!(refs[1].number, 22);
    assert_eq!(refs[0].message, "- and");
    assert_eq!(refs[1].message, "- and");
    assert_eq!(refs[1].full_issue_url, "https://github.com/org/repo/issues/22");
}

#[test]
fn digits_are_kept_as_written_in_the_url() {
    let url = "u".to_string();
    let refs = LocalRefExtractor::new().extract("see #007", &url);
    assert_eq!(refs.len(), 1);
    assert_eq!(refs[0].number, 7);
    assert_eq!(refs[0].full_issue_url, "u/issues/007");
}

#[test]
fn number_too_large_is_no_token() {
    let url = "u".to_string();
    let refs = LocalRefExtractor::new().extract("a #99999999999999999999 b #18446744073709551615", &url);
    assert_eq!(refs.len(), 1);
    assert_eq!(refs[0].number, u64::MAX);
    assert_eq!(refs[0].message, "a #99999999999999999999 b");
}

#[test]
fn hash_without_digits_is_no_token() {
    let url = "u".to_string();
    assert!(LocalRefExtractor::new().extract("a # b #x", &url).is_empty());
}

#[test]
fn remote_owner_and_repo_stop_at_whitespace() {
    let refs = RemoteRefExtractor::new().extract("x a/b c/d#5 tail");
    assert_eq!(refs.len(), 1);
    assert_eq!(refs[0].full_issue_url, "https://github.com/c/d/issues/5");
    assert_eq!(refs[0].message, "x a/b tail");
    let refs = RemoteRefExtractor::new().extract("x y o/p#5");
    assert_eq!(refs.len(), 1);
    assert_eq!(refs[0].full_issue_url, "https://github.com/o/p/issues/5");
    assert_eq!(refs[0].message, "x y");
    assert!(RemoteRefExtractor::new().extract("see a b/c#1").len() == 1);
    assert_eq!(RemoteRefExtractor::new().extract("see a b/c#1")[0].full_issue_url, "https://github.com/b/c/issues/1");
}

#[test]
fn remote_repo_may_hold_a_slash_but_not_a_hash() {
    let refs = RemoteRefExtractor::new().extract(" a/b/c#3");
    assert_eq!(refs[0].full_issue_url, "https://github.com/a/b/c/issues/3");
    assert!(RemoteRefExtractor::new().extract(" a#b/c#3").is_empty());
    assert!(RemoteRefExtractor::new().extract(" a/#3").is_empty());
}

#[test]
fn digits_without_a_hash_are_no_local_token() {
    let url = "u".to_string();
    assert!(LocalRefExtractor::new().extract("Sprint 12", &url).is_empty());
    assert!(LocalRefExtractor::new().extract(" 12", &url).is_empty());
    assert!(LocalRefExtractor::new().extract("Q1 2023", &url).is_empty());
    let refs = LocalRefExtractor::new().extract(" 12 #5", &url);
    assert_eq!(refs.len(), 1);
    assert_eq!(refs[0].number, 5);
    assert_eq!(refs[0].message, " 12");
    let refs = LocalRefExtractor::new().extract(" 12 #5 #6", &url);
    assert_eq!(refs.len(), 2);
    assert_eq!(refs[1].message, " 12");
}

#[test]
fn remote_tokens_do_not_overlap() {
    let refs = RemoteRefExtractor::new().extract(" a/b#1 c/d#2");
    assert_eq!(refs.len(), 2);
    assert_eq!(refs[0].full_issue_url, "https://github.com/a/b/issues/1");
    assert_eq!(refs[1].full_issue_url, "https://github.com/c/d/issues/2");
    assert_eq!(refs[0].message, "");
}
