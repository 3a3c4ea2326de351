use ghh::config::Config;
use ghh::cleanup::TaskCleanup;
use ghh::extractor::{fill_titles, group_references, sort_by_url, Extractor};

fn extractor() -> Extractor {
    Extractor::new(Config { repos: vec![], user_name: "me".to_string(), user_token: "t".to_string() }, 2)
}

#[test]
fn commit_lines_give_local_then_remote_references() {
    let url = "https://github.com/org/repo".to_string();
    let refs = extractor().commit_references("see other/x#2 and #1\nplain\nwork #3", &url);
    let urls: Vec<&str> = refs.iter().map(|r| r.full_issue_url.as_str()).collect();
    assert_eq!(urls, vec![
        "https://github.com/org/repo/issues/1",
        "https://github.com/other/x/issues/2",
        "https://github.com/org/repo/issues/3",
    ]);
    assert_eq!(refs[0].message, "see other/x#2 and");
    assert_eq!(refs[1].message, "see and #1");
}

#[test]
fn references_are_grouped_by_issue() {
    let url = "u".to_string();
    let refs = extractor().commit_references("one #1\ntwo #2\nthree #1", &url);
    let groups = group_references(&refs);
    assert_eq!(groups.len(), 2);
    assert_eq!(groups[0].issue_url, "u/issues/1");
    assert_eq!(groups[0].messages, vec!["one", "three"]);
    assert_eq!(groups[1].issue_url, "u/issues/2");
    assert_eq!(groups[1].messages, vec!["two"]);
    assert_eq!(groups[0].issue_title, "");
}

#[test]
fn titles_are_filled() {
    let refs = extractor().commit_references("one #1", &"u".to_string());
    let mut groups = group_references(&refs);
    groups[0].fill_title(None);
    assert_eq!(groups[0].issue_title, "???");
    groups[0].fill_title(Some("Title".to_string()));
    assert_eq!(groups[0].issue_title, "Title");
    assert!(group_references(&vec![]).is_empty());
}

#[test]
fn extract_groups_the_references_of_all_sources() {
    let sources = vec![
        ("u".to_string(), "one #1\ntwo #2".to_string()),
        ("v".to_string(), "three #1\nfour u/w#2 #1".to_string()),
    ];
    let details = extractor().extract(&sources);
    let urls: Vec<&str> = details.iter().map(|d| d.issue_url.as_str()).collect();
    assert_eq!(urls, vec!["u/issues/1", "u/issues/2", "v/issues/1", "https://github.com/u/w/issues/2"]);
    assert_eq!(details[2].messages, vec!["three", "four u/w#2"]);
    assert_eq!(details[3].messages, vec!["four #1"]);
    let details = fill_titles(details, vec![Some("A".to_string()), None, Some("C".to_string()), None]);
    let titles: Vec<&str> = details.iter().map(|d| d.issue_title.as_str()).collect();
    assert_eq!(titles, vec!["A", "???", "C", "???"]);
    assert_eq!(details[0].messages, vec!["one"]);
}

#[test]
fn entries_are_sorted_by_url() {
    let sources = vec![("u".to_string(), "b other/z#9\nc #2\nd #10\ne #1".to_string())];
    let details = sort_by_url(extractor().extract(&sources));
    let urls: Vec<&str> = details.iter().map(|d| d.issue_url.as_str()).collect();
    assert_eq!(urls, vec!["https://github.com/other/z/issues/9", "u/issues/1", "u/issues/10", "u/issues/2"]);
    assert_eq!(details[1].messages, vec!["e"]);
    assert!(sort_by_url(vec![]).is_empty());
}

#[test]
fn cards_younger_than_the_limit_are_kept() {
    let cmd = TaskCleanup { column_id: 3, days: 7 };
    assert!(cmd.is_recent(6));
    assert!(!cmd.is_recent(7));
    assert!(!cmd.is_recent(100));
}
