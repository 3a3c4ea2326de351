use ghh::config::{Config, Repo};
use ghh::github::Github;
use ghh::jira::Jira;
use ghh::text::replace_text;

fn repo(location: &str) -> Repo {
    Repo { location: location.to_string(), author: "me".to_string(), in_progress_column: Some(3) }
}

#[test]
fn first_repo_under_the_path_is_chosen() {
    let config = Config {
        repos: vec![repo("/home/me/other"), repo("/home/me/work/a"), repo("/home/me/work/b")],
        user_name: "me".to_string(),
        user_token: "SECRET-REDACTED".to_string(),
    };
    let found = config.identify_active_repo("/home/me/work").unwrap();
    assert_eq!(found.location, "/home/me/work/a");
    assert_eq!(found.in_progress_column, Some(3));
    let err = config.identify_active_repo("/tmp").err().unwrap();
    assert_eq!(err, "No known (configured) repo matched /tmp");
    assert_eq!(config.github().user_token, "SECRET-REDACTED");
}

#[test]
fn remote_urls_become_web_urls() {
    assert_eq!(Repo::web_url("git@github.com:org/repo.git\n"), "https://github.com/org/repo");
    assert_eq!(Repo::web_url("https://github.com/org/repo.git\n"), "https://github.com/org/repo");
}

#[test]
fn api_urls() {
    assert_eq!(
        Github::api_url("https://github.com/org/repo/issues/5"),
        "https://api.github.com/repos/org/repo/issues/5"
    );
    assert_eq!(
        Github::api_url("https://api.github.com/repos/org/repo/issues/5"),
        "https://api.github.com/repos/org/repo/issues/5"
    );
}

#[test]
fn replace_is_left_to_right_without_overlap() {
    assert_eq!(replace_text("aaa", "aa", "b"), "ba");
    assert_eq!(replace_text("xyz", "q", "b"), "xyz");
    assert_eq!(replace_text("a.b.c", ".", ""), "abc");
}

#[test]
fn constructors() {
    let g = Github::new("tok".to_string());
    assert_eq!(g.user_token, "tok");
    let j = Jira::new("u".to_string(), "https://jira".to_string(), "t".to_string());
    assert_eq!((j.username.as_str(), j.jira_url.as_str(), j.api_token.as_str()), ("u", "https://jira", "t"));
}
