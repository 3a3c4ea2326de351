use vstd::prelude::*;

verus! {

pub struct IssueFields {
    pub summary: String,
}

/// An issue as Jira reports it.
pub struct Issue {
    pub key: String,
    pub fields: IssueFields,
}

pub struct JiraIssueSearchResult {
    pub issues: Vec<Issue>,
}

/// Access to a Jira instance, on behalf of one user.
pub struct Jira {
    pub username: String,
    pub api_token: String,
    pub jira_url: String,
}

impl Jira {
    pub fn new(username: String, jira_url: String, api_token: String) -> (r: Self)
        ensures
            r.username == username,
            r.jira_url == jira_url,
            r.api_token == api_token,
    {
        Jira { username, jira_url, api_token }
    }
}

} // verus!
