use vstd::prelude::*;

use crate::text::{has_prefix, replace_text, replaced, starts_with};

verus! {

pub struct Assignee {
    pub login: String,
}

pub struct Label {
    pub name: String,
    pub color: String,
}

pub struct Milestone {
    pub title: String,
}

/// An issue as the tracker reports it.
pub struct Issue {
    pub number: u64,
    pub title: String,
    pub assignees: Vec<Assignee>,
    pub body: String,
    pub labels: Vec<Label>,
    pub milestone: Option<Milestone>,
    pub closed_at: Option<String>,
}

pub struct IssueSearchResult {
    pub items: Vec<Issue>,
}

/// Access to the issue tracker, on behalf of one user.
pub struct Github {
    pub user_token: String,
}

/// The API URL of an issue given by its web URL; one that is an API URL already is kept.
pub open spec fn api_url_spec(issue_url: Seq<char>) -> Seq<char> {
    if starts_with(issue_url, "https://api.github.com/repos"@) {
        issue_url
    } else {
        replaced(issue_url, "github.com"@, "api.github.com/repos"@)
    }
}

impl Github {
    /// Where the issue at `issue_url` is requested.
    pub fn api_url(issue_url: &str) -> (r: String)
        ensures
            r@ == api_url_spec(issue_url@),
    {
        if has_prefix(issue_url, "https://api.github.com/repos") {
            String::from_str(issue_url)
        } else {
            proof {
                reveal_strlit("github.com");
            }
            replace_text(issue_url, "github.com", "api.github.com/repos")
        }
    }

    pub fn new(user_token: String) -> (r: Self)
        ensures
            r.user_token == user_token,
    {
        Github { user_token }
    }
}

impl Issue {
    /// The issue carries a label named `name`.
    pub open spec fn has_label(&self, name: Seq<char>) -> bool {
        exists|i: int| 0 <= i < self.labels@.len() && #[trigger] self.labels@[i].name@ == name
    }

    pub open spec fn is_closed(&self) -> bool {
        self.closed_at is Some
    }

    /// Whether the issue carries a label named `name`.
    pub fn carries_label(&self, name: &String) -> (r: bool)
        ensures
            r == self.has_label(name@),
    {
        let mut i: usize = 0;
        while i < self.labels.len()
            invariant
                i <= self.labels@.len(),
                forall|k: int| 0 <= k < i ==> #[trigger] self.labels@[k].name@ != name@,
            decreases self.labels@.len() - i,
        {
            if self.labels[i].name == *name {
                return true;
            }
            i = i + 1;
        }
        false
    }
}

} // verus!
