use vstd::prelude::*;

use crate::github::Github;
use crate::text::{has_prefix, replace_text, replaced, starts_with};

verus! {

/// A local clone of a repository that the tool knows.
#[derive(Clone, Debug)]
pub struct Repo {
    pub location: String,
    pub author: String,
    pub in_progress_column: Option<i32>,
}

/// The user's settings: known repositories and credentials.
pub struct Config {
    pub repos: Vec<Repo>,
    pub user_name: String,
    pub user_token: String,
}

/// The web URL of a repository from what `git remote get-url` printed: an SSH remote
/// becomes its HTTPS form and the `.git` ending with its newline goes.
pub open spec fn web_url_spec(remote: Seq<char>) -> Seq<char> {
    replaced(
        replaced(remote, "git@github.com:"@, "https://github.com/"@),
        ".git\n"@,
        Seq::empty(),
    )
}

/// `repos[i]` is the first repository whose location starts with `path`.
pub open spec fn first_match(repos: Seq<Repo>, path: Seq<char>, i: int) -> bool {
    &&& 0 <= i < repos.len()
    &&& starts_with(repos[i].location@, path)
    &&& forall|j: int| 0 <= j < i ==> !starts_with(#[trigger] repos[j].location@, path)
}

impl Repo {
    /// A copy of the repository's settings.
    pub fn clone_repo(&self) -> (r: Repo)
        ensures
            r == *self,
    {
        Repo {
            location: self.location.clone(),
            author: self.author.clone(),
            in_progress_column: self.in_progress_column,
        }
    }

    /// The repository's web URL, from the push URL of its `origin` remote.
    pub fn web_url(remote: &str) -> (r: String)
        ensures
            r@ == web_url_spec(remote@),
    {
        proof {
            reveal_strlit("git@github.com:");
            reveal_strlit(".git\n");
            reveal_strlit("");
            assert(""@ =~= Seq::<char>::empty());
        }
        let https = replace_text(remote, "git@github.com:", "https://github.com/");
        replace_text(https.as_str(), ".git\n", "")
    }
}

/// The `owner/name` of a repository from its web URL.
pub open spec fn repo_name_spec(web_url: Seq<char>) -> Seq<char> {
    replaced(web_url, "https://github.com/"@, Seq::empty())
}

impl Repo {
    /// The `owner/name` of the repository at `web_url`.
    pub fn repo_name(web_url: &str) -> (r: String)
        ensures
            r@ == repo_name_spec(web_url@),
    {
        proof {
            reveal_strlit("https://github.com/");
            reveal_strlit("");
            assert(""@ =~= Seq::<char>::empty());
        }
        replace_text(web_url, "https://github.com/", "")
    }
}

impl Config {
    /// The first configured repository whose location starts with `path`.
    pub fn identify_active_repo(&self, path: &str) -> (r: Result<Repo, String>)
        ensures
            r matches Ok(repo) ==> exists|i: int| first_match(self.repos@, path@, i) && repo == self.repos@[i],
            r matches Err(e) ==> {
                &&& forall|j: int| 0 <= j < self.repos@.len() ==> !starts_with(#[trigger] self.repos@[j].location@, path@)
                &&& e@ == "No known (configured) repo matched "@ + path@
            },
    {
        let mut i: usize = 0;
        while i < self.repos.len()
            invariant
                i <= self.repos@.len(),
                forall|j: int| 0 <= j < i ==> !starts_with(#[trigger] self.repos@[j].location@, path@),
            decreases self.repos@.len() - i,
        {
            if has_prefix(self.repos[i].location.as_str(), path) {
                assert(first_match(self.repos@, path@, i as int));
                return Ok(self.repos[i].clone_repo());
            }
            i = i + 1;
        }
        let mut e = String::from_str("No known (configured) repo matched ");
        e.append(path);
        Err(e)
    }

    /// Tracker access with the configured token.
    pub fn github(&self) -> (r: Github)
        ensures
            r.user_token == self.user_token,
    {
        Github::new(self.user_token.clone())
    }
}

} // verus!
