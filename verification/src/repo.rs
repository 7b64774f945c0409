//! The tracked repository's coordinates: owner and name, and the clone URL
//! they denote.

use vstd::prelude::*;

use crate::text::{first_index_of, split_first, split_first_str, find_char};

verus! {

/// A GitHub repository, written `owner/name`.
#[derive(Debug)]
pub struct GitHubRepo {
    pub owner: String,
    pub name: String,
}

/// What a run needs to know about its target.
pub struct Config {
    pub github_repo: GitHubRepo,
}

impl GitHubRepo {
    /// The HTTPS clone URL of the repository.
    pub fn url(&self) -> (r: String)
        ensures
            r@ == "https://github.com/"@ + self.owner@ + "/"@ + self.name@,
    {
        let mut r = String::new();
        r.append("https://github.com/");
        r.append(self.owner.as_str());
        r.append("/");
        r.append(self.name.as_str());
        r
    }

    /// Parses `owner/name`: there must be a slash, and the name must not
    /// contain another.
    pub fn from_str(s: &str) -> (r: Result<GitHubRepo, String>)
        ensures
            match r {
                Ok(g) => split_first(s@, '/') == Some((g.owner@, g.name@)) && first_index_of(
                    g.name@,
                    '/',
                ) == -1,
                Err(e) => (first_index_of(s@, '/') == -1 && e@ == "GitHub repo must contain `/`"@)
                    || (match split_first(s@, '/') {
                    Some(p) => first_index_of(p.1, '/') != -1 && e@
                        == "GitHub repo must only contain one `/`"@,
                    None => false,
                }),
            },
    {
        match split_first_str(s, '/') {
            None => Err("GitHub repo must contain `/`".to_owned()),
            Some((owner, name)) => {
                match find_char(name.as_str(), '/') {
                    Some(_) => Err("GitHub repo must only contain one `/`".to_owned()),
                    None => Ok(GitHubRepo { owner, name }),
                }
            },
        }
    }
}

} // verus!
