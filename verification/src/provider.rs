//! The code-hosting side of a changelog: building release and diff links
//! for a repository, and the metadata of a related pull request. Only link
//! construction lives here; fetching pull-request data over the network is
//! the caller's business.

use vstd::prelude::*;

use crate::version::Version;

verus! {

/// Which code-hosting site links are built for.
#[derive(Debug, Clone, PartialEq, Eq)]
pub enum GitProvider {
    Github,
    Other,
}

impl Default for GitProvider {
    /// Links are built for the main supported host.
    fn default() -> (r: GitProvider)
        ensures
            r == GitProvider::Github,
    {
        GitProvider::Github
    }
}

/// The metadata of a pull request related to a commit.
#[derive(Debug, Clone, PartialEq, Eq)]
pub struct RelatedPr {
    pub url: String,
    pub pr_id: String,
    pub author: Option<String>,
    pub author_link: Option<String>,
    pub title: Option<String>,
    pub body: Option<String>,
    pub merge_commit: Option<String>,
    pub is_pr: bool,
}

/// Ghost form of the pull-request metadata.
#[verifier::ext_equal]
pub struct RelatedPrV {
    pub url: Seq<char>,
    pub pr_id: Seq<char>,
    pub author: Option<Seq<char>>,
    pub author_link: Option<Seq<char>>,
    pub title: Option<Seq<char>>,
    pub body: Option<Seq<char>>,
    pub merge_commit: Option<Seq<char>>,
    pub is_pr: bool,
}

impl View for RelatedPr {
    type V = RelatedPrV;

    open spec fn view(&self) -> RelatedPrV {
        RelatedPrV {
            url: self.url@,
            pr_id: self.pr_id@,
            author: crate::model::view_opt_str(self.author),
            author_link: crate::model::view_opt_str(self.author_link),
            title: crate::model::view_opt_str(self.title),
            body: crate::model::view_opt_str(self.body),
            merge_commit: crate::model::view_opt_str(self.merge_commit),
            is_pr: self.is_pr,
        }
    }
}

/// Two versions (or one) a commit-history diff link is built from.
#[derive(Debug, Clone, PartialEq, Eq)]
pub struct DiffTags {
    pub prev: Option<Version>,
    pub new: Version,
}

/// The text of a release link: the repository's tag page.
pub open spec fn spec_release_link(repo: Seq<char>, tag: Seq<char>) -> Seq<char> {
    "https://github.com/"@ + repo + "/releases/tag/"@ + tag
}

/// The text of a diff link: a comparison of the two versions, or the whole
/// history up to the only one.
pub open spec fn spec_diff_link(repo: Seq<char>, prev: Option<Seq<char>>, new: Seq<char>) -> Seq<
    char,
> {
    match prev {
        Some(p) => "https://github.com/"@ + repo + "/compare/"@ + p + "..."@ + new,
        None => "https://github.com/"@ + repo + "/commits/"@ + new,
    }
}

/// The link to the release page of a tag.
pub fn release_link(repo: &str, tag: &str) -> (r: String)
    ensures
        r@ == spec_release_link(repo@, tag@),
{
    let mut s = crate::version::copy_str("https://github.com/");
    s.append(repo);
    s.append("/releases/tag/");
    s.append(tag);
    proof {
        assert(s@ =~= spec_release_link(repo@, tag@));
    }
    s
}

/// The link to the commit history between the two versions of `diff_tags`.
pub fn diff_link(repo: &str, diff_tags: &DiffTags) -> (r: String)
    ensures
        r@ == spec_diff_link(
            repo@,
            match diff_tags.prev {
                Some(p) => Some(p@.display),
                None => None,
            },
            diff_tags.new@.display,
        ),
{
    let mut s = crate::version::copy_str("https://github.com/");
    s.append(repo);
    match &diff_tags.prev {
        Some(prev) => {
            let prev_text = prev.display_text();
            let new_text = diff_tags.new.display_text();
            s.append("/compare/");
            s.append(prev_text.as_str());
            s.append("...");
            s.append(new_text.as_str());
        },
        None => {
            let new_text = diff_tags.new.display_text();
            s.append("/commits/");
            s.append(new_text.as_str());
        },
    }
    proof {
        assert(s@ =~= spec_diff_link(
            repo@,
            match diff_tags.prev {
                Some(p) => Some(p@.display),
                None => None,
            },
            diff_tags.new@.display,
        ));
    }
    s
}

impl GitProvider {
    /// The release link for a tag, where the provider can build one.
    pub fn release_link(&self, repo: &str, tag: &str) -> (r: Option<String>)
        ensures
            (self is Github <==> r is Some),
            r matches Some(l) ==> l@ == spec_release_link(repo@, tag@),
    {
        match self {
            GitProvider::Github => Some(release_link(repo, tag)),
            GitProvider::Other => None,
        }
    }

    /// The diff link between two versions, where the provider can build one.
    pub fn diff_link(&self, repo: &str, diff_tags: &DiffTags) -> (r: Option<String>)
        ensures
            (self is Github <==> r is Some),
            r matches Some(l) ==> l@ == spec_diff_link(
                repo@,
                match diff_tags.prev {
                    Some(p) => Some(p@.display),
                    None => None,
                },
                diff_tags.new@.display,
            ),
    {
        match self {
            GitProvider::Github => Some(diff_link(repo, diff_tags)),
            GitProvider::Other => None,
        }
    }

    /// A pull-request guess built without the network: nothing can be said
    /// of a commit offline, so no provider answers.
    pub fn offline_related_pr(&self, repo: &str, raw_commit: &crate::repository::RawCommit) -> (r:
        Option<RelatedPr>)
        ensures
            r is None,
    {
        let _ = repo;
        let _ = raw_commit;
        match self {
            GitProvider::Github => None,
            GitProvider::Other => None,
        }
    }
}

} // verus!
