//! Which revision a model page shows: an explicit commit, or a branch's tip, defaulting to the
//! main line.

use vstd::prelude::*;
use crate::access::Refusal;
use crate::form::DEFAULT_BRANCH;
use crate::layout::{opt_text, Commit};
use crate::text::{append_text, chars_equal, chars_of, texts};

verus! {

/// The query parameters of the model page. An explicit commit hash wins; otherwise the named
/// branch (defaulting to `main`) resolves to its tip.
pub struct ModelQuery {
    pub branch: Option<String>,
    pub commit: Option<String>,
    /// The diagram view: `structure` (default), `process` or `control`.
    pub view: Option<String>,
    /// The element the enhancement should highlight, kept so a redirect preserves it.
    pub select: Option<String>,
}

/// A text that is present and not empty.
pub open spec fn given(s: Option<Seq<char>>) -> Option<Seq<char>> {
    match s {
        Some(v) => if v.len() > 0 {
            Some(v)
        } else {
            None
        },
        None => None,
    }
}

/// The branch a view is scoped to: the query's branch when given (which may differ from the
/// branch the commit was created on: a freshly created version points at an existing tip),
/// otherwise the commit's own branch.
pub fn view_branch(query: &ModelQuery, commit: &Commit) -> (r: String)
    ensures
        r@ == match given(opt_text(query.branch)) {
            Some(b) => b,
            None => commit.branch@,
        },
{
    match &query.branch {
        Some(b) => if !b.as_str().is_empty() {
            b.clone()
        } else {
            commit.branch.clone()
        },
        None => commit.branch.clone(),
    }
}

/// The branch a bare overview address resolves to: the main line when it exists, otherwise the
/// first branch listed (the store lists branches by name); none for a project with no branches.
pub open spec fn default_branch_of(names: Seq<Seq<char>>) -> Option<Seq<char>> {
    if names.len() == 0 {
        None
    } else if names.contains(DEFAULT_BRANCH@) {
        Some(DEFAULT_BRANCH@)
    } else {
        Some(names[0])
    }
}

/// The names of a project's branches, given as (name, tip).
pub open spec fn branch_names(branches: Seq<(String, String)>) -> Seq<Seq<char>> {
    branches.map_values(|b: (String, String)| b.0@)
}

pub fn default_branch(branches: &Vec<(String, String)>) -> (r: Option<String>)
    ensures
        opt_text(r) == default_branch_of(branch_names(branches@)),
{
    let ghost names = branch_names(branches@);
    if branches.len() == 0 {
        return None;
    }
    let mut i: usize = 0;
    while i < branches.len()
        invariant
            names == branch_names(branches@),
            i <= branches@.len(),
            forall|j: int| 0 <= j < i ==> names[j] != DEFAULT_BRANCH@,
        decreases branches@.len() - i,
    {
        if chars_equal(&chars_of(branches[i].0.as_str()), DEFAULT_BRANCH) {
            proof {
                assert(names[i as int] == DEFAULT_BRANCH@);
            }
            return Some(String::from_str(DEFAULT_BRANCH));
        }
        i = i + 1;
    }
    proof {
        assert(!names.contains(DEFAULT_BRANCH@));
    }
    Some(branches[0].0.clone())
}

/// The revision a model page asks for: a commit, or the tip of a branch.
pub enum Revision {
    Commit(String),
    BranchTip(String),
}

/// The revision a query names: its commit when given, else the tip of its branch, else the tip
/// of the main line.
pub fn requested_revision(query: &ModelQuery) -> (r: Revision)
    ensures
        match given(opt_text(query.commit)) {
            Some(c) => r matches Revision::Commit(h) && h@ == c,
            None => match given(opt_text(query.branch)) {
                Some(b) => r matches Revision::BranchTip(n) && n@ == b,
                None => r matches Revision::BranchTip(n) && n@ == DEFAULT_BRANCH@,
            },
        },
{
    if let Some(c) = &query.commit {
        if !c.as_str().is_empty() {
            return Revision::Commit(c.clone());
        }
    }
    match &query.branch {
        Some(b) => if !b.as_str().is_empty() {
            Revision::BranchTip(b.clone())
        } else {
            Revision::BranchTip(String::from_str(DEFAULT_BRANCH))
        },
        None => Revision::BranchTip(String::from_str(DEFAULT_BRANCH)),
    }
}

/// A branch's tip, or the refusal for a branch with no commits.
pub fn branch_tip(branch: &str, tip: Option<String>) -> (r: Result<String, Refusal>)
    ensures
        match tip {
            Some(t) => r matches Ok(h) && h@ == t@,
            None => r matches Err(Refusal::NotFound(m)) && m@ == "branch "@ + branch@ + " has no commits"@,
        },
{
    match tip {
        Some(t) => Ok(t),
        None => {
            let mut m = String::from_str("branch ");
            append_text(&mut m, branch);
            append_text(&mut m, " has no commits");
            Err(Refusal::NotFound(m))
        },
    }
}

/// One compare endpoint resolved to a commit hash: an existing commit hash wins, otherwise the
/// value names a branch and resolves to its tip; neither is refused by name.
pub fn resolve_ref(value: &str, commit_found: bool, tip: Option<String>) -> (r: Result<String, Refusal>)
    ensures
        commit_found ==> (r matches Ok(h) && h@ == value@),
        !commit_found ==> match tip {
            Some(t) => r matches Ok(h) && h@ == t@,
            None => r matches Err(Refusal::NotFound(m)) && m@ == "commit or branch "@ + value@,
        },
{
    if commit_found {
        return Ok(String::from_str(value));
    }
    match tip {
        Some(t) => Ok(t),
        None => {
            let mut m = String::from_str("commit or branch ");
            append_text(&mut m, value);
            Err(Refusal::NotFound(m))
        },
    }
}

} // verus!
