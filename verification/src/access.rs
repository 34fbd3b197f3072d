//! The decisions every page takes before it reads or writes anything, in the same order the
//! JSON handlers take them, so the workbench can never be a weaker path to the data.

use vstd::prelude::*;
use crate::text::append_text;

verus! {

/// Why a request was refused, with the message the page shows.
pub enum Refusal {
    /// The caller may not do this (403).
    Forbidden(String),
    /// What the request names does not exist (404).
    NotFound(String),
    /// The request is missing something it must name (400).
    BadRequest(String),
}

/// The message of a refusal.
pub open spec fn refusal_text(r: Refusal) -> Seq<char> {
    match r {
        Refusal::Forbidden(m) => m@,
        Refusal::NotFound(m) => m@,
        Refusal::BadRequest(m) => m@,
    }
}

/// A page that reads: the Read permission first, then the project scope.
pub fn read_gate(may_read: bool, may_reach: bool) -> (r: Result<(), Refusal>)
    ensures
        !may_read ==> (r matches Err(Refusal::Forbidden(m)) && m@ == "read permission required"@),
        may_read && !may_reach ==> (r matches Err(Refusal::Forbidden(m)) && m@ == "project not in scope"@),
        may_read && may_reach ==> r is Ok,
{
    if !may_read {
        return Err(Refusal::Forbidden(String::from_str("read permission required")));
    }
    if !may_reach {
        return Err(Refusal::Forbidden(String::from_str("project not in scope")));
    }
    Ok(())
}

/// A request that writes: the Write permission first, before anything is measured or read,
/// then the project scope.
pub fn write_gate(may_write: bool, may_reach: bool) -> (r: Result<(), Refusal>)
    ensures
        !may_write ==> (r matches Err(Refusal::Forbidden(m)) && m@ == "write permission required"@),
        may_write && !may_reach ==> (r matches Err(Refusal::Forbidden(m)) && m@ == "project not in scope"@),
        may_write && may_reach ==> r is Ok,
{
    if !may_write {
        return Err(Refusal::Forbidden(String::from_str("write permission required")));
    }
    if !may_reach {
        return Err(Refusal::Forbidden(String::from_str("project not in scope")));
    }
    Ok(())
}

/// Creating a project: the Administer permission first, then the scope of the name asked for.
pub fn admin_gate(may_administer: bool, may_reach: bool) -> (r: Result<(), Refusal>)
    ensures
        !may_administer ==> (r matches Err(Refusal::Forbidden(m)) && m@ == "admin permission required"@),
        may_administer && !may_reach ==> (r matches Err(Refusal::Forbidden(m)) && m@ == "project not in scope"@),
        may_administer && may_reach ==> r is Ok,
{
    if !may_administer {
        return Err(Refusal::Forbidden(String::from_str("admin permission required")));
    }
    if !may_reach {
        return Err(Refusal::Forbidden(String::from_str("project not in scope")));
    }
    Ok(())
}

/// A project the store does not have is refused by name.
pub fn project_known(project: &str, found: bool) -> (r: Result<(), Refusal>)
    ensures
        found ==> r is Ok,
        !found ==> (r matches Err(Refusal::NotFound(m)) && m@ == "project "@ + project@),
{
    if found {
        Ok(())
    } else {
        let mut m = String::from_str("project ");
        append_text(&mut m, project);
        Err(Refusal::NotFound(m))
    }
}

} // verus!
