//! The analyses pages: the runs a project recorded, the labels a finding wears, and what a run
//! request and a diff request must name.

use vstd::prelude::*;
use crate::access::Refusal;
use crate::escape::{short_hash_text, short_text};
use crate::form::{lookup, FormFields, DEFAULT_BRANCH};
use crate::layout::opt_text;
use crate::model::given;
use crate::text::{append_number, append_text, decimal, trim_text, trimmed};

verus! {

/// The query of the run page: the optional other run to diff this one against.
pub struct RunQuery {
    pub compare: Option<String>,
}

/// The query of the diff page: the two runs to compare.
pub struct DiffQuery {
    pub from: Option<String>,
    pub to: Option<String>,
}

/// How a finding stands.
#[derive(Clone, Copy)]
pub enum Severity {
    Gap,
    Clean,
    Unknown,
}

/// The chip class of a severity.
pub fn severity_class(severity: Severity) -> (r: &'static str)
    ensures
        r@ == match severity {
            Severity::Gap => "uncovered"@,
            Severity::Clean => "covered"@,
            Severity::Unknown => "mw-badge-unknown"@,
        },
{
    match severity {
        Severity::Gap => "uncovered",
        Severity::Clean => "covered",
        Severity::Unknown => "mw-badge-unknown",
    }
}

/// The heading of the findings of a severity.
pub fn severity_heading(severity: Severity) -> (r: &'static str)
    ensures
        r@ == match severity {
            Severity::Gap => "Gaps"@,
            Severity::Clean => "Measured clean"@,
            Severity::Unknown => "Not measured"@,
        },
{
    match severity {
        Severity::Gap => "Gaps",
        Severity::Clean => "Measured clean",
        Severity::Unknown => "Not measured",
    }
}

/// What the page says when a severity has no findings.
pub fn severity_empty(severity: Severity) -> (r: &'static str)
    ensures
        r@ == match severity {
            Severity::Gap => "None: nothing this analysis measures is a gap."@,
            Severity::Clean => "None."@,
            Severity::Unknown => "None: every check this analysis names was measured."@,
        },
{
    match severity {
        Severity::Gap => "None: nothing this analysis measures is a gap.",
        Severity::Clean => "None.",
        Severity::Unknown => "None: every check this analysis names was measured.",
    }
}

/// What a run's selector label reads of a recorded run.
pub struct RunSummary {
    pub definition_name: String,
    pub definition_version: u64,
    pub commit_hash: String,
    pub created_at: String,
}

/// A one-line label for one run in a selector: definition, commit and when.
pub open spec fn run_text(run: RunSummary) -> Seq<char> {
    run.definition_name@ + " v"@ + decimal(run.definition_version as nat) + " @ "@ + short_text(
        run.commit_hash@,
    ) + " ("@ + run.created_at@ + ")"@
}

pub fn run_label(run: &RunSummary) -> (r: String)
    ensures
        r@ == run_text(*run),
{
    let mut s = String::from_str(run.definition_name.as_str());
    append_text(&mut s, " v");
    append_number(&mut s, run.definition_version);
    append_text(&mut s, " @ ");
    let short = short_hash_text(run.commit_hash.as_str());
    append_text(&mut s, short.as_str());
    append_text(&mut s, " (");
    append_text(&mut s, run.created_at.as_str());
    append_text(&mut s, ")");
    s
}

/// A form field, trimmed, or the empty string.
pub open spec fn trimmed_field(fields: Seq<(Seq<char>, Seq<char>)>, key: Seq<char>) -> Seq<char> {
    match lookup(fields, key) {
        Some(v) => trimmed(v),
        None => Seq::empty(),
    }
}

pub fn value(form: &FormFields, key: &str) -> (r: String)
    ensures
        r@ == trimmed_field(form@, key@),
{
    match form.get(key) {
        Some(v) => trim_text(v.as_str()),
        None => String::new(),
    }
}

/// What a run request names: the definition to run and the branch whose tip it examines.
pub struct RunRequest {
    pub definition: String,
    pub branch: String,
}

/// Read a run request: the definition field, and the branch field or the main line, both
/// trimmed.
pub fn run_request(form: &FormFields) -> (r: RunRequest)
    ensures
        r.definition@ == trimmed_field(form@, "definition"@),
        r.branch@ == if trimmed_field(form@, "branch"@).len() == 0 {
            DEFAULT_BRANCH@
        } else {
            trimmed_field(form@, "branch"@)
        },
{
    let definition = value(form, "definition");
    let branch = value(form, "branch");
    let branch = if branch.as_str().is_empty() {
        String::from_str(DEFAULT_BRANCH)
    } else {
        branch
    };
    RunRequest { definition, branch }
}

/// The two runs a diff compares, each of which must be named.
pub fn diff_endpoints(query: &DiffQuery) -> (r: Result<(String, String), Refusal>)
    ensures
        match (given(opt_text(query.from)), given(opt_text(query.to))) {
            (Some(f), Some(t)) => r matches Ok(p) && p.0@ == f && p.1@ == t,
            (None, _) => r matches Err(Refusal::BadRequest(m)) && m@ == "name the earlier run as from="@,
            (Some(_), None) => r matches Err(Refusal::BadRequest(m)) && m@ == "name the later run as to="@,
        },
{
    let from = match &query.from {
        Some(f) => if !f.as_str().is_empty() {
            f.clone()
        } else {
            return Err(Refusal::BadRequest(String::from_str("name the earlier run as from=")));
        },
        None => {
            return Err(Refusal::BadRequest(String::from_str("name the earlier run as from=")));
        },
    };
    let to = match &query.to {
        Some(t) => if !t.as_str().is_empty() {
            t.clone()
        } else {
            return Err(Refusal::BadRequest(String::from_str("name the later run as to=")));
        },
        None => {
            return Err(Refusal::BadRequest(String::from_str("name the later run as to=")));
        },
    };
    Ok((from, to))
}

/// The first run, from position `i` on, of the same definition as `def` but not the run `id`.
pub open spec fn same_definition_from(runs: Seq<(Seq<char>, Seq<char>)>, def: Seq<char>, id: Seq<char>, i: int) -> Option<int>
    decreases runs.len() - i,
{
    if i >= runs.len() || i < 0 {
        None
    } else if runs[i].0 == def && runs[i].1 != id {
        Some(i)
    } else {
        same_definition_from(runs, def, id, i + 1)
    }
}

/// The two runs the compare form offers by default, as positions in the library (newest
/// first): the oldest run, and the newest other run of the same definition, so the default
/// compares two readings of one analysis; the newest run when there is no such other run.
pub open spec fn default_pair(runs: Seq<(Seq<char>, Seq<char>)>) -> (int, int) {
    let from = if runs.len() == 0 { 0 } else { runs.len() - 1 };
    let to = if runs.len() == 0 {
        0
    } else {
        match same_definition_from(runs, runs[from].0, runs[from].1, 0) {
            Some(i) => i,
            None => 0,
        }
    };
    (from, to)
}

/// The two runs the compare form offers by default. `runs` lists each run's definition id and
/// run id, newest first.
pub fn default_diff_pair(runs: &Vec<(String, String)>) -> (r: (usize, usize))
    ensures
        (r.0 as int, r.1 as int) == default_pair(runs@.map_values(|p: (String, String)| (p.0@, p.1@))),
{
    let ghost rv = runs@.map_values(|p: (String, String)| (p.0@, p.1@));
    if runs.len() == 0 {
        return (0, 0);
    }
    let from = runs.len() - 1;
    let mut i: usize = 0;
    while i < runs.len()
        invariant
            rv == runs@.map_values(|p: (String, String)| (p.0@, p.1@)),
            runs@.len() > 0,
            from == runs@.len() - 1,
            i <= runs@.len(),
            same_definition_from(rv, rv[from as int].0, rv[from as int].1, 0) == same_definition_from(rv, rv[from as int].0, rv[from as int].1, i as int),
        decreases runs@.len() - i,
    {
        if runs[i].0 == runs[from].0 && runs[i].1 != runs[from].1 {
            return (from, i);
        }
        i = i + 1;
    }
    (from, 0)
}

} // verus!
