//! The import forms: what a paste-or-upload import and a hash-based acceptance carry.
//!
//! There is no author field in either: like the editor and the merge form, the author is the
//! verified identity, never a name the browser supplies. The acceptance checkboxes are carried
//! as numbered `accept_loss_` fields, so a submitted form names exactly the losses the person
//! checked.

use vstd::prelude::*;
use crate::form::{accepted, branch_field, branch_of, field, field_or_empty, lookup, parse_accept_losses, FormFields};
use crate::text::{chars_equal, chars_of, lines_of, split_lines, texts};

verus! {

/// The values an import form carries.
pub struct ImportForm {
    pub binding: String,
    pub branch: String,
    pub message: String,
    pub artifact: String,
    pub holder: String,
    pub accept_losses: Vec<String>,
}

impl ImportForm {
    /// Read an import form: each field or the empty string, the branch or the default, and the
    /// checked acceptance boxes in checkbox order.
    pub fn from_form(form: &FormFields) -> (r: ImportForm)
        ensures
            r.binding@ == field_or_empty(form@, "binding"@),
            r.branch@ == branch_of(form@),
            r.message@ == field_or_empty(form@, "message"@),
            r.artifact@ == field_or_empty(form@, "artifact"@),
            r.holder@ == field_or_empty(form@, "holder"@),
            texts(r.accept_losses@) == accepted(form@),
    {
        ImportForm {
            binding: field(form, "binding"),
            branch: branch_field(form),
            message: field(form, "message"),
            artifact: field(form, "artifact"),
            holder: field(form, "holder"),
            accept_losses: parse_accept_losses(form),
        }
    }
}

/// The values the hash-based acceptance form carries: the retained artifact's hash, the commit
/// metadata the first import captured, and the accepted losses. There is no artifact and no
/// binding field: both are recovered from the import record the hash names.
pub struct AcceptForm {
    pub artifact_hash: String,
    pub branch: String,
    pub message: String,
    pub holder: String,
    pub accept_losses: Vec<String>,
}

/// Whether the form asks to accept every blocking entry at once.
pub open spec fn accepts_all(fields: Seq<(Seq<char>, Seq<char>)>) -> bool {
    lookup(fields, "accept_all"@) == Some("1"@)
}

/// The entry identities the "accept all" field carries: one per line, empty lines skipped.
pub open spec fn all_identities(fields: Seq<(Seq<char>, Seq<char>)>) -> Seq<Seq<char>> {
    match lookup(fields, "all_losses"@) {
        Some(raw) => lines_of(raw).filter(|line: Seq<char>| line.len() > 0),
        None => Seq::empty(),
    }
}

/// The losses an acceptance form accepts.
pub open spec fn accepted_losses(fields: Seq<(Seq<char>, Seq<char>)>) -> Seq<Seq<char>> {
    if accepts_all(fields) {
        all_identities(fields)
    } else {
        accepted(fields)
    }
}

/// The non-empty lines of a text.
fn identities(raw: &String) -> (r: Vec<String>)
    ensures
        texts(r@) == lines_of(raw@).filter(|line: Seq<char>| line.len() > 0),
{
    let lines = split_lines(raw.as_str());
    let ghost keep = |line: Seq<char>| line.len() > 0;
    let ghost all = lines_of(raw@);
    let mut out: Vec<String> = Vec::new();
    let mut i: usize = 0;
    proof {
        assert(texts(out@) =~= all.take(0).filter(keep));
    }
    while i < lines.len()
        invariant
            all == lines_of(raw@),
            texts(lines@) == all,
            keep == (|line: Seq<char>| line.len() > 0),
            i <= lines@.len(),
            texts(out@) == all.take(i as int).filter(keep),
        decreases lines@.len() - i,
    {
        proof {
            assert(all.take(i + 1) =~= all.take(i as int).push(all[i as int]));
            all.take(i as int).lemma_filter_push(all[i as int], keep);
            assert(all[i as int] == lines@[i as int]@);
        }
        if !lines[i].as_str().is_empty() {
            let ghost before = out@;
            out.push(lines[i].clone());
            proof {
                assert(texts(out@) =~= texts(before).push(lines@[i as int]@));
            }
        }
        i = i + 1;
    }
    proof {
        assert(all.take(i as int) =~= all);
    }
    out
}

impl AcceptForm {
    /// Read an acceptance form. "Accept all" carries every blocking entry identity in one
    /// field, one per line; a browser writes each line feed of a field as a carriage return
    /// and a line feed, so the lines are split as `str::lines` splits them, never at line
    /// feeds alone, which would leave a carriage return on every identity.
    pub fn from_form(form: &FormFields) -> (r: AcceptForm)
        ensures
            r.artifact_hash@ == field_or_empty(form@, "artifactHash"@),
            r.branch@ == branch_of(form@),
            r.message@ == field_or_empty(form@, "message"@),
            r.holder@ == field_or_empty(form@, "holder"@),
            texts(r.accept_losses@) == accepted_losses(form@),
    {
        let accept_all = match form.get("accept_all") {
            Some(v) => chars_equal(&chars_of(v.as_str()), "1"),
            None => false,
        };
        let accept_losses = if accept_all {
            match form.get("all_losses") {
                Some(raw) => identities(raw),
                None => {
                    let none: Vec<String> = Vec::new();
                    proof {
                        assert(texts(none@) =~= Seq::<Seq<char>>::empty());
                    }
                    none
                },
            }
        } else {
            parse_accept_losses(form)
        };
        AcceptForm {
            artifact_hash: field(form, "artifactHash"),
            branch: branch_field(form),
            message: field(form, "message"),
            holder: field(form, "holder"),
            accept_losses,
        }
    }
}

} // verus!
