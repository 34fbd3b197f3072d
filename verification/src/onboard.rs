//! The decisions of the drop-zone flow, apart from the work they direct: whether a drop or an
//! acceptance may go ahead, which binding reads the file, what the project is called, and the
//! words a refusal is answered with.

use vstd::prelude::*;
use crate::detect::{Format, FormatView};
use crate::facts::{plural, plural_of, OnboardFacts};
use crate::layout::{url_text, url_text_of};
use crate::import::AcceptForm;
use crate::naming::{derived_project_name, spec_derived_name};
use crate::text::{append_number, append_text, chars_of, chars_start_with, decimal, starts_with, string_of, trim_text, trimmed};

verus! {

/// Why a drop or an acceptance is refused, with the words the page says.
pub enum OnboardRefusal {
    /// The caller may not do this.
    Forbidden(String),
    /// The request itself is malformed.
    BadRequest(String),
    /// The request is well formed but cannot be carried out.
    Unprocessable(String),
}

/// The branch a drop commits to.
pub const ONBOARD_BRANCH: &'static str = "main";

/// What a drop goes ahead with: the binding that reads the file, the project it lands in,
/// and the commit message.
pub struct OnboardPlan {
    pub binding: String,
    pub project: String,
    /// Whether the project name was typed rather than derived from the file, and so still
    /// has to pass the name rule.
    pub project_typed: bool,
    pub message: String,
}

/// The words for a file larger than the server accepts.
pub open spec fn too_large_words(received: u64, limit: u64) -> Seq<char> {
    "the dropped file is larger than this server accepts: "@ + decimal(received as nat) + " bytes received, limit "@
        + decimal(limit as nat)
        + " bytes (MW_MAX_BODY_BYTES). Nothing was imported and nothing was stored; raise the limit and drop it again."@
}

/// The words for a file this server does not read.
pub open spec fn unrecognised_words(detail: Seq<char>) -> Seq<char> {
    "This file was not recognised, so nothing was imported: "@ + detail
        + ". Drop an XMI export, a Cameo .mdzip container or a SysML v2 .sysml file."@
}

/// The refusal's kind and words.
pub open spec fn refusal_view(r: OnboardRefusal) -> (int, Seq<char>) {
    match r {
        OnboardRefusal::Forbidden(m) => (0, m@),
        OnboardRefusal::BadRequest(m) => (1, m@),
        OnboardRefusal::Unprocessable(m) => (2, m@),
    }
}

/// The decision a drop takes before a byte of it is read: only a caller who may write gets to
/// upload at all.
pub fn drop_gate(may_write: bool) -> (r: Result<(), OnboardRefusal>)
    ensures
        may_write ==> r is Ok,
        !may_write ==> (r matches Err(refusal) && refusal_view(refusal) == (0int, "write permission required"@)),
{
    if may_write {
        Ok(())
    } else {
        Err(OnboardRefusal::Forbidden(String::from_str("write permission required")))
    }
}

/// What a drop is answered with: refused when the caller may not write, when the file was too
/// large (`too_large` holds how many bytes were received), or when it is no format this
/// server reads; otherwise the typed binding or the format's own, the typed project name or
/// the one derived from the file, and the message `onboard <file>`.
pub open spec fn drop_outcome(
    may_write: bool,
    too_large: Option<u64>,
    limit: u64,
    format: FormatView,
    binding_override: Seq<char>,
    project_override: Seq<char>,
    file_name: Seq<char>,
    format_binding: Seq<char>,
) -> Result<(Seq<char>, Seq<char>, bool, Seq<char>), (int, Seq<char>)> {
    if !may_write {
        Err((0, "write permission required"@))
    } else if too_large is Some {
        Err((2, too_large_words(too_large->0, limit)))
    } else if format is Unknown {
        Err((2, unrecognised_words(format->Unknown_0)))
    } else {
        Ok((
            if trimmed(binding_override).len() == 0 {
                format_binding
            } else {
                trimmed(binding_override)
            },
            if trimmed(project_override).len() == 0 {
                spec_derived_name(file_name)
            } else {
                trimmed(project_override)
            },
            trimmed(project_override).len() != 0,
            "onboard "@ + file_name,
        ))
    }
}

/// Decides what a drop goes ahead with, or why it is refused. `xmi` and `sysml` are the
/// binding identities (id, version) the format picks from.
pub fn drop_plan(
    may_write: bool,
    too_large: Option<u64>,
    limit: u64,
    format: &Format,
    binding_override: &str,
    project_override: &str,
    file_name: &str,
    xmi: (&str, &str),
    sysml: (&str, &str),
) -> (r: Result<OnboardPlan, OnboardRefusal>)
    ensures
        match r {
            Ok(plan) => drop_outcome(
                may_write,
                too_large,
                limit,
                format@,
                binding_override@,
                project_override@,
                file_name@,
                match format@ {
                    FormatView::SysmlV2 => sysml.0@ + "@"@ + sysml.1@,
                    _ => xmi.0@ + "@"@ + xmi.1@,
                },
            ) == Ok::<(Seq<char>, Seq<char>, bool, Seq<char>), (int, Seq<char>)>(
                (plan.binding@, plan.project@, plan.project_typed, plan.message@),
            ),
            Err(refusal) => drop_outcome(
                may_write,
                too_large,
                limit,
                format@,
                binding_override@,
                project_override@,
                file_name@,
                match format@ {
                    FormatView::SysmlV2 => sysml.0@ + "@"@ + sysml.1@,
                    _ => xmi.0@ + "@"@ + xmi.1@,
                },
            ) == Err::<(Seq<char>, Seq<char>, bool, Seq<char>), (int, Seq<char>)>(refusal_view(refusal)),
        },
{
    if !may_write {
        return Err(OnboardRefusal::Forbidden(String::from_str("write permission required")));
    }
    match too_large {
        Some(received) => {
            let mut m = String::from_str("the dropped file is larger than this server accepts: ");
            append_number(&mut m, received);
            append_text(&mut m, " bytes received, limit ");
            append_number(&mut m, limit);
            append_text(
                &mut m,
                " bytes (MW_MAX_BODY_BYTES). Nothing was imported and nothing was stored; raise the limit and drop it again.",
            );
            return Err(OnboardRefusal::Unprocessable(m));
        },
        None => {},
    }
    let format_binding = match format.binding(xmi.0, xmi.1, sysml.0, sysml.1) {
        Some(b) => b,
        None => {
            let detail: &String = match format {
                Format::Unknown(d) => d,
                _ => {
                    proof {
                        assert(false);
                    }
                    return Err(OnboardRefusal::Unprocessable(String::from_str("unrecognised file")));
                },
            };
            let mut m = String::from_str("This file was not recognised, so nothing was imported: ");
            append_text(&mut m, detail.as_str());
            append_text(&mut m, ". Drop an XMI export, a Cameo .mdzip container or a SysML v2 .sysml file.");
            return Err(OnboardRefusal::Unprocessable(m));
        },
    };
    let typed_binding = trim_text(binding_override);
    let binding = if typed_binding.as_str().is_empty() {
        format_binding
    } else {
        typed_binding
    };
    let typed_project = trim_text(project_override);
    let project_typed = !typed_project.as_str().is_empty();
    let project = if project_typed {
        typed_project
    } else {
        derived_project_name(file_name)
    };
    let mut message = String::from_str("onboard ");
    append_text(&mut message, file_name);
    Ok(OnboardPlan { binding, project, project_typed, message })
}

/// What an acceptance is answered with before anything is committed, in this order: refused
/// when the caller may not write or reach the project, when no artifact is named, when no loss
/// is accepted, when the branch name fails the name rule (`name_refusal`, the rule's own
/// refusal), or when the message is blank; otherwise the holder, none when the field is empty.
pub open spec fn accept_outcome(may_write: bool, may_reach: bool, accept: AcceptForm, name_refusal: Option<OnboardRefusal>) -> Result<Option<Seq<char>>, (int, Seq<char>)> {
    if !may_write {
        Err((0, "write permission required"@))
    } else if !may_reach {
        Err((0, "project not in scope"@))
    } else if accept.artifact_hash@.len() == 0 {
        Err((1, "an artifact hash is required"@))
    } else if accept.accept_losses@.len() == 0 {
        Err((1, "at least one accepted loss is required"@))
    } else if name_refusal is Some {
        Err(refusal_view(name_refusal->0))
    } else if trimmed(accept.message@).len() == 0 {
        Err((1, "commit message must not be empty"@))
    } else if accept.holder@.len() == 0 {
        Ok(None)
    } else {
        Ok(Some(accept.holder@))
    }
}

/// Decides whether an acceptance may go ahead, and with which holder. `name_refusal` is what
/// the name rule answers for the branch name, `None` when it passes.
pub fn accept_plan(may_write: bool, may_reach: bool, accept: &AcceptForm, name_refusal: Option<OnboardRefusal>) -> (r: Result<Option<String>, OnboardRefusal>)
    ensures
        match r {
            Ok(holder) => accept_outcome(may_write, may_reach, *accept, name_refusal) == Ok::<Option<Seq<char>>, (int, Seq<char>)>(
                match holder {
                    Some(h) => Some(h@),
                    None => None,
                },
            ),
            Err(refusal) => accept_outcome(may_write, may_reach, *accept, name_refusal) == Err::<Option<Seq<char>>, (int, Seq<char>)>(
                refusal_view(refusal),
            ),
        },
{
    if !may_write {
        return Err(OnboardRefusal::Forbidden(String::from_str("write permission required")));
    }
    if !may_reach {
        return Err(OnboardRefusal::Forbidden(String::from_str("project not in scope")));
    }
    if accept.artifact_hash.as_str().is_empty() {
        return Err(OnboardRefusal::BadRequest(String::from_str("an artifact hash is required")));
    }
    if accept.accept_losses.len() == 0 {
        return Err(OnboardRefusal::BadRequest(String::from_str("at least one accepted loss is required")));
    }
    match name_refusal {
        Some(refusal) => {
            return Err(refusal);
        },
        None => {},
    }
    if trim_text(accept.message.as_str()).as_str().is_empty() {
        return Err(OnboardRefusal::BadRequest(String::from_str("commit message must not be empty")));
    }
    if accept.holder.as_str().is_empty() {
        Ok(None)
    } else {
        Ok(Some(accept.holder.clone()))
    }
}

/// The dropped file's name, recovered from an onboarding commit message.
pub open spec fn file_of_message(message: Seq<char>) -> Seq<char> {
    if starts_with(message, "onboard "@) {
        message.subrange(8, message.len() as int)
    } else {
        message
    }
}

/// The dropped file's name, recovered from an onboarding commit message: the message without
/// its `onboard ` prefix, or the whole message when it has none.
pub fn onboard_file_name(message: &str) -> (r: String)
    ensures
        r@ == file_of_message(message@),
{
    let cs = chars_of(message);
    if chars_start_with(&cs, "onboard ") {
        proof {
            reveal_strlit("onboard ");
        }
        string_of(&cs, 8, cs.len())
    } else {
        String::from_str(message)
    }
}

/// The words on the button that accepts a refused drop's losses: what it imports and how many
/// named losses it accepts, when the engine's facts are known.
pub open spec fn accept_button_words(facts: Option<OnboardFacts>) -> Seq<char> {
    match facts {
        Some(f) => "Import "@ + decimal(f.blocks as nat) + " "@ + plural_of(f.blocks, "block"@, "blocks"@) + " and "@
            + decimal(f.relationships as nat) + " "@ + plural_of(f.relationships, "relationship"@, "relationships"@)
            + ", accepting these "@ + decimal(f.blocking as nat) + " named "@ + plural_of(f.blocking, "loss"@, "losses"@),
        None => "Accept the losses and import"@,
    }
}

/// The words on the button that accepts a refused drop's losses.
pub fn accept_button_label(facts: &Option<OnboardFacts>) -> (r: String)
    ensures
        r@ == accept_button_words(*facts),
{
    match facts {
        Some(f) => {
            let mut s = String::from_str("Import ");
            append_number(&mut s, f.blocks);
            append_text(&mut s, " ");
            append_text(&mut s, plural(f.blocks, "block", "blocks"));
            append_text(&mut s, " and ");
            append_number(&mut s, f.relationships);
            append_text(&mut s, " ");
            append_text(&mut s, plural(f.relationships, "relationship", "relationships"));
            append_text(&mut s, ", accepting these ");
            append_number(&mut s, f.blocking);
            append_text(&mut s, " named ");
            append_text(&mut s, plural(f.blocking, "loss", "losses"));
            s
        },
        None => String::from_str("Accept the losses and import"),
    }
}

/// Where the "check it" link of a drop's result leads: the health view of the commit the drop
/// made, or of the branch it was to land on when nothing was committed.
pub open spec fn health_address(project: Seq<char>, commit: Option<Seq<char>>) -> Seq<char> {
    match commit {
        Some(hash) => "/ui/projects/"@ + url_text(project) + "/health?commit="@ + url_text(hash),
        None => "/ui/projects/"@ + url_text(project) + "/health?branch="@ + ONBOARD_BRANCH@,
    }
}

/// Where the "check it" link of a drop's result leads.
pub fn health_href(project: &str, commit: Option<&str>) -> (r: String)
    ensures
        r@ == health_address(project@, match commit {
            Some(h) => Some(h@),
            None => None,
        }),
{
    let mut s = String::from_str("/ui/projects/");
    let p = url_text_of(project);
    append_text(&mut s, p.as_str());
    match commit {
        Some(hash) => {
            append_text(&mut s, "/health?commit=");
            let h = url_text_of(hash);
            append_text(&mut s, h.as_str());
        },
        None => {
            append_text(&mut s, "/health?branch=");
            append_text(&mut s, ONBOARD_BRANCH);
        },
    }
    s
}

} // verus!
