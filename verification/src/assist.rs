//! The assist panel: whether it offers a request, the request to the reasoner, and a human's
//! acceptance of a proposal.

use vstd::prelude::*;

verus! {

/// A request to the reasoner, on a branch.
pub struct AssistForm {
    pub request: String,
    pub branch: String,
}

/// A human's acceptance of a proposal: the branch it commits to, the commit message, and the
/// optional holder (empty when none was supplied).
pub struct AcceptForm {
    pub branch: String,
    pub message: String,
    pub holder: String,
}

/// The live backend a request would reach.
pub enum LiveBackend {
    /// A local OpenAI-compatible model.
    OpenAi,
    /// Anthropic.
    Anthropic,
}

/// What a request to the reasoner would reach, as the deployment is configured.
pub enum ReasonerStatus {
    Live(LiveBackend),
    /// The deterministic scripted reasoner.
    Scripted,
    NotConfigured,
    /// A reasoner mode the deployment names but nobody recognises.
    UnknownMode(String),
}

/// Whether the assist panel offers the request box and its Submit: only when a request would
/// reach a reasoner, live or scripted. A deployment without one is told so, and offered no form.
pub fn offers_request(status: &ReasonerStatus) -> (r: bool)
    ensures
        r == (status is Live || status is Scripted),
{
    match status {
        ReasonerStatus::Live(_) => true,
        ReasonerStatus::Scripted => true,
        _ => false,
    }
}

} // verus!
