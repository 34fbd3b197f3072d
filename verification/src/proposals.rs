//! The proposals page: each recorded proposal with the decision a human made on it.

use vstd::prelude::*;
use crate::text::append_text;

verus! {

/// A human's decision on a proposal.
pub enum ProposalDecision {
    Accepted,
    Refused,
}

/// What the page reads of a recorded proposal's decision.
pub struct ProposalRecord {
    pub decision: Option<ProposalDecision>,
    pub decided_by: String,
}

/// The decision a human made, or "open" while the proposal is undecided.
pub open spec fn decision_words(record: ProposalRecord) -> Seq<char> {
    match record.decision {
        None => "open"@,
        Some(ProposalDecision::Accepted) => "accepted by "@ + record.decided_by@,
        Some(ProposalDecision::Refused) => "refused by "@ + record.decided_by@,
    }
}

pub fn decision_text(record: &ProposalRecord) -> (r: String)
    ensures
        r@ == decision_words(*record),
{
    match record.decision {
        None => String::from_str("open"),
        Some(ProposalDecision::Accepted) => {
            let mut s = String::from_str("accepted by ");
            append_text(&mut s, record.decided_by.as_str());
            s
        },
        Some(ProposalDecision::Refused) => {
            let mut s = String::from_str("refused by ");
            append_text(&mut s, record.decided_by.as_str());
            s
        },
    }
}

} // verus!
