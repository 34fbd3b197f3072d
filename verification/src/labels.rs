//! The short words the pages put on things: a mapping verdict, a proposal's confidence and
//! action, a coverage chip, a state's name, a named count.

use vstd::prelude::*;
use crate::scope::GraphNode;
use crate::sections::{find_last, last_node};
use crate::text::{append_number, append_text, decimal};

verus! {

/// How faithfully a binding maps one construct.
#[derive(Clone, Copy, Debug, PartialEq, Eq, Structural)]
pub enum MappingVerdict {
    Exact,
    Lossy,
    Unmappable,
}

/// A human-readable label for a mapping verdict, shown beside each loss so two entries that
/// name the same subject but drop different things are still distinguishable.
pub fn verdict_label(verdict: MappingVerdict) -> (r: &'static str)
    ensures
        r@ == match verdict {
            MappingVerdict::Exact => "exact"@,
            MappingVerdict::Lossy => "lossy"@,
            MappingVerdict::Unmappable => "unmappable"@,
        },
{
    match verdict {
        MappingVerdict::Exact => "exact",
        MappingVerdict::Lossy => "lossy",
        MappingVerdict::Unmappable => "unmappable",
    }
}

/// How sure the assistant is of a proposal.
#[derive(Clone, Copy, Debug, PartialEq, Eq, Structural)]
pub enum Confidence {
    High,
    Medium,
    Low,
}

/// The words for a proposal's confidence.
pub fn confidence_label(confidence: Confidence) -> (r: &'static str)
    ensures
        r@ == match confidence {
            Confidence::High => "high confidence"@,
            Confidence::Medium => "medium confidence"@,
            Confidence::Low => "low confidence"@,
        },
{
    match confidence {
        Confidence::High => "high confidence",
        Confidence::Medium => "medium confidence",
        Confidence::Low => "low confidence",
    }
}

/// The class and words that close a proposal in the list: a low-confidence proposal is marked
/// for attention, never shown like the sure ones; any other carries its confidence.
pub fn proposal_confidence_chip(confidence: Confidence) -> (r: (&'static str, &'static str))
    ensures
        (r.0@, r.1@) == match confidence {
            Confidence::Low => ("low-confidence"@, "low confidence"@),
            Confidence::Medium => ("confidence"@, "medium confidence"@),
            Confidence::High => ("confidence"@, "high confidence"@),
        },
{
    match confidence {
        Confidence::Low => ("low-confidence", "low confidence"),
        _ => ("confidence", confidence_label(confidence)),
    }
}

/// What a proposal asks to do.
#[derive(Clone, Copy, Debug, PartialEq, Eq, Structural)]
pub enum ProposedAction {
    EditElement,
    DraftText,
    AcceptLoss,
    Reject,
    NoAction,
}

/// The name of a proposal's action, as the page shows it.
pub fn action_label(action: ProposedAction) -> (r: &'static str)
    ensures
        r@ == match action {
            ProposedAction::EditElement => "EditElement"@,
            ProposedAction::DraftText => "DraftText"@,
            ProposedAction::AcceptLoss => "AcceptLoss"@,
            ProposedAction::Reject => "Reject"@,
            ProposedAction::NoAction => "NoAction"@,
        },
{
    match action {
        ProposedAction::EditElement => "EditElement",
        ProposedAction::DraftText => "DraftText",
        ProposedAction::AcceptLoss => "AcceptLoss",
        ProposedAction::Reject => "Reject",
        ProposedAction::NoAction => "NoAction",
    }
}

/// How a requirement's coverage status is shown: a class, a title and the status in words. The
/// tint always comes with the words, so the state is never carried by colour alone.
pub open spec fn coverage_chip_of(status: Seq<char>) -> (Seq<char>, Seq<char>, Seq<char>) {
    if status == "covered"@ {
        ("covered"@, "Requirement coverage: covered by at least one link"@, "covered"@)
    } else if status == "uncovered"@ {
        ("uncovered"@, "Requirement coverage: not covered by any link"@, "uncovered"@)
    } else {
        ("mw-badge-unknown"@, "Requirement coverage: could not be reported"@, "not reported"@)
    }
}

/// The class, title and words that show a coverage status.
pub fn coverage_chip(status: &str) -> (r: (&'static str, &'static str, &'static str))
    ensures
        (r.0@, r.1@, r.2@) == coverage_chip_of(status@),
{
    let cs = crate::text::chars_of(status);
    if crate::text::chars_equal(&cs, "covered") {
        ("covered", "Requirement coverage: covered by at least one link", "covered")
    } else if crate::text::chars_equal(&cs, "uncovered") {
        ("uncovered", "Requirement coverage: not covered by any link", "uncovered")
    } else {
        ("mw-badge-unknown", "Requirement coverage: could not be reported", "not reported")
    }
}

/// The display name of a state or element a transition refers to: the name of the element
/// with that id (the last one, as an index keyed by id keeps it), or the id when the model
/// carries no name for it.
pub open spec fn state_words(nodes: Seq<GraphNode>, id: Seq<char>) -> Seq<char> {
    match last_node(nodes, id) {
        Some(n) => if n.name@.len() > 0 {
            n.name@
        } else {
            id
        },
        None => id,
    }
}

/// The display name of a state or element a transition refers to.
pub fn state_label(id: &String, nodes: &Vec<GraphNode>) -> (r: String)
    ensures
        r@ == state_words(nodes@, id@),
{
    match find_last(nodes, id) {
        Some(k) => if nodes[k].name.as_str().is_empty() {
            id.clone()
        } else {
            nodes[k].name.clone()
        },
        None => id.clone(),
    }
}

/// A named count with the right plural: "1 orphan", "10 uncovered requirements". The gap is
/// always named, because a bare number is what this product refuses to show.
pub fn named_count(count: u64, singular: &str, plural: &str) -> (r: String)
    ensures
        r@ == decimal(count as nat) + " "@ + if count == 1 {
            singular@
        } else {
            plural@
        },
{
    let mut out = String::new();
    proof {
        assert(out@ =~= Seq::<char>::empty());
    }
    append_number(&mut out, count);
    append_text(&mut out, " ");
    if count == 1 {
        append_text(&mut out, singular);
    } else {
        append_text(&mut out, plural);
    }
    out
}

/// A measured model's gap counts, as a project card carries them.
pub struct GapCounts {
    pub orphaned: u64,
    pub isolated_groups: u64,
    pub isolated_group_nodes: u64,
    pub dangling: u64,
    pub uncovered: u64,
}

/// A count and its noun, singular for one.
pub open spec fn count_words(count: u64, singular: Seq<char>, plural: Seq<char>) -> Seq<char> {
    decimal(count as nat) + " "@ + if count == 1 {
        singular
    } else {
        plural
    }
}

/// The gaps a card names: only those the model has, in the health view's order, each a named
/// count; isolated groups also say how many nodes they hold.
pub open spec fn gap_words(g: GapCounts) -> Seq<Seq<char>> {
    let a = if g.orphaned > 0 {
        seq![count_words(g.orphaned, "orphan"@, "orphans"@)]
    } else {
        Seq::empty()
    };
    let b = if g.isolated_groups > 0 {
        seq![count_words(g.isolated_groups, "isolated group"@, "isolated groups"@) + " ("@ + decimal(g.isolated_group_nodes as nat)
            + " "@ + if g.isolated_group_nodes == 1 { "node"@ } else { "nodes"@ } + ")"@]
    } else {
        Seq::empty()
    };
    let c = if g.dangling > 0 {
        seq![count_words(g.dangling, "dangling link"@, "dangling links"@)]
    } else {
        Seq::empty()
    };
    let d = if g.uncovered > 0 {
        seq![count_words(g.uncovered, "uncovered requirement"@, "uncovered requirements"@)]
    } else {
        Seq::empty()
    };
    a + b + c + d
}

/// The gaps a card names, in order.
pub fn gap_phrases(g: &GapCounts) -> (r: Vec<String>)
    ensures
        crate::text::texts(r@) == gap_words(*g),
{
    let mut out: Vec<String> = Vec::new();
    if g.orphaned > 0 {
        out.push(named_count(g.orphaned, "orphan", "orphans"));
    }
    let ghost after_a = crate::text::texts(out@);
    if g.isolated_groups > 0 {
        let mut p = named_count(g.isolated_groups, "isolated group", "isolated groups");
        append_text(&mut p, " (");
        append_number(&mut p, g.isolated_group_nodes);
        append_text(&mut p, " ");
        if g.isolated_group_nodes == 1 {
            append_text(&mut p, "node");
        } else {
            append_text(&mut p, "nodes");
        }
        append_text(&mut p, ")");
        out.push(p);
    }
    let ghost after_b = crate::text::texts(out@);
    if g.dangling > 0 {
        out.push(named_count(g.dangling, "dangling link", "dangling links"));
    }
    let ghost after_c = crate::text::texts(out@);
    if g.uncovered > 0 {
        out.push(named_count(g.uncovered, "uncovered requirement", "uncovered requirements"));
    }
    proof {
        let w = gap_words(*g);
        let a = if g.orphaned > 0 { seq![count_words(g.orphaned, "orphan"@, "orphans"@)] } else { Seq::<Seq<char>>::empty() };
        assert(after_a =~= a);
        assert(crate::text::texts(out@) =~= w);
    }
    out
}

/// The name of a node as a person reads it: its name, or its id when it has none.
pub fn display_name(node: &GraphNode) -> (r: &str)
    ensures
        r@ == if node.name@.len() == 0 {
            node.id@
        } else {
            node.name@
        },
{
    if node.name.as_str().is_empty() {
        node.id.as_str()
    } else {
        node.name.as_str()
    }
}

/// The label of a neighbourhood radius: "1 relationship", "2 relationships".
pub fn hop_label(radius: u64) -> (r: String)
    ensures
        r@ == count_words(radius, "relationship"@, "relationships"@),
{
    named_count(radius, "relationship", "relationships")
}

} // verus!
