//! The plain-language summary of an onboarded model: template composition over the engine's
//! own numbers.
//!
//! Every value interpolated below comes from [OnboardFacts], and every field of that value is
//! read from an engine computation. There is no arithmetic here beyond selecting a word, so a
//! sentence cannot state a number the engine did not produce.

use vstd::prelude::*;
use crate::text::{append_number, append_text, decimal, joined, text, texts};

verus! {

/// One class of loss, counted from the binding's own loss report. The name is the engine's own
/// word for the construct (the front of each entry's subject); the example is one real entry.
#[derive(Debug, Clone, PartialEq, Eq)]
pub struct LossClass {
    pub name: String,
    pub count: u64,
    pub example: String,
}

/// What the engine measured about the imported model, for the "check it" half of the flow.
#[derive(Debug, Clone, PartialEq, Eq)]
pub struct HealthFacts {
    pub nodes: u64,
    pub relationships: u64,
    pub components: u64,
    pub isolated: u64,
    pub requirements: u64,
    pub covered: u64,
    pub uncovered: u64,
}

/// Every number the drop-zone summary speaks, each read from an engine value: the binding's
/// loss report, the engine's own round-trip diff, the graph stats and the coverage report.
#[derive(Debug, Clone, PartialEq, Eq)]
pub struct OnboardFacts {
    pub format_label: String,
    pub binding: String,
    pub viewer: bool,
    pub blocks: u64,
    pub relationships: u64,
    pub requirements: u64,
    pub graph_nodes: u64,
    pub artifact_bytes: u64,
    pub blocking: u64,
    pub unmappable: u64,
    pub lossy: u64,
    pub declarations: u64,
    pub round_trip: Option<bool>,
    pub classes: Vec<LossClass>,
    pub health: Option<HealthFacts>,
}

/// The engine values the facts are read from: the detected format's label, the binding that
/// read the artifact and whether it is a viewer (import-only), the imported document's counts,
/// the binding's loss report (the subjects of its blocking entries, and its other counts), the
/// engine's round-trip verdict and the health measurement.
pub struct FactsInput {
    pub format_label: String,
    pub binding: String,
    pub viewer: bool,
    /// How many structure elements the imported document holds.
    pub structure: u64,
    /// How many requirements the imported document holds.
    pub requirements: u64,
    /// The graph's element and relationship counts, when the document carries a graph.
    pub graph: Option<(u64, u64)>,
    /// The document summary's element and relationship counts, for a document without a graph.
    pub summary_nodes: u64,
    pub summary_edges: u64,
    pub artifact_bytes: u64,
    /// The subjects of the loss report's blocking entries, in report order.
    pub blocking: Vec<String>,
    pub unmappable: u64,
    pub lossy: u64,
    pub declarations: u64,
    pub round_trip: Option<bool>,
    pub health: Option<HealthFacts>,
}

/// The word for a count: the singular form for exactly one, the plural otherwise.
pub open spec fn plural_of(n: u64, one: Seq<char>, many: Seq<char>) -> Seq<char> {
    if n == 1 {
        one
    } else {
        many
    }
}

pub fn plural(n: u64, one: &'static str, many: &'static str) -> (r: &'static str)
    ensures
        r == (if n == 1 {
            one
        } else {
            many
        }),
{
    if n == 1 {
        one
    } else {
        many
    }
}

/// The coverage half of the health sentence.
pub open spec fn coverage_text(h: HealthFacts) -> Seq<char> {
    let noun = plural_of(h.requirements, "requirement is"@, "requirements are"@);
    if h.requirements == 0 {
        "The model declares no requirements."@
    } else if h.uncovered == 0 {
        "All "@ + decimal(h.requirements as nat) + " "@ + noun
            + " covered by a Satisfy, Refine, Verify or Allocate link."@
    } else if h.covered == 0 {
        decimal(h.requirements as nat) + " "@ + noun
            + ", none covered — the model carries no traceability link from a block to a requirement."@
    } else {
        decimal(h.covered as nat) + " of "@ + decimal(h.requirements as nat) + " "@ + noun
            + " covered; "@ + decimal(h.uncovered as nat) + " uncovered."@
    }
}

/// The coverage half of the health sentence, from the engine's coverage report.
pub fn coverage_sentence(health: &HealthFacts) -> (r: String)
    ensures
        r@ == coverage_text(*health),
{
    if health.requirements == 0 {
        return text("The model declares no requirements.");
    }
    let noun = plural(health.requirements, "requirement is", "requirements are");
    if health.uncovered == 0 {
        let mut out = text("All ");
        append_number(&mut out, health.requirements);
        append_text(&mut out, " ");
        append_text(&mut out, noun);
        append_text(&mut out, " covered by a Satisfy, Refine, Verify or Allocate link.");
        return out;
    }
    if health.covered == 0 {
        let mut out = String::new();
        append_number(&mut out, health.requirements);
        append_text(&mut out, " ");
        append_text(&mut out, noun);
        append_text(
            &mut out,
            ", none covered — the model carries no traceability link from a block to a requirement.",
        );
        proof {
            assert(out@ =~= coverage_text(*health));
        }
        return out;
    }
    let mut out = String::new();
    append_number(&mut out, health.covered);
    append_text(&mut out, " of ");
    append_number(&mut out, health.requirements);
    append_text(&mut out, " ");
    append_text(&mut out, noun);
    append_text(&mut out, " covered; ");
    append_number(&mut out, health.uncovered);
    append_text(&mut out, " uncovered.");
    proof {
        assert(out@ =~= coverage_text(*health));
    }
    out
}

/// The topology half of the health sentence.
pub open spec fn topology_text(h: HealthFacts) -> Seq<char> {
    if h.components <= 1 && h.isolated == 0 {
        "All "@ + decimal(h.nodes as nat) + " "@ + plural_of(h.nodes, "node sits in"@, "nodes sit in"@)
            + " one connected group."@
    } else {
        decimal(h.nodes as nat) + " "@ + plural_of(h.nodes, "node sits"@, "nodes sit"@) + " in "@
            + decimal(h.components as nat) + " disconnected "@ + plural_of(
            h.components,
            "group"@,
            "groups"@,
        ) + "; "@ + decimal(h.isolated as nat) + " of them isolated, with no edges at all."@
    }
}

/// The topology half of the health sentence, from the engine's graph stats.
pub fn topology_sentence(health: &HealthFacts) -> (r: String)
    ensures
        r@ == topology_text(*health),
{
    if health.components <= 1 && health.isolated == 0 {
        let mut out = text("All ");
        append_number(&mut out, health.nodes);
        append_text(&mut out, " ");
        append_text(&mut out, plural(health.nodes, "node sits in", "nodes sit in"));
        append_text(&mut out, " one connected group.");
        return out;
    }
    let mut out = String::new();
    append_number(&mut out, health.nodes);
    append_text(&mut out, " ");
    append_text(&mut out, plural(health.nodes, "node sits", "nodes sit"));
    append_text(&mut out, " in ");
    append_number(&mut out, health.components);
    append_text(&mut out, " disconnected ");
    append_text(&mut out, plural(health.components, "group", "groups"));
    append_text(&mut out, "; ");
    append_number(&mut out, health.isolated);
    append_text(&mut out, " of them isolated, with no edges at all.");
    proof {
        assert(out@ =~= topology_text(*health));
    }
    out
}


/// How many loss classes the plain-language summary names.
pub const MAX_LOSS_CLASSES: usize = 5;

/// One loss class as the summary lists it.
pub open spec fn class_text(c: LossClass) -> Seq<char> {
    decimal(c.count as nat) + " × "@ + c.name@ + " (for example "@ + c.example@ + ")"@
}

/// The round-trip sentence.
pub open spec fn round_trip_text(round_trip: Option<bool>) -> Seq<char> {
    match round_trip {
        Some(true) => "It round-trips exactly: the engine wrote the imported model back to the source form, read it again, and its own diff of the two found nothing missing."@,
        Some(false) => "The engine round-tripped it, and its own diff says the reader's write-back is not exact — this is a disagreement between the engine and the reader, and it is refused rather than hidden."@,
        None => "This reader is a viewer (it reads but cannot write back), so no round trip can be measured; the loss report is its own account of the read."@,
    }
}

/// The sentences of the summary, in order.
pub open spec fn summary_texts(f: OnboardFacts) -> Seq<Seq<char>> {
    let first = "This is "@ + f.format_label@ + " — read by the "@ + f.binding@ + " binding."@;
    let carried = "It carried "@ + decimal(f.blocks as nat) + " "@ + plural_of(f.blocks, "block"@, "blocks"@)
        + ", "@ + decimal(f.relationships as nat) + " "@ + plural_of(
        f.relationships,
        "relationship"@,
        "relationships"@,
    ) + " and "@ + decimal(f.requirements as nat) + " "@ + plural_of(
        f.requirements,
        "requirement"@,
        "requirements"@,
    ) + "."@;
    let losses = if f.blocking == 0 {
        "Nothing is outside what this reader carries: every entry in its loss report is exact."@
    } else {
        decimal(f.blocking as nat) + " "@ + plural_of(f.blocking, "thing is"@, "things are"@)
            + " outside what this reader carries: "@ + decimal(f.unmappable as nat)
            + " it cannot map at all and "@ + decimal(f.lossy as nat) + " it carries with a named drop."@
    };
    let base = seq![first, carried, round_trip_text(f.round_trip), losses];
    let with_declarations = if f.declarations > 0 {
        base.push(
            "It also recognised "@ + decimal(f.declarations as nat) + " "@ + plural_of(
                f.declarations,
                "declaration"@,
                "declarations"@,
            ) + " (profiles, package imports, annotations and root metadata) that carry no model content and are therefore not losses."@,
        )
    } else {
        base
    };
    let classes = f.classes@;
    let with_classes = if classes.len() > 0 {
        let heading = if classes.len() >= MAX_LOSS_CLASSES {
            "The five biggest classes of loss are"@
        } else {
            "These are the classes of loss"@
        };
        with_declarations.push(
            heading + ": "@ + joined(classes.map_values(|c: LossClass| class_text(c)), "; "@) + "."@,
        )
    } else {
        with_declarations
    };
    match f.health {
        Some(h) => with_classes.push(coverage_text(h)).push(topology_text(h)),
        None => with_classes,
    }
}


fn class_item(c: &LossClass) -> (r: String)
    ensures
        r@ == class_text(*c),
{
    let mut out = String::new();
    append_number(&mut out, c.count);
    append_text(&mut out, " × ");
    append_text(&mut out, c.name.as_str());
    append_text(&mut out, " (for example ");
    append_text(&mut out, c.example.as_str());
    append_text(&mut out, ")");
    proof {
        assert(out@ =~= class_text(*c));
    }
    out
}

/// The first character of a number's decimal rendering is a digit.
proof fn lemma_decimal_starts_with_digit(n: nat)
    ensures
        decimal(n).len() >= 1,
        '0' <= decimal(n)[0] <= '9',
    decreases n,
{
    if n >= 10 {
        lemma_decimal_starts_with_digit(n / 10);
        assert(decimal(n)[0] == decimal(n / 10)[0]);
    }
}

/// How the summary is made up: four sentences always (what it is, what it carried, the round
/// trip and the losses), one more when declarations were recognised, one more when there are
/// loss classes, and two more (coverage and topology) when the model's health was measured.
/// The losses sentence says nothing is outside what the reader carries exactly when nothing
/// blocks, and the classes sentence speaks of the five biggest classes exactly when the list
/// is full.
pub proof fn lemma_summary_shape(f: OnboardFacts)
    ensures
        summary_texts(f).len() == 4 + (if f.declarations > 0 { 1int } else { 0int }) + (if f.classes@.len() > 0 { 1int } else { 0int })
            + (if f.health is Some { 2int } else { 0int }),
        (summary_texts(f)[3] == "Nothing is outside what this reader carries: every entry in its loss report is exact."@)
            <==> f.blocking == 0,
        f.classes@.len() >= MAX_LOSS_CLASSES ==> summary_texts(f)[4 + (if f.declarations > 0 { 1int } else { 0int })].take(36)
            == "The five biggest classes of loss are"@,
        0 < f.classes@.len() < MAX_LOSS_CLASSES ==> summary_texts(f)[4 + (if f.declarations > 0 { 1int } else { 0int })].take(29)
            == "These are the classes of loss"@,
{
    reveal_strlit("Nothing is outside what this reader carries: every entry in its loss report is exact.");
    reveal_strlit("The five biggest classes of loss are");
    reveal_strlit("These are the classes of loss");
    let t = summary_texts(f);
    if f.blocking != 0 {
        lemma_decimal_starts_with_digit(f.blocking as nat);
        let losses = decimal(f.blocking as nat) + " "@ + plural_of(f.blocking, "thing is"@, "things are"@)
            + " outside what this reader carries: "@ + decimal(f.unmappable as nat)
            + " it cannot map at all and "@ + decimal(f.lossy as nat) + " it carries with a named drop."@;
        assert(t[3] == losses);
        assert(losses[0] == decimal(f.blocking as nat)[0]);
        assert(t[3][0] != 'N');
    }
    let d = if f.declarations > 0 { 1int } else { 0int };
    if f.classes@.len() > 0 {
        let classes = f.classes@;
        let heading = if classes.len() >= MAX_LOSS_CLASSES {
            "The five biggest classes of loss are"@
        } else {
            "These are the classes of loss"@
        };
        let line = heading + ": "@ + joined(classes.map_values(|c: LossClass| class_text(c)), "; "@) + "."@;
        assert(t[4 + d] == line);
        assert(line.take(heading.len() as int) =~= heading);
    }
}

/// The plain-language summary: template composition over the engine's own numbers.
pub fn summary_sentences(facts: &OnboardFacts) -> (r: Vec<String>)
    ensures
        texts(r@) == summary_texts(*facts),
{
    let mut out: Vec<String> = Vec::new();

    let mut first = text("This is ");
    append_text(&mut first, facts.format_label.as_str());
    append_text(&mut first, " — read by the ");
    append_text(&mut first, facts.binding.as_str());
    append_text(&mut first, " binding.");
    out.push(first);

    let mut carried = text("It carried ");
    append_number(&mut carried, facts.blocks);
    append_text(&mut carried, " ");
    append_text(&mut carried, plural(facts.blocks, "block", "blocks"));
    append_text(&mut carried, ", ");
    append_number(&mut carried, facts.relationships);
    append_text(&mut carried, " ");
    append_text(&mut carried, plural(facts.relationships, "relationship", "relationships"));
    append_text(&mut carried, " and ");
    append_number(&mut carried, facts.requirements);
    append_text(&mut carried, " ");
    append_text(&mut carried, plural(facts.requirements, "requirement", "requirements"));
    append_text(&mut carried, ".");
    out.push(carried);

    out.push(
        match facts.round_trip {
            Some(true) => text("It round-trips exactly: the engine wrote the imported model back to the source form, read it again, and its own diff of the two found nothing missing."),
            Some(false) => text("The engine round-tripped it, and its own diff says the reader's write-back is not exact — this is a disagreement between the engine and the reader, and it is refused rather than hidden."),
            None => text("This reader is a viewer (it reads but cannot write back), so no round trip can be measured; the loss report is its own account of the read."),
        },
    );

    if facts.blocking == 0 {
        out.push(text("Nothing is outside what this reader carries: every entry in its loss report is exact."));
    } else {
        let mut losses = String::new();
        append_number(&mut losses, facts.blocking);
        append_text(&mut losses, " ");
        append_text(&mut losses, plural(facts.blocking, "thing is", "things are"));
        append_text(&mut losses, " outside what this reader carries: ");
        append_number(&mut losses, facts.unmappable);
        append_text(&mut losses, " it cannot map at all and ");
        append_number(&mut losses, facts.lossy);
        append_text(&mut losses, " it carries with a named drop.");
        proof {
            assert(losses@ =~= decimal(facts.blocking as nat) + " "@ + plural_of(facts.blocking, "thing is"@, "things are"@)
                + " outside what this reader carries: "@ + decimal(facts.unmappable as nat)
                + " it cannot map at all and "@ + decimal(facts.lossy as nat) + " it carries with a named drop."@);
        }
        out.push(losses);
    }
    if facts.declarations > 0 {
        let mut declared = text("It also recognised ");
        append_number(&mut declared, facts.declarations);
        append_text(&mut declared, " ");
        append_text(&mut declared, plural(facts.declarations, "declaration", "declarations"));
        append_text(&mut declared, " (profiles, package imports, annotations and root metadata) that carry no model content and are therefore not losses.");
        out.push(declared);
    }

    if facts.classes.len() > 0 {
        let heading = if facts.classes.len() >= MAX_LOSS_CLASSES {
            "The five biggest classes of loss are"
        } else {
            "These are the classes of loss"
        };
        let ghost items = facts.classes@.map_values(|c: LossClass| class_text(c));
        let mut listed = String::new();
        let mut i: usize = 0;
        while i < facts.classes.len()
            invariant
                items == facts.classes@.map_values(|c: LossClass| class_text(c)),
                i <= facts.classes@.len(),
                listed@ == joined(items.take(i as int), "; "@),
            decreases facts.classes@.len() - i,
        {
            let ghost before = listed@;
            if i > 0 {
                append_text(&mut listed, "; ");
            }
            let item = class_item(&facts.classes[i]);
            append_text(&mut listed, item.as_str());
            proof {
                assert(items.take(i + 1).drop_last() =~= items.take(i as int));
                if i == 0 {
                    assert(listed@ =~= items.take(1)[0]);
                } else {
                    assert(listed@ =~= joined(items.take(i as int), "; "@) + "; "@ + items.take(i + 1).last());
                }
            }
            i = i + 1;
        }
        proof {
            assert(items.take(i as int) =~= items);
        }
        let mut sentence = text(heading);
        append_text(&mut sentence, ": ");
        append_text(&mut sentence, listed.as_str());
        append_text(&mut sentence, ".");
        out.push(sentence);
    }

    if let Some(health) = &facts.health {
        out.push(coverage_sentence(health));
        out.push(topology_sentence(health));
    }
    proof {
        assert(texts(out@) =~= summary_texts(*facts));
    }
    out
}

/// The sentences the result page shows: the summary when the engine measured the artifact, and
/// otherwise the one sentence that says it has nothing to say.
pub open spec fn report_texts(facts: Option<OnboardFacts>) -> Seq<Seq<char>> {
    match facts {
        Some(f) => summary_texts(f),
        None => seq!["The engine produced no measurement for this artifact, so there is nothing it can honestly say about the model."@],
    }
}

/// The sentences the page shows, from the engine's numbers, so every caller - the page, a
/// test, a reasoner handed the same facts - reads the identical prose.
pub fn report_sentences(facts: &Option<OnboardFacts>) -> (r: Vec<String>)
    ensures
        texts(r@) == report_texts(*facts),
{
    match facts {
        Some(f) => summary_sentences(f),
        None => {
            let mut v: Vec<String> = Vec::new();
            v.push(text("The engine produced no measurement for this artifact, so there is nothing it can honestly say about the model."));
            proof {
                assert(texts(v@) =~= report_texts(*facts));
            }
            v
        },
    }
}

impl OnboardFacts {
    /// Read every fact from the engine's own values. Nothing is estimated and nothing is
    /// counted twice: the element counts come from the imported document (its graph when it
    /// has one, its summary otherwise), the loss counts from the binding's report, and the
    /// round-trip verdict from the engine's diff.
    pub fn from_engine(input: FactsInput) -> (r: OnboardFacts)
        requires
            input.blocking@.len() < u64::MAX,
        ensures
            r.format_label == input.format_label,
            r.binding == input.binding,
            r.viewer == input.viewer,
            r.blocks == input.structure,
            r.relationships == match input.graph {
                Some(g) => g.1,
                None => input.summary_edges,
            },
            r.requirements == input.requirements,
            r.graph_nodes == match input.graph {
                Some(g) => g.0,
                None => input.summary_nodes,
            },
            r.artifact_bytes == input.artifact_bytes,
            r.blocking == input.blocking@.len(),
            r.unmappable == input.unmappable,
            r.lossy == input.lossy,
            r.declarations == input.declarations,
            r.round_trip == input.round_trip,
            r.health == input.health,
            r.classes@.len() <= MAX_LOSS_CLASSES,
            crate::losses::ranked_classes(input.blocking@, MAX_LOSS_CLASSES as nat, r.classes@),
            forall|i: int| 0 <= i < r.classes@.len() ==> crate::losses::is_class_of(input.blocking@, #[trigger] r.classes@[i]),
            forall|i: int, j: int| 0 <= i < j < r.classes@.len() ==> crate::losses::outranks(
                r.classes@[i].count as int,
                r.classes@[i].name@,
                #[trigger] r.classes@[j].count as int,
                r.classes@[j].name@,
            ) && #[trigger] r.classes@[i].name@ != r.classes@[j].name@,
            forall|k: int| 0 <= k < input.blocking@.len() && !crate::losses::lists(r.classes@, #[trigger] crate::losses::class_names(input.blocking@)[k]) ==> r.classes@.len()
                == MAX_LOSS_CLASSES && forall|i: int| 0 <= i < r.classes@.len() ==> crate::losses::outranks(
                #[trigger] r.classes@[i].count as int,
                r.classes@[i].name@,
                crate::losses::count_in(crate::losses::class_names(input.blocking@), crate::losses::class_names(input.blocking@)[k]) as int,
                crate::losses::class_names(input.blocking@)[k],
            ),
            (forall|k: int| 0 <= k < input.blocking@.len() ==> crate::losses::lists(r.classes@, #[trigger] crate::losses::class_names(input.blocking@)[k]))
                ==> crate::losses::class_total(r.classes@) == input.blocking@.len(),
    {
        let (graph_nodes, relationships) = match input.graph {
            Some(g) => g,
            None => (input.summary_nodes, input.summary_edges),
        };
        let classes = crate::losses::loss_classes(input.blocking.as_slice(), MAX_LOSS_CLASSES);
        OnboardFacts {
            format_label: input.format_label,
            binding: input.binding,
            viewer: input.viewer,
            blocks: input.structure,
            relationships,
            requirements: input.requirements,
            graph_nodes,
            artifact_bytes: input.artifact_bytes,
            blocking: input.blocking.len() as u64,
            unmappable: input.unmappable,
            lossy: input.lossy,
            declarations: input.declarations,
            round_trip: input.round_trip,
            classes,
            health: input.health,
        }
    }
}

} // verus!
