//! The recorded comparison of two commits, and the name its evidence downloads under.

use vstd::prelude::*;
use crate::json::{count_at, flag_at, member_at, member_in, numbers_at, opt_view, parse_json, texts_at, count_in, flag_in, json_of, numbers_in, texts_in, JsonValue, JsonView};
use crate::text::{append_number, append_text, decimal, decimal_string, join_texts, joined, texts};

verus! {

/// What the pages read of a recorded comparison run: the two commits it compared.
pub struct GateRun {
    pub reference_hash: String,
    pub candidate_hash: String,
    /// The evidence the run recorded, as the JSON text it was stored as.
    pub evidence: String,
}

/// The file name of a run's evidence download, naming both commits it compared.
pub open spec fn evidence_name(run: GateRun) -> Seq<char> {
    "server-"@ + run.reference_hash@ + "-"@ + run.candidate_hash@ + ".json"@
}

pub fn evidence_file_name(run: &GateRun) -> (r: String)
    ensures
        r@ == evidence_name(*run),
{
    let mut s = String::from_str("server-");
    append_text(&mut s, run.reference_hash.as_str());
    append_text(&mut s, "-");
    append_text(&mut s, run.candidate_hash.as_str());
    append_text(&mut s, ".json");
    s
}

/// The numbers a run's evidence reports about connectivity and coverage, each present only
/// when the evidence carries it.
pub struct EvidenceCounts {
    pub component_count: Option<u64>,
    pub component_sizes: Vec<u64>,
    pub total: Option<u64>,
    pub covered: Option<u64>,
    pub uncovered: u64,
    pub satisfied: Option<u64>,
    pub refined: Option<u64>,
    pub verified: Option<u64>,
    pub allocated: Option<u64>,
}

/// The numbers as text, in order.
pub open spec fn numbers_text(v: Seq<u64>) -> Seq<Seq<char>> {
    v.map_values(|n: u64| decimal(n as nat))
}

/// The connectivity line: how many connected components, and their sizes when reported.
pub open spec fn components_words(count: u64, sizes: Seq<u64>) -> Seq<char> {
    decimal(count as nat) + " connected component"@ + (if count != 1 { "s"@ } else { Seq::empty() }) + if sizes.len() > 0 {
        " (sizes: "@ + joined(numbers_text(sizes), ", "@) + ")"@
    } else {
        Seq::empty()
    }
}

/// A count the evidence may omit, as the page reads it: zero when absent.
pub open spec fn or_zero(n: Option<u64>) -> nat {
    match n {
        Some(v) => v as nat,
        None => 0,
    }
}

/// The coverage line, when the evidence carries a coverage report.
pub open spec fn coverage_words(c: EvidenceCounts) -> Option<Seq<char>> {
    match c.total {
        Some(total) => Some(
            decimal(total as nat) + " requirements: "@ + decimal(or_zero(c.covered)) + " covered, "@ + decimal(c.uncovered as nat)
                + " uncovered · "@ + decimal(or_zero(c.satisfied)) + " satisfy, "@ + decimal(or_zero(c.refined)) + " refine, "@
                + decimal(or_zero(c.verified)) + " verify, "@ + decimal(or_zero(c.allocated)) + " allocate"@,
        ),
        None => None,
    }
}

/// The connectivity line of a run, when its evidence reports a component count.
pub fn components_line(counts: &EvidenceCounts) -> (r: Option<String>)
    ensures
        match counts.component_count {
            Some(n) => r matches Some(s) && s@ == components_words(n, counts.component_sizes@),
            None => r is None,
        },
{
    let n = match counts.component_count {
        Some(n) => n,
        None => {
            return None;
        },
    };
    let mut s = decimal_string(n);
    append_text(&mut s, " connected component");
    if n != 1 {
        append_text(&mut s, "s");
    }
    if counts.component_sizes.len() > 0 {
        let mut parts: Vec<String> = Vec::new();
        let mut i: usize = 0;
        while i < counts.component_sizes.len()
            invariant
                i <= counts.component_sizes@.len(),
                texts(parts@) == numbers_text(counts.component_sizes@).take(i as int),
            decreases counts.component_sizes@.len() - i,
        {
            let ghost before = parts@;
            parts.push(decimal_string(counts.component_sizes[i]));
            proof {
                assert(texts(parts@) =~= texts(before).push(decimal(counts.component_sizes@[i as int] as nat)));
                assert(numbers_text(counts.component_sizes@).take(i + 1) =~= numbers_text(counts.component_sizes@).take(i as int).push(
                    decimal(counts.component_sizes@[i as int] as nat),
                ));
            }
            i = i + 1;
        }
        proof {
            assert(numbers_text(counts.component_sizes@).take(i as int) =~= numbers_text(counts.component_sizes@));
        }
        append_text(&mut s, " (sizes: ");
        let joined_sizes = join_texts(&parts, ", ");
        append_text(&mut s, joined_sizes.as_str());
        append_text(&mut s, ")");
    }
    Some(s)
}

/// A count the evidence may omit, zero when absent.
fn count_or_zero(n: Option<u64>) -> (r: u64)
    ensures
        r as nat == or_zero(n),
{
    match n {
        Some(v) => v,
        None => 0,
    }
}

/// The coverage line of a run, when its evidence carries a coverage report.
pub fn coverage_line(counts: &EvidenceCounts) -> (r: Option<String>)
    ensures
        match coverage_words(*counts) {
            Some(w) => r matches Some(s) && s@ == w,
            None => r is None,
        },
{
    let total = match counts.total {
        Some(t) => t,
        None => {
            return None;
        },
    };
    let mut s = decimal_string(total);
    append_text(&mut s, " requirements: ");
    append_number(&mut s, count_or_zero(counts.covered));
    append_text(&mut s, " covered, ");
    append_number(&mut s, counts.uncovered);
    append_text(&mut s, " uncovered · ");
    append_number(&mut s, count_or_zero(counts.satisfied));
    append_text(&mut s, " satisfy, ");
    append_number(&mut s, count_or_zero(counts.refined));
    append_text(&mut s, " refine, ");
    append_number(&mut s, count_or_zero(counts.verified));
    append_text(&mut s, " verify, ");
    append_number(&mut s, count_or_zero(counts.allocated));
    append_text(&mut s, " allocate");
    Some(s)
}

/// What the run-detail page reads out of a run's evidence. The recorded evidence is the
/// authority: the page shows what the run reported and recomputes nothing.
pub struct GateEvidence {
    /// The stored text, when it is not JSON: the page shows it as it is rather than as an
    /// empty report.
    pub unparsable: Option<String>,
    pub roundtrip_equal: bool,
    pub missing_elements: Vec<String>,
    pub extra_elements: Vec<String>,
    pub missing_edges: Vec<String>,
    pub extra_edges: Vec<String>,
    pub changed_attributes: Vec<String>,
    pub isolated: Vec<String>,
    pub uncovered: Vec<String>,
    pub validation_errors: Vec<String>,
    pub validation_warnings: Vec<String>,
    pub failures: Vec<String>,
    pub counts: EvidenceCounts,
}

/// The field `field` of the section `section` of an evidence record.
pub open spec fn section_field(e: Option<JsonView>, section: Seq<char>, field: Seq<char>) -> Option<JsonView> {
    member_in(member_in(e, section), field)
}

/// The field `field` of a section of a parsed record that may be absent.
fn field_at<'a>(e: Option<&'a JsonValue>, section: &str, field: &str) -> (r: Option<&'a JsonValue>)
    ensures
        opt_view(r) == section_field(opt_view(e), section@, field@),
{
    member_at(member_at(e, section), field)
}

/// Read a run's evidence as the run-detail page shows it: each list, count and flag is the
/// field of that name in the stored JSON, empty or absent when the record does not carry it,
/// and the stored text itself when it is not JSON at all.
pub fn gate_evidence(run: &GateRun) -> (r: GateEvidence)
    ensures
        ({
            let e = json_of(run.evidence@);
            &&& (r.unparsable matches Some(t) ==> e is None && t@ == run.evidence@)
            &&& (e is None ==> r.unparsable is Some)
            &&& r.roundtrip_equal == flag_in(section_field(e, "roundtrip"@, "equal"@))
            &&& texts(r.missing_elements@) == texts_in(section_field(e, "roundtrip"@, "missingElements"@))
            &&& texts(r.extra_elements@) == texts_in(section_field(e, "roundtrip"@, "extraElements"@))
            &&& texts(r.missing_edges@) == texts_in(section_field(e, "roundtrip"@, "missingEdges"@))
            &&& texts(r.extra_edges@) == texts_in(section_field(e, "roundtrip"@, "extraEdges"@))
            &&& texts(r.changed_attributes@) == texts_in(section_field(e, "roundtrip"@, "changedAttributes"@))
            &&& texts(r.isolated@) == texts_in(section_field(e, "integration"@, "isolated"@))
            &&& texts(r.uncovered@) == texts_in(section_field(e, "coverage"@, "uncovered"@))
            &&& texts(r.validation_errors@) == texts_in(member_in(e, "validationErrors"@))
            &&& texts(r.validation_warnings@) == texts_in(member_in(e, "validationWarnings"@))
            &&& texts(r.failures@) == texts_in(member_in(e, "failures"@))
            &&& r.counts.component_count == count_in(section_field(e, "integration"@, "componentCount"@))
            &&& r.counts.component_sizes@ == numbers_in(section_field(e, "integration"@, "componentSizes"@))
            &&& r.counts.total == count_in(section_field(e, "coverage"@, "total"@))
            &&& r.counts.covered == count_in(section_field(e, "coverage"@, "covered"@))
            &&& r.counts.uncovered == texts_in(section_field(e, "coverage"@, "uncovered"@)).len()
            &&& r.counts.satisfied == count_in(section_field(e, "coverage"@, "satisfied"@))
            &&& r.counts.refined == count_in(section_field(e, "coverage"@, "refined"@))
            &&& r.counts.verified == count_in(section_field(e, "coverage"@, "verified"@))
            &&& r.counts.allocated == count_in(section_field(e, "coverage"@, "allocated"@))
        }),
{
    let parsed = parse_json(run.evidence.as_str());
    let unparsable = match &parsed {
        Some(_) => None,
        None => Some(run.evidence.clone()),
    };
    let e: Option<&JsonValue> = match &parsed {
        Some(v) => Some(v),
        None => None,
    };
    proof {
        assert(opt_view(e) == json_of(run.evidence@));
    }
    let uncovered = texts_at(field_at(e, "coverage", "uncovered"));
    proof {
        assert(texts(uncovered@).len() == uncovered@.len());
    }
    let counts = EvidenceCounts {
        component_count: count_at(field_at(e, "integration", "componentCount")),
        component_sizes: numbers_at(field_at(e, "integration", "componentSizes")),
        total: count_at(field_at(e, "coverage", "total")),
        covered: count_at(field_at(e, "coverage", "covered")),
        uncovered: uncovered.len() as u64,
        satisfied: count_at(field_at(e, "coverage", "satisfied")),
        refined: count_at(field_at(e, "coverage", "refined")),
        verified: count_at(field_at(e, "coverage", "verified")),
        allocated: count_at(field_at(e, "coverage", "allocated")),
    };
    GateEvidence {
        unparsable,
        roundtrip_equal: flag_at(field_at(e, "roundtrip", "equal")),
        missing_elements: texts_at(field_at(e, "roundtrip", "missingElements")),
        extra_elements: texts_at(field_at(e, "roundtrip", "extraElements")),
        missing_edges: texts_at(field_at(e, "roundtrip", "missingEdges")),
        extra_edges: texts_at(field_at(e, "roundtrip", "extraEdges")),
        changed_attributes: texts_at(field_at(e, "roundtrip", "changedAttributes")),
        isolated: texts_at(field_at(e, "integration", "isolated")),
        uncovered,
        validation_errors: texts_at(member_at(e, "validationErrors")),
        validation_warnings: texts_at(member_at(e, "validationWarnings")),
        failures: texts_at(member_at(e, "failures")),
        counts,
    }
}

} // verus!
