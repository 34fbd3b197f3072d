use workbench::gate::{components_line, coverage_line, EvidenceCounts};
use workbench::compare::{
    group_phrase, join_ids, section_of, side_label, state_chip_class, state_chip_text, summary_line,
    ImpactRequirement, ImpactState,
};
use workbench::proposals::{decision_text, ProposalDecision, ProposalRecord};
use workbench::gate::{evidence_file_name, GateRun};

fn ids(v: &[&str]) -> Vec<String> {
    v.iter().map(|s| s.to_string()).collect()
}

fn row(id: &str, state: ImpactState) -> ImpactRequirement {
    ImpactRequirement { req_id: id.to_string(), name: String::new(), state }
}

#[test]
fn a_diff_key_names_its_section_before_the_first_colon() {
    assert_eq!(section_of("structure:blk-1:name"), "structure");
    assert_eq!(section_of("malformed"), "");
    assert_eq!(section_of(":x"), "");
}

#[test]
fn ids_are_joined_for_a_sentence() {
    assert_eq!(join_ids(&ids(&[])), "");
    assert_eq!(join_ids(&ids(&["CS-1"])), "CS-1");
    assert_eq!(join_ids(&ids(&["CS-1", "CS-2"])), "CS-1 and CS-2");
    assert_eq!(join_ids(&ids(&["CS-1", "CS-2", "CS-3"])), "CS-1, CS-2 and CS-3");
}

#[test]
fn subject_and_verb_agree() {
    assert_eq!(group_phrase(&ids(&["CS-1"]), "ok"), "Requirement CS-1 is ok");
    assert_eq!(group_phrase(&ids(&["CS-1", "CS-2"]), "ok"), "Requirements CS-1 and CS-2 are ok");
}

#[test]
fn the_summary_has_one_clause_per_state_in_order() {
    let rows = vec![
        row("R3", ImpactState::Neither),
        row("R1", ImpactState::Both),
        row("R2", ImpactState::ToOnly),
        row("R4", ImpactState::Both),
    ];
    assert_eq!(
        summary_line(&rows, "main", "variant"),
        "Requirements R1 and R4 are satisfied in both versions; Requirement R2 is satisfied only in variant; Requirement R3 is satisfied in neither version."
    );
    assert_eq!(summary_line(&Vec::new(), "a", "b"), "No platform requirements to compare.");
}

#[test]
fn the_chips_name_the_state() {
    assert_eq!(state_chip_class(ImpactState::Both), "impact-state covered");
    assert_eq!(state_chip_class(ImpactState::FromOnly), "impact-state impact-partial");
    assert_eq!(state_chip_text(ImpactState::FromOnly, "main", "v2"), "main only");
    assert_eq!(state_chip_text(ImpactState::Neither, "main", "v2"), "neither");
    assert_eq!(ImpactState::ToOnly.data(), "to");
}

#[test]
fn a_side_is_labelled_by_its_branch_or_its_short_hash() {
    assert_eq!(side_label("main", "0123456789abcdef"), "main");
    assert_eq!(side_label("0123456789abcdef", "0123456789abcdef"), "01234567");
    assert_eq!(side_label("abc", "abc"), "abc");
}

#[test]
fn a_decision_names_who_made_it() {
    let open = ProposalRecord { decision: None, decided_by: String::new() };
    assert_eq!(decision_text(&open), "open");
    let accepted = ProposalRecord { decision: Some(ProposalDecision::Accepted), decided_by: "ada".to_string() };
    assert_eq!(decision_text(&accepted), "accepted by ada");
    let refused = ProposalRecord { decision: Some(ProposalDecision::Refused), decided_by: "bob".to_string() };
    assert_eq!(decision_text(&refused), "refused by bob");
}

#[test]
fn the_evidence_file_names_both_commits() {
    let run = GateRun { reference_hash: "r1".to_string(), candidate_hash: "c2".to_string(), evidence: String::new() };
    assert_eq!(evidence_file_name(&run), "server-r1-c2.json");
}

fn counts(component_count: Option<u64>, sizes: &[u64], total: Option<u64>) -> EvidenceCounts {
    EvidenceCounts {
        component_count,
        component_sizes: sizes.to_vec(),
        total,
        covered: Some(7),
        uncovered: 3,
        satisfied: Some(5),
        refined: None,
        verified: Some(1),
        allocated: Some(1),
    }
}

#[test]
fn the_evidence_lines_say_what_was_measured() {
    assert_eq!(components_line(&counts(None, &[], None)), None);
    assert_eq!(components_line(&counts(Some(1), &[], None)), Some("1 connected component".to_string()));
    assert_eq!(components_line(&counts(Some(3), &[12, 2, 1], None)), Some("3 connected components (sizes: 12, 2, 1)".to_string()));
    assert_eq!(coverage_line(&counts(None, &[], None)), None);
    assert_eq!(
        coverage_line(&counts(None, &[], Some(10))),
        Some("10 requirements: 7 covered, 3 uncovered · 5 satisfy, 0 refine, 1 verify, 1 allocate".to_string())
    );
}
