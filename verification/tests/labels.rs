use workbench::labels::{display_name, hop_label, proposal_confidence_chip};
use workbench::labels::{gap_phrases, GapCounts};
use workbench::health::name_for;
use workbench::health::dangling_links;
use workbench::health::isolated_groups;
use workbench::assist::{offers_request, LiveBackend, ReasonerStatus};
use workbench::scope::GraphEdge;
use workbench::kinds::{distinct_kinds, elements_in_picker_order};
use workbench::labels::{
    action_label, confidence_label, coverage_chip, named_count, state_label, verdict_label, Confidence, MappingVerdict,
    ProposedAction,
};
use workbench::scope::{Graph, GraphNode};

fn node(id: &str, name: &str, kind: &str) -> GraphNode {
    GraphNode { id: id.to_string(), name: name.to_string(), kind: kind.to_string() }
}

#[test]
fn verdicts_confidences_and_actions_have_words() {
    assert_eq!(verdict_label(MappingVerdict::Exact), "exact");
    assert_eq!(verdict_label(MappingVerdict::Lossy), "lossy");
    assert_eq!(verdict_label(MappingVerdict::Unmappable), "unmappable");
    assert_eq!(confidence_label(Confidence::High), "high confidence");
    assert_eq!(confidence_label(Confidence::Medium), "medium confidence");
    assert_eq!(confidence_label(Confidence::Low), "low confidence");
    assert_eq!(action_label(ProposedAction::EditElement), "EditElement");
    assert_eq!(action_label(ProposedAction::DraftText), "DraftText");
    assert_eq!(action_label(ProposedAction::AcceptLoss), "AcceptLoss");
    assert_eq!(action_label(ProposedAction::Reject), "Reject");
    assert_eq!(action_label(ProposedAction::NoAction), "NoAction");
}

#[test]
fn coverage_chips_always_carry_a_word() {
    assert_eq!(coverage_chip("covered"), ("covered", "Requirement coverage: covered by at least one link", "covered"));
    assert_eq!(coverage_chip("uncovered").2, "uncovered");
    assert_eq!(coverage_chip("unknown"), ("mw-badge-unknown", "Requirement coverage: could not be reported", "not reported"));
}

#[test]
fn a_state_reads_by_name_or_falls_back_to_its_id() {
    let nodes = vec![node("s1", "Idle", "state"), node("s2", "", "state"), node("s1", "Ready", "state")];
    assert_eq!(state_label(&"s1".to_string(), &nodes), "Ready");
    assert_eq!(state_label(&"s2".to_string(), &nodes), "s2");
    assert_eq!(state_label(&"s9".to_string(), &nodes), "s9");
}

#[test]
fn counts_are_named_with_the_right_plural() {
    assert_eq!(named_count(1, "orphan", "orphans"), "1 orphan");
    assert_eq!(named_count(10, "uncovered requirement", "uncovered requirements"), "10 uncovered requirements");
    assert_eq!(named_count(0, "cycle", "cycles"), "0 cycles");
}

#[test]
fn kinds_are_counted_in_filter_bar_order() {
    let graph = Graph {
        nodes: vec![
            node("a", "A", "zeta"),
            node("b", "B", "requirement"),
            node("c", "C", "block"),
            node("d", "D", "requirement"),
            node("e", "E", "alpha"),
        ],
        edges: vec![],
    };
    let kinds = distinct_kinds(&graph);
    let got: Vec<(&str, usize)> = kinds.iter().map(|(k, n)| (k.as_str(), *n)).collect();
    assert_eq!(got, vec![("block", 1), ("requirement", 2), ("alpha", 1), ("zeta", 1)]);
}

#[test]
fn the_picker_groups_by_kind_then_name_then_id() {
    let graph = Graph {
        nodes: vec![
            node("r2", "Speed", "requirement"),
            node("b2", "Pump", "block"),
            node("x", "Thing", "other"),
            node("b1", "Pump", "block"),
            node("r1", "Brake", "requirement"),
            node("a", "Alpha", "block"),
        ],
        edges: vec![],
    };
    let order = elements_in_picker_order(&graph);
    let ids: Vec<&str> = order.iter().map(|i| graph.nodes[*i].id.as_str()).collect();
    assert_eq!(ids, vec!["a", "b1", "b2", "r1", "r2", "x"]);
}

#[test]
fn a_name_comes_from_the_graph_first_then_the_first_list_that_names_the_id() {
    let nodes = vec![node("b1", "Pump", "block"), node("b1", "Pump v2", "block")];
    let others = vec![
        ("b1".to_string(), "Structure pump".to_string()),
        ("r1".to_string(), "Brake".to_string()),
        ("r1".to_string(), "Later brake".to_string()),
    ];
    assert_eq!(name_for(&"b1".to_string(), &nodes, &others), Some("Pump v2".to_string()));
    assert_eq!(name_for(&"r1".to_string(), &nodes, &others), Some("Brake".to_string()));
    assert_eq!(name_for(&"zz".to_string(), &nodes, &others), None);
}

#[test]
fn dangling_links_are_listed_in_a_stable_order() {
    let edge = |s: &str, t: &str, k: &str, l: &str| GraphEdge {
        source: s.to_string(),
        target: t.to_string(),
        kind: k.to_string(),
        label: l.to_string(),
    };
    let nodes = vec![node("a", "A", "block"), node("b", "B", "block")];
    let edges = vec![
        edge("b", "zz", "flow", ""),
        edge("a", "b", "flow", ""),
        edge("a", "yy", "part", ""),
        edge("a", "yy", "flow", "x"),
        edge("ghost", "a", "flow", ""),
    ];
    let list = dangling_links(&nodes, &edges);
    let got: Vec<(&str, &str, &str)> = list.iter().map(|u| (u.source.as_str(), u.target.as_str(), u.kind.as_str())).collect();
    assert_eq!(got, vec![("a", "yy", "flow"), ("a", "yy", "part"), ("b", "zz", "flow"), ("ghost", "a", "flow")]);
    assert!(list[3].source_missing && !list[3].target_missing);
}

#[test]
fn a_card_names_only_the_gaps_a_model_has() {
    let none = GapCounts { orphaned: 0, isolated_groups: 0, isolated_group_nodes: 0, dangling: 0, uncovered: 0 };
    assert!(gap_phrases(&none).is_empty());
    let some = GapCounts { orphaned: 1, isolated_groups: 2, isolated_group_nodes: 5, dangling: 0, uncovered: 10 };
    assert_eq!(
        gap_phrases(&some),
        vec!["1 orphan".to_string(), "2 isolated groups (5 nodes)".to_string(), "10 uncovered requirements".to_string()]
    );
    let one = GapCounts { orphaned: 0, isolated_groups: 1, isolated_group_nodes: 1, dangling: 3, uncovered: 0 };
    assert_eq!(gap_phrases(&one), vec!["1 isolated group (1 node)".to_string(), "3 dangling links".to_string()]);
}

#[test]
fn nodes_read_by_name_and_radii_by_count() {
    assert_eq!(display_name(&node("b1", "Pump", "block")), "Pump");
    assert_eq!(display_name(&node("b1", "", "block")), "b1");
    assert_eq!(hop_label(1), "1 relationship");
    assert_eq!(hop_label(3), "3 relationships");
}

fn group(ids: &[&str]) -> Vec<String> {
    ids.iter().map(|id| id.to_string()).collect()
}

#[test]
fn isolated_groups_skip_the_main_body_and_singletons() {
    let components = vec![
        group(&["a", "b", "c", "d"]),
        group(&["e", "f"]),
        group(&["g"]),
        group(&["h", "i", "j"]),
    ];
    assert_eq!(isolated_groups(&components), vec![group(&["e", "f"]), group(&["h", "i", "j"])]);
    assert_eq!(isolated_groups(&vec![group(&["a", "b"])]), Vec::<Vec<String>>::new());
    assert_eq!(isolated_groups(&Vec::new()), Vec::<Vec<String>>::new());
}

#[test]
fn a_low_confidence_proposal_is_marked_for_attention() {
    assert_eq!(proposal_confidence_chip(Confidence::Low), ("low-confidence", "low confidence"));
    assert_eq!(proposal_confidence_chip(Confidence::High), ("confidence", "high confidence"));
    assert_eq!(proposal_confidence_chip(Confidence::Medium), ("confidence", "medium confidence"));
}

#[test]
fn the_request_box_is_offered_only_when_a_reasoner_answers() {
    assert!(!offers_request(&ReasonerStatus::NotConfigured));
    assert!(!offers_request(&ReasonerStatus::UnknownMode("fast".to_string())));
    assert!(offers_request(&ReasonerStatus::Scripted));
    assert!(offers_request(&ReasonerStatus::Live(LiveBackend::OpenAi)));
    assert!(offers_request(&ReasonerStatus::Live(LiveBackend::Anthropic)));
}
