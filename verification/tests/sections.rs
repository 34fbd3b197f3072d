use workbench::impact::{reference_rows, requirement_rows, SubsystemReference};
use workbench::compare::{edge_display, edge_text, section_diffs, ImpactState};
use workbench::scope::{GraphEdge, GraphNode};
use workbench::sections::{allocations, coverage_status, requirement_text, unresolved_edges, Requirement};

fn req(id: &str, req_id: &str, name: &str, text: &str) -> Requirement {
    Requirement { id: id.to_string(), req_id: req_id.to_string(), name: name.to_string(), req_text: text.to_string() }
}

fn reference(role: &str, project: &str, revision: &str) -> SubsystemReference {
    SubsystemReference { project: project.to_string(), revision: revision.to_string(), role: role.to_string() }
}

fn strings(v: &[&str]) -> Vec<String> {
    v.iter().map(|s| s.to_string()).collect()
}

fn node(id: &str, name: &str) -> GraphNode {
    GraphNode { id: id.to_string(), name: name.to_string(), kind: "block".to_string() }
}

fn edge(source: &str, target: &str, kind: &str, label: &str) -> GraphEdge {
    GraphEdge { source: source.to_string(), target: target.to_string(), kind: kind.to_string(), label: label.to_string() }
}

#[test]
fn requirement_text_joins_name_and_text() {
    assert_eq!(requirement_text(&req("r", "R-1", "Safety", "Shall stop")), "Safety: Shall stop");
    assert_eq!(requirement_text(&req("r", "R-1", "Folder", "")), "Folder");
    assert_eq!(requirement_text(&req("r", "R-1", "", "Only text")), "Only text");
    assert_eq!(requirement_text(&req("r", "R-1", "", "")), "");
}

#[test]
fn coverage_status_reads_the_engines_verdict() {
    let r = req("r1", "R-1", "A", "");
    assert_eq!(coverage_status(&None, &r), "unknown");
    assert_eq!(coverage_status(&Some(strings(&["r1"])), &r), "uncovered");
    assert_eq!(coverage_status(&Some(strings(&["r2"])), &r), "covered");
}

#[test]
fn allocations_follow_the_dependency_edges() {
    let reqs = vec![req("r1", "R-1", "Brake", "")];
    let nodes = vec![node("b", "Brake unit"), node("b", "Brake unit v2")];
    let edges = vec![
        edge("b", "r1", "dependency", "Satisfy"),
        edge("r1", "c", "dependency", "Allocate"),
        edge("b", "r1", "dependency", "Trace"),
        edge("b", "r1", "flow", "Satisfy"),
        edge("b", "r9", "dependency", "Verify"),
    ];
    let list = allocations(&reqs, &nodes, &edges);
    assert_eq!(list.len(), 2);
    assert_eq!(list[0].requirement, "r1");
    assert_eq!(list[0].relation, "satisfy");
    assert_eq!(list[0].element_id, "b");
    assert_eq!(list[0].name, "Brake unit v2");
    assert!(!list[0].unresolved);
    assert_eq!(list[1].relation, "allocate");
    assert_eq!(list[1].element_id, "c");
    assert_eq!(list[1].name, "");
    assert!(list[1].unresolved);
}

#[test]
fn unresolved_edges_name_the_missing_ends() {
    let nodes = vec![node("a", "A"), node("b", "B")];
    let edges = vec![edge("a", "b", "flow", ""), edge("a", "x", "flow", "l"), edge("y", "z", "part", "")];
    let list = unresolved_edges(&nodes, &edges);
    assert_eq!(list.len(), 2);
    assert_eq!((list[0].target.as_str(), list[0].source_missing, list[0].target_missing), ("x", false, true));
    assert_eq!(list[0].label, "l");
    assert_eq!((list[1].source_missing, list[1].target_missing), (true, true));
}

#[test]
fn reference_rows_are_keyed_by_role_in_role_order() {
    let from = vec![reference("power", "psu", "aaa"), reference("cooling", "fan", "111"), reference("power", "psu", "bbb")];
    let to = vec![reference("power", "psu", "bbb"), reference("display", "lcd", "777")];
    let rows = reference_rows(&from, &to);
    let roles: Vec<&str> = rows.iter().map(|r| r.role.as_str()).collect();
    assert_eq!(roles, vec!["cooling", "display", "power"]);
    assert_eq!(rows[0].from, Some(("fan".to_string(), "111".to_string())));
    assert_eq!(rows[0].to, None);
    assert!(rows[0].changed);
    assert!(rows[1].changed);
    assert_eq!(rows[2].from, Some(("psu".to_string(), "bbb".to_string())));
    assert!(!rows[2].changed);
}

#[test]
fn reference_rows_of_two_empty_sides_are_empty() {
    assert!(reference_rows(&Vec::new(), &Vec::new()).is_empty());
}

#[test]
fn requirement_rows_line_up_both_sides_coverage() {
    let from = vec![req("a", "CS-1", "Old name", ""), req("b", "CS-2", "B", ""), req("c", "  ", "C", "")];
    let to = vec![req("a", "CS-1", "New name", ""), req("d", "CS-4", "D", ""), req("b", "CS-2", "B", "")];
    let rows = requirement_rows(&from, &strings(&["b"]), &to, &strings(&["d"]));
    let got: Vec<(&str, &str, ImpactState)> = rows.iter().map(|r| (r.req_id.as_str(), r.name.as_str(), r.state)).collect();
    assert_eq!(
        got,
        vec![
            ("CS-1", "New name", ImpactState::Both),
            ("CS-2", "B", ImpactState::ToOnly),
            ("c", "C", ImpactState::FromOnly),
            ("CS-4", "D", ImpactState::Neither),
        ]
    );
}

#[test]
fn section_diffs_group_keys_by_section() {
    let diffs = section_diffs(&strings(&["structure:b1", "requirements:r1"]), &strings(&["graph:n1"]), &strings(&["odd"]));
    assert_eq!(diffs.len(), 9);
    assert_eq!(diffs[0].name, "Structure");
    assert_eq!(diffs[0].removed, strings(&["structure:b1"]));
    assert_eq!(diffs[3].removed, strings(&["requirements:r1"]));
    assert_eq!(diffs[8].changed, strings(&["odd"]));
}

#[test]
fn edge_keys_read_as_arrows() {
    assert_eq!(edge_display(r#"["a","b","part",""]"#), "a → b [part]");
    assert_eq!(edge_display(r#"["a","b","dependency","Satisfy"]"#), "a → b [dependency Satisfy]");
    assert_eq!(edge_display("not json"), "not json");
    assert_eq!(edge_text(&strings(&["x"])), "x →  []");
}
