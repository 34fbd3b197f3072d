use workbench::composition::{process_layers, ProcessLayer};
use workbench::scope::{Graph, GraphEdge, GraphNode};
use workbench::sections::Requirement;

fn activity(id: &str, name: &str) -> GraphNode {
    GraphNode { id: id.to_string(), name: name.to_string(), kind: "activity".to_string() }
}

fn block(id: &str) -> GraphNode {
    GraphNode { id: id.to_string(), name: id.to_uppercase(), kind: "block".to_string() }
}

fn edge(source: &str, target: &str, kind: &str, label: &str) -> GraphEdge {
    GraphEdge { source: source.to_string(), target: target.to_string(), kind: kind.to_string(), label: label.to_string() }
}

fn requirement(id: &str, req_id: &str, name: &str) -> Requirement {
    Requirement { id: id.to_string(), req_id: req_id.to_string(), name: name.to_string(), req_text: String::new() }
}

fn layer_ids(layers: &[ProcessLayer]) -> Vec<Vec<&str>> {
    layers.iter().map(|l| l.steps.iter().map(|s| s.id.as_str()).collect()).collect()
}

#[test]
fn no_graph_lays_out_nothing() {
    let (layers, cycle) = process_layers(&None, &Vec::new(), &Vec::new());
    assert!(layers.is_empty());
    assert!(!cycle);
}

#[test]
fn diamond_puts_parallel_branches_side_by_side() {
    let graph = Graph {
        nodes: vec![activity("a", "Receive"), block("sys"), activity("b", "Check"), activity("c", "Pack"), activity("d", "Ship")],
        edges: vec![
            edge("a", "b", "include", ""),
            edge("a", "c", "triggers", ""),
            edge("b", "d", "include", ""),
            edge("c", "d", "include", ""),
            edge("sys", "a", "include", ""),
        ],
    };
    let (layers, cycle) = process_layers(&Some(graph), &Vec::new(), &Vec::new());
    assert_eq!(layer_ids(&layers), vec![vec!["a"], vec!["b", "c"], vec!["d"]]);
    assert!(!cycle);
    assert_eq!(layers[1].steps[1].name, "Pack");
}

#[test]
fn unordered_steps_share_the_first_layer_in_model_order() {
    let graph = Graph { nodes: vec![activity("z", "Z"), activity("y", "Y")], edges: vec![] };
    let (layers, cycle) = process_layers(&Some(graph), &Vec::new(), &Vec::new());
    assert_eq!(layer_ids(&layers), vec![vec!["z", "y"]]);
    assert!(!cycle);
}

#[test]
fn cycle_is_reported_and_its_steps_come_last() {
    let graph = Graph {
        nodes: vec![activity("x", "X"), activity("y", "Y"), activity("s", "Start"), activity("t", "Then")],
        edges: vec![edge("x", "y", "include", ""), edge("y", "x", "triggers", ""), edge("s", "t", "include", "")],
    };
    let (layers, cycle) = process_layers(&Some(graph), &Vec::new(), &Vec::new());
    assert!(cycle);
    assert_eq!(layer_ids(&layers), vec![vec!["s"], vec!["t"], vec!["x", "y"]]);
}

#[test]
fn steps_wait_on_their_deepest_predecessor() {
    // a -> b -> c and a -> c: c sits below b, not beside it.
    let graph = Graph {
        nodes: vec![activity("a", "A"), activity("b", "B"), activity("c", "C")],
        edges: vec![edge("a", "c", "include", ""), edge("a", "b", "include", ""), edge("b", "c", "include", "")],
    };
    let (layers, cycle) = process_layers(&Some(graph), &Vec::new(), &Vec::new());
    assert_eq!(layer_ids(&layers), vec![vec!["a"], vec!["b"], vec!["c"]]);
    assert!(!cycle);
}

#[test]
fn release_follows_the_queue_not_the_depth() {
    // r1 and r2 are ready first; r1 releases m, r2 releases q; m then releases n.
    let graph = Graph {
        nodes: vec![activity("r1", ""), activity("r2", ""), activity("m", ""), activity("q", ""), activity("n", "")],
        edges: vec![edge("r1", "m", "include", ""), edge("r2", "q", "include", ""), edge("m", "n", "include", "")],
    };
    let (layers, _) = process_layers(&Some(graph), &Vec::new(), &Vec::new());
    assert_eq!(layer_ids(&layers), vec![vec!["r1", "r2"], vec!["m", "q"], vec!["n"]]);
}

#[test]
fn only_include_and_triggers_between_activities_order_steps() {
    let graph = Graph {
        nodes: vec![activity("a", "A"), activity("b", "B"), block("k")],
        edges: vec![edge("a", "b", "flow", ""), edge("k", "b", "include", ""), edge("b", "ghost", "include", "")],
    };
    let (layers, cycle) = process_layers(&Some(graph), &Vec::new(), &Vec::new());
    assert_eq!(layer_ids(&layers), vec![vec!["a", "b"]]);
    assert!(!cycle);
}

#[test]
fn roles_and_satisfied_requirements_are_attached() {
    let graph = Graph {
        nodes: vec![activity("a", "Assemble"), activity("b", "Test")],
        edges: vec![
            edge("a", "b", "include", ""),
            edge("b", "r1", "dependency", "Satisfy"),
            edge("b", "r2", "dependency", "Satisfy"),
            edge("b", "r1", "dependency", "Refine"),
            edge("b", "missing", "dependency", "Satisfy"),
        ],
    };
    let reqs = vec![requirement("r1", "REQ-1", "Safe"), requirement("r2", "REQ-2", "Fast"), requirement("r1", "REQ-1b", "Safer")];
    let roles = vec![
        ("a".to_string(), "Operator".to_string()),
        ("b".to_string(), "Tester".to_string()),
        ("a".to_string(), "Fitter".to_string()),
    ];
    let (layers, _) = process_layers(&Some(graph), &reqs, &roles);
    let a = &layers[0].steps[0];
    let b = &layers[1].steps[0];
    assert_eq!(a.allocated_to.as_deref(), Some("Fitter"));
    assert!(a.satisfies.is_empty());
    assert_eq!(b.allocated_to.as_deref(), Some("Tester"));
    let sat: Vec<(&str, &str)> = b.satisfies.iter().map(|r| (r.req_id.as_str(), r.name.as_str())).collect();
    assert_eq!(sat, vec![("REQ-1b", "Safer"), ("REQ-2", "Fast")]);
}

#[test]
fn a_step_without_a_role_has_none() {
    let graph = Graph { nodes: vec![activity("a", "A")], edges: vec![] };
    let roles = vec![("other".to_string(), "Lead".to_string())];
    let (layers, _) = process_layers(&Some(graph), &Vec::new(), &roles);
    assert_eq!(layers[0].steps[0].allocated_to, None);
}

#[test]
fn a_step_no_cycle_reaches_follows_its_waits_even_beside_a_cycle() {
    let graph = Graph {
        nodes: vec![activity("a", "A"), activity("b", "B"), activity("c", "C"), activity("d", "D"), activity("e", "E")],
        edges: vec![
            edge("a", "b", "include", ""),
            edge("c", "d", "include", ""),
            edge("d", "c", "triggers", ""),
            edge("d", "e", "include", ""),
        ],
    };
    let (layers, cycle) = process_layers(&Some(graph), &Vec::new(), &Vec::new());
    assert!(cycle);
    assert!(layers.iter().all(|l| !l.steps.is_empty()));
    let ids = layer_ids(&layers);
    let layer_of = |id: &str| ids.iter().position(|l| l.contains(&id)).unwrap();
    assert!(layer_of("a") < layer_of("b"));
    assert_eq!(ids.last().unwrap(), &vec!["c", "d", "e"]);
}
