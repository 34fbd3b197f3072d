use workbench::branches::containment_roots;
use workbench::diagram::{
    arrow_group, edge_draw_order, edge_group, kind_label, kind_sort_key, resolve_view, DiagramScope, DiagramView, Focus,
    ScopeError,
};
use workbench::export::{caption, export_file_name, provenance_line, provenance_preface, standalone_document, DiagramSource};
use workbench::scope::{Graph, GraphEdge, GraphNode, ScopedGraph};

fn node(id: &str, name: &str, kind: &str) -> GraphNode {
    GraphNode { id: id.to_string(), name: name.to_string(), kind: kind.to_string() }
}

fn edge(source: &str, target: &str, kind: &str) -> GraphEdge {
    GraphEdge { source: source.to_string(), target: target.to_string(), kind: kind.to_string(), label: String::new() }
}

/// A small plant: a system containing a pump and a tank, a requirement, and a chain of
/// relationships, plus one edge whose target the model does not define.
fn plant() -> Graph {
    Graph {
        nodes: vec![
            node("sys", "Plant", "block"),
            node("pump", "Pump", "block"),
            node("tank", "", "block"),
            node("r1", "Flow", "requirement"),
            node("valve", "Valve", "block"),
        ],
        edges: vec![
            edge("sys", "pump", "part"),
            edge("sys", "tank", "contains"),
            edge("pump", "r1", "dependency"),
            edge("tank", "valve", "flow"),
            edge("valve", "ghost", "dependency"),
            edge("r1", "r1", "dependency"),
        ],
    }
}

fn ids(sg: &ScopedGraph) -> Vec<&str> {
    sg.graph.nodes.iter().map(|n| n.id.as_str()).collect()
}

#[test]
fn the_whole_model_is_drawn_untouched() {
    let g = plant();
    let sg = DiagramScope::Full.apply(&g).ok().unwrap();
    assert_eq!(sg.elements, 5);
    assert_eq!(sg.relationships, 6, "even the unresolved edge is kept");
    assert!(sg.is_full());
    assert_eq!(sg.label(), "the whole model");
    assert_eq!(sg.counts(), "5/5 elements, 6/6 relationships");
}

#[test]
fn a_kind_scope_keeps_those_kinds_and_the_edges_among_them() {
    let g = plant();
    let sg = DiagramScope::Kinds(vec!["block".to_string()]).apply(&g).ok().unwrap();
    assert_eq!(ids(&sg), vec!["sys", "pump", "tank", "valve"]);
    assert_eq!(sg.relationships, 3);
    assert_eq!(sg.label(), "only block elements");
    assert_eq!(sg.counts(), "4/5 elements, 3/6 relationships");
    let err = DiagramScope::Kinds(vec!["block".to_string(), "actor".to_string()]).apply(&g);
    assert!(matches!(err, Err(ScopeError::NoSuchKind(k)) if k == "actor"));
}

#[test]
fn a_neighbourhood_walks_relationships_both_ways_up_to_three() {
    let g = plant();
    let one = DiagramScope::Neighbourhood { element: "pump".to_string(), hops: 1 }.apply(&g).ok().unwrap();
    assert_eq!(ids(&one), vec!["sys", "pump", "r1"]);
    assert_eq!(one.label(), "Pump (pump) and everything within 1 relationship");
    let two = DiagramScope::Neighbourhood { element: "pump".to_string(), hops: 2 }.apply(&g).ok().unwrap();
    assert_eq!(ids(&two), vec!["sys", "pump", "tank", "r1"]);
    let many = DiagramScope::Neighbourhood { element: "pump".to_string(), hops: 9 }.apply(&g).ok().unwrap();
    assert_eq!(ids(&many), vec!["sys", "pump", "tank", "r1", "valve"]);
    assert_eq!(many.relationships, 5, "the unresolved edge has one end outside the scope");
    let unknown = DiagramScope::Neighbourhood { element: "nope".to_string(), hops: 1 }.apply(&g);
    assert!(matches!(unknown, Err(ScopeError::UnknownElement(e)) if e == "nope"));
}

#[test]
fn a_containment_scope_draws_the_descendants() {
    let g = plant();
    let sg = DiagramScope::Containment { element: "sys".to_string() }.apply(&g).ok().unwrap();
    assert_eq!(ids(&sg), vec!["sys", "pump", "tank"]);
    assert_eq!(sg.label(), "Plant (sys) and its containment descendants");
    let leaf = DiagramScope::Containment { element: "tank".to_string() }.apply(&g).ok().unwrap();
    assert_eq!(ids(&leaf), vec!["tank"]);
    assert_eq!(leaf.focus_label(), "tank", "a nameless element is named by its id");
}

#[test]
fn a_scope_has_one_token_and_one_address() {
    assert_eq!(DiagramScope::Full.as_str(), "full");
    assert_eq!(DiagramScope::Kinds(vec!["block".to_string(), "requirement".to_string()]).as_str(), "kinds:block,requirement");
    let n = DiagramScope::Neighbourhood { element: "a b".to_string(), hops: 2 };
    assert_eq!(n.as_str(), "neighbourhood:a b:2");
    assert_eq!(n.query(), "scope=neighbourhood&element=a%20b&hops=2");
    assert_eq!(DiagramScope::Containment { element: "x".to_string() }.query(), "scope=containment&element=x");
    assert_eq!(DiagramScope::Full.query(), "scope=full");
}

#[test]
fn scope_errors_say_what_is_missing() {
    assert_eq!(ScopeError::UnknownElement("b1".to_string()).message(), "this model has no element b1");
    assert_eq!(ScopeError::NoSuchKind("actor".to_string()).message(), "this model has no actor elements");
}

#[test]
fn a_focus_shows_its_id_only_when_it_differs() {
    assert_eq!(Focus { name: "x".to_string(), id: "x".to_string() }.label(), "x");
    assert_eq!(Focus { name: "Pump".to_string(), id: "p".to_string() }.label(), "Pump (p)");
}

#[test]
fn the_view_falls_back_to_structure() {
    assert!(resolve_view(true, true, Some("control")) == DiagramView::Control);
    assert!(resolve_view(true, false, Some("control")) == DiagramView::Structure);
    assert!(resolve_view(true, false, Some("process")) == DiagramView::Process);
    assert!(resolve_view(true, true, None) == DiagramView::Structure);
    assert_eq!(DiagramView::Process.as_str(), "process");
    assert_eq!(DiagramView::Control.label(), "Control");
}

#[test]
fn kinds_have_labels_and_a_filter_order() {
    assert_eq!(kind_label("stateMachine"), "state machine");
    assert_eq!(kind_label("usecase"), "use case");
    assert_eq!(kind_label("widget"), "widget");
    assert_eq!(kind_sort_key("block").0, 0);
    assert_eq!(kind_sort_key("usecase").0, 8);
    assert_eq!(kind_sort_key("widget"), (9, "widget".to_string()));
}

#[test]
fn edges_are_grouped_by_kind() {
    assert_eq!(edge_group("part"), "containment");
    assert_eq!(edge_group("dependency"), "dependency");
    assert_eq!(edge_group("transition"), "flow");
    assert_eq!(edge_group("other"), "neutral");
    assert_eq!(arrow_group("dependency"), "accent");
    assert_eq!(arrow_group("flow"), "flow");
    assert_eq!(arrow_group("neutral"), "neutral");
}

#[test]
fn an_export_states_its_provenance() {
    let source = DiagramSource {
        project: "plant".to_string(),
        commit_hash: "abc123".to_string(),
        branch: "main".to_string(),
        view: DiagramView::Structure,
    };
    assert_eq!(
        provenance_line(&source),
        "project=plant commit=abc123 branch=main diagram=structure renderer=mw-diagram-svg/0.1.0"
    );
    assert_eq!(caption(&source), "plant · commit abc123 · Structure · mw-diagram-svg/0.1.0");
    let doc = standalone_document(&source, "<svg/>");
    assert!(doc.starts_with("<?xml version=\"1.0\" encoding=\"UTF-8\"?>\n<!-- modelwrite-provenance: project=plant"));
    assert!(doc.ends_with("<svg/>\n"));
    assert_eq!(export_file_name("my plant", "abc", DiagramView::Process), "modelwrite-my_plant-abc-process.svg");
    let preface = provenance_preface(&source, "svg{}");
    assert!(preface.contains("project=\"plant\""));
    assert!(preface.ends_with("<style>svg{}</style>"));
}

#[test]
fn a_hostile_name_cannot_break_the_comment() {
    let source = DiagramSource {
        project: "a--b\nc".to_string(),
        commit_hash: "h".to_string(),
        branch: "x".to_string(),
        view: DiagramView::Structure,
    };
    let doc = standalone_document(&source, "");
    let comment = doc.lines().nth(1).unwrap();
    assert!(comment.starts_with("<!-- modelwrite-provenance: project=a- -b c"));
}

#[test]
fn containment_roots_list_the_biggest_branch_first() {
    let graph = Graph {
        nodes: vec![
            node("sys", "Plant", "block"),
            node("pump", "Pump", "block"),
            node("tank", "Tank", "block"),
            node("valve", "Valve", "block"),
            node("x", "X", "block"),
            node("y", "Y", "block"),
            node("a", "A", "block"),
            node("b", "B", "block"),
        ],
        edges: vec![
            edge("sys", "pump", "part"),
            edge("sys", "tank", "contains"),
            edge("tank", "valve", "part"),
            edge("x", "y", "part"),
            edge("x", "ghost", "part"),
            edge("a", "b", "part"),
            edge("b", "a", "part"),
            edge("sys", "x", "flow"),
        ],
    };
    let roots = containment_roots(&graph);
    let got: Vec<(&str, usize)> = roots.iter().map(|(id, n)| (id.as_str(), *n)).collect();
    assert_eq!(got, vec![("sys", 3), ("a", 1), ("b", 1), ("tank", 1), ("x", 1)]);
}

#[test]
fn edges_are_drawn_by_source_target_kind_and_label() {
    let mut labelled = edge("a", "b", "dependency");
    labelled.label = "Satisfy".to_string();
    let edges = vec![
        edge("b", "a", "part"),
        labelled,
        edge("a", "b", "dependency"),
        edge("a", "b", "part"),
        edge("b", "a", "part"),
    ];
    assert_eq!(edge_draw_order(&edges), vec![2, 1, 3, 0, 4]);
    assert_eq!(edge_draw_order(&Vec::new()), Vec::<usize>::new());
}
