use workbench::edit::Element;
use workbench::scope::{Graph, GraphEdge};
use workbench::tree::{structure_tree, TreeEntry};

fn element(id: &str, name: &str) -> Element {
    Element { id: id.to_string(), name: name.to_string(), documentation: String::new(), stereotypes: vec![], attributes: vec![] }
}

fn edge(source: &str, target: &str, kind: &str) -> GraphEdge {
    GraphEdge { source: source.to_string(), target: target.to_string(), kind: kind.to_string(), label: String::new() }
}

fn lines(elements: &[Element], tree: &[TreeEntry]) -> Vec<(String, usize)> {
    tree.iter().map(|t| (elements[t.element].id.clone(), t.depth)).collect()
}

fn expect(v: &[(&str, usize)]) -> Vec<(String, usize)> {
    v.iter().map(|(id, d)| (id.to_string(), *d)).collect()
}

#[test]
fn without_a_graph_every_element_is_top_level_by_name() {
    let elements = vec![element("c", "Gamma"), element("a", "Alpha"), element("b", "Beta")];
    let tree = structure_tree(&elements, &None);
    assert_eq!(lines(&elements, &tree), expect(&[("a", 0), ("b", 0), ("c", 0)]));
}

#[test]
fn a_shared_part_is_drawn_once_under_its_first_parent() {
    let elements = vec![element("sys", "Plant"), element("pump", "Pump"), element("tank", "Tank")];
    let graph = Graph {
        nodes: vec![],
        edges: vec![edge("sys", "tank", "part"), edge("sys", "pump", "contains"), edge("tank", "pump", "part")],
    };
    let tree = structure_tree(&elements, &Some(graph));
    assert_eq!(lines(&elements, &tree), expect(&[("sys", 0), ("pump", 1), ("tank", 1)]));
}

#[test]
fn a_containment_cycle_is_drawn_and_nothing_twice() {
    let elements = vec![element("sys", "Plant"), element("pump", "Pump"), element("a", "A"), element("b", "B")];
    let graph = Graph {
        nodes: vec![],
        edges: vec![edge("sys", "pump", "part"), edge("a", "b", "part"), edge("b", "a", "contains")],
    };
    let tree = structure_tree(&elements, &Some(graph));
    assert_eq!(lines(&elements, &tree), expect(&[("sys", 0), ("pump", 1), ("a", 0), ("b", 1)]));
    assert_eq!(tree.len(), elements.len());
}

#[test]
fn parts_with_the_same_name_keep_edge_order_and_depth_grows() {
    let elements = vec![element("root", "Root"), element("x2", "Wheel"), element("x1", "Wheel"), element("hub", "Hub")];
    let graph = Graph {
        nodes: vec![],
        edges: vec![
            edge("root", "x1", "part"),
            edge("root", "x2", "part"),
            edge("x1", "hub", "part"),
            edge("root", "ghost", "part"),
            edge("root", "hub", "flow"),
        ],
    };
    let tree = structure_tree(&elements, &Some(graph));
    assert_eq!(lines(&elements, &tree), expect(&[("root", 0), ("x1", 1), ("hub", 2), ("x2", 1)]));
}

#[test]
fn an_empty_structure_draws_nothing() {
    let tree = structure_tree(&Vec::new(), &None);
    assert!(tree.is_empty());
}
