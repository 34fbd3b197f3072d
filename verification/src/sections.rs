//! What the model page's requirement and traceability sections read off a model: the text of a
//! requirement, the engine's coverage verdict for it, the elements allocated to it, and the
//! links whose ends the model does not define.

use vstd::prelude::*;
use crate::layout::holds;
use crate::scope::{is_node, GraphEdge, GraphNode};
use crate::text::{append_text, chars_equal, chars_of, texts};

verus! {

/// One requirement of a model.
pub struct Requirement {
    pub id: String,
    pub req_id: String,
    pub name: String,
    pub req_text: String,
}

/// The human-facing text of a requirement. A folder requirement carries only a name, so the
/// name is the text; a leaf requirement carries both, so they are joined.
pub open spec fn requirement_words(r: Requirement) -> Seq<char> {
    if r.name@.len() == 0 && r.req_text@.len() == 0 {
        Seq::empty()
    } else if r.name@.len() == 0 {
        r.req_text@
    } else if r.req_text@.len() == 0 {
        r.name@
    } else {
        r.name@ + ": "@ + r.req_text@
    }
}

pub fn requirement_text(requirement: &Requirement) -> (r: String)
    ensures
        r@ == requirement_words(*requirement),
{
    let no_name = requirement.name.as_str().is_empty();
    let no_text = requirement.req_text.as_str().is_empty();
    if no_name && no_text {
        String::new()
    } else if no_name {
        requirement.req_text.clone()
    } else if no_text {
        requirement.name.clone()
    } else {
        let mut s = requirement.name.clone();
        append_text(&mut s, ": ");
        append_text(&mut s, requirement.req_text.as_str());
        s
    }
}

/// The engine's coverage verdict for one requirement, given the requirements the engine
/// reported uncovered, or nothing when the model carries no graph to measure.
pub open spec fn coverage_word(uncovered: Option<Seq<Seq<char>>>, id: Seq<char>) -> Seq<char> {
    match uncovered {
        Some(ids) => if ids.contains(id) {
            "uncovered"@
        } else {
            "covered"@
        },
        None => "unknown"@,
    }
}

pub fn coverage_status(uncovered: &Option<Vec<String>>, requirement: &Requirement) -> (r: &'static str)
    ensures
        r@ == coverage_word(
            match uncovered {
                Some(v) => Some(texts(v@)),
                None => None,
            },
            requirement.id@,
        ),
{
    match uncovered {
        Some(ids) => if holds(ids, &requirement.id) {
            "uncovered"
        } else {
            "covered"
        },
        None => "unknown",
    }
}

/// One element allocated to a requirement: the relation that allocates it, the element, its
/// name, and whether the element is a graph node at all. An allocation whose element is not a
/// node is recorded as unresolved rather than dropped, so a broken link stays visible.
pub struct Allocation {
    pub requirement: String,
    pub relation: String,
    pub element_id: String,
    pub name: String,
    pub unresolved: bool,
}

/// Whether `id` is a requirement of the model.
pub open spec fn is_requirement(reqs: Seq<Requirement>, id: Seq<char>) -> bool {
    exists|i: int| 0 <= i < reqs.len() && #[trigger] reqs[i].id@ == id
}

/// What a dependency edge allocates: the requirement, the element and the relation, when it
/// allocates anything. Satisfy, Refine and Verify point from the element to the requirement;
/// Allocate is read in either direction, requirement as target first.
pub open spec fn allocation_of(reqs: Seq<Requirement>, e: GraphEdge) -> Option<(Seq<char>, Seq<char>, Seq<char>)> {
    if e.kind@ != "dependency"@ {
        None
    } else if e.label@ == "Satisfy"@ && is_requirement(reqs, e.target@) {
        Some((e.target@, e.source@, "satisfy"@))
    } else if e.label@ == "Refine"@ && is_requirement(reqs, e.target@) {
        Some((e.target@, e.source@, "refine"@))
    } else if e.label@ == "Verify"@ && is_requirement(reqs, e.target@) {
        Some((e.target@, e.source@, "verify"@))
    } else if e.label@ == "Allocate"@ && is_requirement(reqs, e.target@) {
        Some((e.target@, e.source@, "allocate"@))
    } else if e.label@ == "Allocate"@ && is_requirement(reqs, e.source@) {
        Some((e.source@, e.target@, "allocate"@))
    } else {
        None
    }
}

/// The last element with this id: the one an index keyed by id keeps.
pub open spec fn last_node(nodes: Seq<GraphNode>, id: Seq<char>) -> Option<GraphNode>
    decreases nodes.len(),
{
    if nodes.len() == 0 {
        None
    } else if nodes.last().id@ == id {
        Some(nodes.last())
    } else {
        last_node(nodes.drop_last(), id)
    }
}

/// The texts of an allocation: requirement, relation, element, name, and whether unresolved.
pub open spec fn allocation_view(a: Allocation) -> (Seq<char>, Seq<char>, Seq<char>, Seq<char>, bool) {
    (a.requirement@, a.relation@, a.element_id@, a.name@, a.unresolved)
}

/// The allocation an edge makes, as the page lists it.
pub open spec fn listed_allocation(reqs: Seq<Requirement>, nodes: Seq<GraphNode>, e: GraphEdge) -> Option<(Seq<char>, Seq<char>, Seq<char>, Seq<char>, bool)> {
    match allocation_of(reqs, e) {
        Some((req, element, relation)) => Some(
            (
                req,
                relation,
                element,
                match last_node(nodes, element) {
                    Some(n) => n.name@,
                    None => Seq::empty(),
                },
                last_node(nodes, element) is None,
            ),
        ),
        None => None,
    }
}

/// Whether `id` is a requirement of the model.
fn requirement_known(reqs: &Vec<Requirement>, id: &String) -> (r: bool)
    ensures
        r == is_requirement(reqs@, id@),
{
    let mut i: usize = 0;
    while i < reqs.len()
        invariant
            i <= reqs@.len(),
            forall|j: int| 0 <= j < i ==> reqs@[j].id@ != id@,
        decreases reqs@.len() - i,
    {
        if reqs[i].id == *id {
            return true;
        }
        i = i + 1;
    }
    false
}

/// The last element with this id.
pub(crate) fn find_last(nodes: &Vec<GraphNode>, id: &String) -> (r: Option<usize>)
    ensures
        match r {
            Some(i) => i < nodes@.len() && last_node(nodes@, id@) == Some(nodes@[i as int]),
            None => last_node(nodes@, id@) is None,
        },
{
    let mut i = nodes.len();
    proof {
        assert(nodes@.take(i as int) =~= nodes@);
    }
    while i > 0
        invariant
            i <= nodes@.len(),
            last_node(nodes@, id@) == last_node(nodes@.take(i as int), id@),
        decreases i,
    {
        let ghost before = nodes@.take(i as int);
        proof {
            assert(before.last() == nodes@[i - 1]);
            assert(before.drop_last() =~= nodes@.take(i - 1));
        }
        if nodes[i - 1].id == *id {
            return Some(i - 1);
        }
        i = i - 1;
    }
    None
}

/// The elements allocated to requirements, read from the dependency edges, in edge order. This
/// is display of the model's own edges; the authoritative covered or uncovered verdict is the
/// engine's, which the page renders rather than recomputes.
pub fn allocations(reqs: &Vec<Requirement>, nodes: &Vec<GraphNode>, edges: &Vec<GraphEdge>) -> (r: Vec<Allocation>)
    ensures
        r@.map_values(|a: Allocation| allocation_view(a)) == edges@.filter_map(
            |e: GraphEdge| listed_allocation(reqs@, nodes@, e),
        ),
{
    let ghost f = |e: GraphEdge| listed_allocation(reqs@, nodes@, e);
    let ghost view = |a: Allocation| allocation_view(a);
    let mut out: Vec<Allocation> = Vec::new();
    let mut i: usize = 0;
    proof {
        assert(out@.map_values(view) =~= edges@.take(0).filter_map(f));
    }
    while i < edges.len()
        invariant
            f == (|e: GraphEdge| listed_allocation(reqs@, nodes@, e)),
            view == (|a: Allocation| allocation_view(a)),
            i <= edges@.len(),
            out@.map_values(view) == edges@.take(i as int).filter_map(f),
        decreases edges@.len() - i,
    {
        let e = &edges[i];
        proof {
            edges@.lemma_filter_map_take_succ(f, i as int);
        }
        let kind = chars_of(e.kind.as_str());
        let label = chars_of(e.label.as_str());
        let mut found: Option<(String, String, &'static str)> = None;
        if chars_equal(&kind, "dependency") {
            if chars_equal(&label, "Satisfy") && requirement_known(reqs, &e.target) {
                found = Some((e.target.clone(), e.source.clone(), "satisfy"));
            } else if chars_equal(&label, "Refine") && requirement_known(reqs, &e.target) {
                found = Some((e.target.clone(), e.source.clone(), "refine"));
            } else if chars_equal(&label, "Verify") && requirement_known(reqs, &e.target) {
                found = Some((e.target.clone(), e.source.clone(), "verify"));
            } else if chars_equal(&label, "Allocate") && requirement_known(reqs, &e.target) {
                found = Some((e.target.clone(), e.source.clone(), "allocate"));
            } else if chars_equal(&label, "Allocate") && requirement_known(reqs, &e.source) {
                found = Some((e.source.clone(), e.target.clone(), "allocate"));
            }
        }
        proof {
            match allocation_of(reqs@, *e) {
                Some(t) => {
                    assert(found matches Some(x) && x.0@ == t.0 && x.1@ == t.1 && x.2@ == t.2);
                },
                None => {
                    assert(found is None);
                },
            }
        }
        match found {
            Some((requirement, element_id, relation)) => {
                let (name, unresolved) = match find_last(nodes, &element_id) {
                    Some(k) => (nodes[k].name.clone(), false),
                    None => (String::new(), true),
                };
                let ghost before = out@;
                out.push(Allocation { requirement, relation: String::from_str(relation), element_id, name, unresolved });
                proof {
                    assert(out@.map_values(view) =~= before.map_values(view).push(f(*e).unwrap()));
                }
            },
            None => {},
        }
        i = i + 1;
    }
    proof {
        assert(edges@.take(i as int) =~= edges@);
    }
    out
}

/// A graph edge whose source or target names an element that was never emitted as a node. A
/// broken link that is hidden is worse than one that is shown.
pub struct UnresolvedEdge {
    pub source: String,
    pub target: String,
    pub kind: String,
    pub label: String,
    pub source_missing: bool,
    pub target_missing: bool,
}

/// The texts of an unresolved edge, with which ends are missing.
pub open spec fn unresolved_view(u: UnresolvedEdge) -> (Seq<char>, Seq<char>, Seq<char>, Seq<char>, bool, bool) {
    (u.source@, u.target@, u.kind@, u.label@, u.source_missing, u.target_missing)
}

/// The report of an edge, when one of its ends is not a node.
pub open spec fn unresolved_of(nodes: Seq<GraphNode>, e: GraphEdge) -> Option<(Seq<char>, Seq<char>, Seq<char>, Seq<char>, bool, bool)> {
    if !is_node(nodes, e.source@) || !is_node(nodes, e.target@) {
        Some((e.source@, e.target@, e.kind@, e.label@, !is_node(nodes, e.source@), !is_node(nodes, e.target@)))
    } else {
        None
    }
}

/// Whether the model defines an element with this id.
fn node_known(nodes: &Vec<GraphNode>, id: &String) -> (r: bool)
    ensures
        r == is_node(nodes@, id@),
{
    let mut i: usize = 0;
    while i < nodes.len()
        invariant
            i <= nodes@.len(),
            forall|j: int| 0 <= j < i ==> nodes@[j].id@ != id@,
        decreases nodes@.len() - i,
    {
        if nodes[i].id == *id {
            return true;
        }
        i = i + 1;
    }
    false
}

/// Every edge with an end the model does not define, in edge order.
pub fn unresolved_edges(nodes: &Vec<GraphNode>, edges: &Vec<GraphEdge>) -> (r: Vec<UnresolvedEdge>)
    ensures
        r@.map_values(|u: UnresolvedEdge| unresolved_view(u)) == edges@.filter_map(|e: GraphEdge| unresolved_of(nodes@, e)),
{
    let ghost f = |e: GraphEdge| unresolved_of(nodes@, e);
    let ghost view = |u: UnresolvedEdge| unresolved_view(u);
    let mut out: Vec<UnresolvedEdge> = Vec::new();
    let mut i: usize = 0;
    proof {
        assert(out@.map_values(view) =~= edges@.take(0).filter_map(f));
    }
    while i < edges.len()
        invariant
            f == (|e: GraphEdge| unresolved_of(nodes@, e)),
            view == (|u: UnresolvedEdge| unresolved_view(u)),
            i <= edges@.len(),
            out@.map_values(view) == edges@.take(i as int).filter_map(f),
        decreases edges@.len() - i,
    {
        let e = &edges[i];
        proof {
            edges@.lemma_filter_map_take_succ(f, i as int);
        }
        let source_missing = !node_known(nodes, &e.source);
        let target_missing = !node_known(nodes, &e.target);
        if source_missing || target_missing {
            let ghost before = out@;
            out.push(
                UnresolvedEdge {
                    source: e.source.clone(),
                    target: e.target.clone(),
                    kind: e.kind.clone(),
                    label: e.label.clone(),
                    source_missing,
                    target_missing,
                },
            );
            proof {
                assert(out@.map_values(view) =~= before.map_values(view).push(f(*e).unwrap()));
            }
        }
        i = i + 1;
    }
    proof {
        assert(edges@.take(i as int) =~= edges@);
    }
    out
}

} // verus!
