//! Scoping a drawing: which elements and relationships of a model a narrowed picture shows.
//!
//! The whole model is drawn exactly as it is, with nothing filtered, so nothing can be lost to
//! the scope machinery. A narrowed scope keeps the elements it selects, in the model's own
//! order, and the relationships whose both ends it keeps: an edge with one end filtered out
//! would otherwise be drawn as unresolved, an artefact of the scope rather than a fact about
//! the model.

use vstd::prelude::*;
use crate::diagram::{focus_words, kind_label, kind_words, DiagramScope, Focus, ScopeError, MAX_HOPS};
use crate::layout::holds;
use crate::text::{append_number, append_text, chars_equal, chars_of, decimal, join_texts, joined, texts};

verus! {

/// One element of a model's graph.
pub struct GraphNode {
    pub id: String,
    pub name: String,
    pub kind: String,
}

/// One relationship of a model's graph, from `source` to `target`.
pub struct GraphEdge {
    pub source: String,
    pub target: String,
    pub kind: String,
    /// The relationship's label, such as the stereotype of a dependency.
    pub label: String,
}

/// A model's graph: its elements and relationships, in the model's order.
pub struct Graph {
    pub nodes: Vec<GraphNode>,
    pub edges: Vec<GraphEdge>,
}

/// Whether the model defines an element with this id.
pub open spec fn is_node(nodes: Seq<GraphNode>, id: Seq<char>) -> bool {
    exists|i: int| 0 <= i < nodes.len() && #[trigger] nodes[i].id@ == id
}

/// Whether edge `e` relates `a` and `b`, in either direction: a relationship between two
/// distinct elements the model defines.
pub open spec fn joins(nodes: Seq<GraphNode>, e: GraphEdge, a: Seq<char>, b: Seq<char>) -> bool {
    &&& e.source@ != e.target@
    &&& is_node(nodes, e.source@)
    &&& is_node(nodes, e.target@)
    &&& ((e.source@ == a && e.target@ == b) || (e.target@ == a && e.source@ == b))
}

/// Whether some relationship relates `a` and `b`.
pub open spec fn linked(nodes: Seq<GraphNode>, edges: Seq<GraphEdge>, a: Seq<char>, b: Seq<char>) -> bool {
    exists|j: int| 0 <= j < edges.len() && #[trigger] joins(nodes, edges[j], a, b)
}

/// Whether step `i` of a walk follows a relationship.
pub open spec fn walk_step(nodes: Seq<GraphNode>, edges: Seq<GraphEdge>, path: Seq<Seq<char>>, i: int) -> bool {
    linked(nodes, edges, path[i], path[i + 1])
}

/// Whether `path` walks from `from` to `x` along relationships, in either direction.
pub open spec fn is_walk(nodes: Seq<GraphNode>, edges: Seq<GraphEdge>, path: Seq<Seq<char>>, from: Seq<char>, x: Seq<char>) -> bool {
    &&& path.len() >= 1
    &&& path[0] == from
    &&& path.last() == x
    &&& forall|i: int| 0 <= i < path.len() - 1 ==> #[trigger] walk_step(nodes, edges, path, i)
}

/// Whether `x` is within `k` relationships of `from`, in either direction: a walk of at most
/// `k` steps leads from one to the other.
pub open spec fn near(nodes: Seq<GraphNode>, edges: Seq<GraphEdge>, from: Seq<char>, x: Seq<char>, k: int) -> bool {
    exists|path: Seq<Seq<char>>| #[trigger] is_walk(nodes, edges, path, from, x) && path.len() <= k + 1
}

/// Whether edge `e` makes `c` a part of `p`: a part or contains relationship between two
/// elements the model defines, pointing container to contained.
pub open spec fn holds_part(nodes: Seq<GraphNode>, e: GraphEdge, p: Seq<char>, c: Seq<char>) -> bool {
    &&& (e.kind@ == "part"@ || e.kind@ == "contains"@)
    &&& is_node(nodes, e.source@)
    &&& is_node(nodes, e.target@)
    &&& e.source@ == p
    &&& e.target@ == c
}

/// Whether `c` is a direct part of `p`.
pub open spec fn child_of(nodes: Seq<GraphNode>, edges: Seq<GraphEdge>, p: Seq<char>, c: Seq<char>) -> bool {
    exists|j: int| 0 <= j < edges.len() && #[trigger] holds_part(nodes, edges[j], p, c)
}

/// Whether step `i` of a path goes from a container to one of its parts.
pub open spec fn part_step(nodes: Seq<GraphNode>, edges: Seq<GraphEdge>, path: Seq<Seq<char>>, i: int) -> bool {
    child_of(nodes, edges, path[i], path[i + 1])
}

/// Whether `path` descends from `from` to `x`, one part at a time.
pub open spec fn is_descent(nodes: Seq<GraphNode>, edges: Seq<GraphEdge>, path: Seq<Seq<char>>, from: Seq<char>, x: Seq<char>) -> bool {
    &&& path.len() >= 1
    &&& path[0] == from
    &&& path.last() == x
    &&& forall|i: int| 0 <= i < path.len() - 1 ==> #[trigger] part_step(nodes, edges, path, i)
}

/// Whether `x` is `from` or one of its containment descendants.
pub open spec fn contained(nodes: Seq<GraphNode>, edges: Seq<GraphEdge>, from: Seq<char>, x: Seq<char>) -> bool {
    exists|path: Seq<Seq<char>>| #[trigger] is_descent(nodes, edges, path, from, x)
}

/// Whether some element has kind `kind`.
pub open spec fn has_kind(nodes: Seq<GraphNode>, kind: Seq<char>) -> bool {
    exists|i: int| 0 <= i < nodes.len() && #[trigger] nodes[i].kind@ == kind
}

/// The first asked-for kind no element has.
pub open spec fn first_missing_kind(nodes: Seq<GraphNode>, kinds: Seq<Seq<char>>) -> Option<int>
    decreases kinds.len(),
{
    if kinds.len() == 0 {
        None
    } else {
        match first_missing_kind(nodes, kinds.drop_last()) {
            Some(i) => Some(i),
            None => if has_kind(nodes, kinds.last()) {
                None
            } else {
                Some(kinds.len() - 1)
            },
        }
    }
}

/// Whether an element with id `id` has one of the asked-for kinds.
pub open spec fn of_kinds(nodes: Seq<GraphNode>, kinds: Seq<Seq<char>>, id: Seq<char>) -> bool {
    exists|i: int| 0 <= i < nodes.len() && #[trigger] nodes[i].id@ == id && kinds.contains(nodes[i].kind@)
}

/// The neighbourhood radius a scope draws: what it asks for, at most [MAX_HOPS].
pub open spec fn radius(hops: usize) -> int {
    if hops < MAX_HOPS {
        hops as int
    } else {
        MAX_HOPS as int
    }
}

/// Whether a narrowed scope keeps the element with id `id`.
pub open spec fn keeps(scope: DiagramScope, nodes: Seq<GraphNode>, edges: Seq<GraphEdge>, id: Seq<char>) -> bool {
    match scope {
        DiagramScope::Full => true,
        DiagramScope::Kinds(kinds) => of_kinds(nodes, texts(kinds@), id),
        DiagramScope::Neighbourhood { element, hops } => near(nodes, edges, element@, id, radius(hops)),
        DiagramScope::Containment { element } => contained(nodes, edges, element@, id),
    }
}

/// The elements a scope keeps, in the model's order.
pub open spec fn kept_nodes(scope: DiagramScope, nodes: Seq<GraphNode>, edges: Seq<GraphEdge>) -> Seq<GraphNode> {
    nodes.filter(|n: GraphNode| keeps(scope, nodes, edges, n.id@))
}

/// The relationships a scope keeps, in the model's order: those whose both ends it keeps, and
/// every relationship for the whole model.
pub open spec fn kept_edges(scope: DiagramScope, nodes: Seq<GraphNode>, edges: Seq<GraphEdge>) -> Seq<GraphEdge> {
    edges.filter(|e: GraphEdge| keeps(scope, nodes, edges, e.source@) && keeps(scope, nodes, edges, e.target@))
}

/// The element a scope centres on, named as a person reads it: the first element with that
/// id, by its name, or by its id when it has none.
pub open spec fn first_node(nodes: Seq<GraphNode>, id: Seq<char>) -> Option<int>
    decreases nodes.len(),
{
    if nodes.len() == 0 {
        None
    } else if nodes[0].id@ == id {
        Some(0)
    } else {
        match first_node(nodes.drop_first(), id) {
            Some(i) => Some(i + 1),
            None => None,
        }
    }
}

// ---------------------------------------------------------------------------
// Membership.

/// Whether the model defines an element with this id.
pub(crate) fn defines(nodes: &Vec<GraphNode>, id: &String) -> (r: bool)
    ensures
        r == is_node(nodes@, id@),
{
    let mut i: usize = 0;
    while i < nodes.len()
        invariant
            i <= nodes@.len(),
            forall|j: int| 0 <= j < i ==> nodes@[j].id@ != id@,
        decreases nodes@.len() - i,
    {
        if nodes[i].id == *id {
            return true;
        }
        i = i + 1;
    }
    false
}

/// Whether some element has this kind.
fn kind_present(nodes: &Vec<GraphNode>, kind: &String) -> (r: bool)
    ensures
        r == has_kind(nodes@, kind@),
{
    let mut i: usize = 0;
    while i < nodes.len()
        invariant
            i <= nodes@.len(),
            forall|j: int| 0 <= j < i ==> nodes@[j].kind@ != kind@,
        decreases nodes@.len() - i,
    {
        if nodes[i].kind == *kind {
            return true;
        }
        i = i + 1;
    }
    false
}

/// The first asked-for kind no element has.
fn missing_kind(nodes: &Vec<GraphNode>, kinds: &Vec<String>) -> (r: Option<usize>)
    ensures
        match r {
            Some(j) => first_missing_kind(nodes@, texts(kinds@)) == Some(j as int) && j < kinds@.len(),
            None => first_missing_kind(nodes@, texts(kinds@)) is None,
        },
{
    proof {
        lemma_missing_in_range(nodes@, texts(kinds@));
    }
    let ghost ks = texts(kinds@);
    let mut i: usize = 0;
    while i < kinds.len()
        invariant
            ks == texts(kinds@),
            i <= kinds@.len(),
            first_missing_kind(nodes@, ks.take(i as int)) is None,
        decreases kinds@.len() - i,
    {
        proof {
            assert(ks.take(i + 1).drop_last() =~= ks.take(i as int));
            assert(ks.take(i + 1).last() == kinds@[i as int]@);
        }
        if !kind_present(nodes, &kinds[i]) {
            proof {
                lemma_missing_prefix(nodes@, ks, i as int + 1);
            }
            return Some(i);
        }
        i = i + 1;
    }
    proof {
        assert(ks.take(i as int) =~= ks);
    }
    None
}

proof fn lemma_missing_in_range(nodes: Seq<GraphNode>, kinds: Seq<Seq<char>>)
    ensures
        match first_missing_kind(nodes, kinds) {
            Some(i) => 0 <= i < kinds.len() && !has_kind(nodes, kinds[i]),
            None => forall|i: int| 0 <= i < kinds.len() ==> has_kind(nodes, #[trigger] kinds[i]),
        },
    decreases kinds.len(),
{
    if kinds.len() > 0 {
        let rest = kinds.drop_last();
        lemma_missing_in_range(nodes, rest);
        match first_missing_kind(nodes, rest) {
            Some(i) => {
                assert(rest[i] == kinds[i]);
            },
            None => {
                if has_kind(nodes, kinds.last()) {
                    assert forall|i: int| 0 <= i < kinds.len() implies has_kind(nodes, #[trigger] kinds[i]) by {
                        if i < kinds.len() - 1 {
                            assert(rest[i] == kinds[i]);
                            assert(has_kind(nodes, rest[i]));
                        }
                    }
                }
            },
        }
    }
}

/// Once a kind is missing in a prefix, it is the first missing kind of the whole list.
proof fn lemma_missing_prefix(nodes: Seq<GraphNode>, kinds: Seq<Seq<char>>, n: int)
    requires
        0 <= n <= kinds.len(),
        first_missing_kind(nodes, kinds.take(n)) is Some,
    ensures
        first_missing_kind(nodes, kinds) == first_missing_kind(nodes, kinds.take(n)),
    decreases kinds.len() - n,
{
    if n < kinds.len() {
        assert(kinds.take(n + 1).drop_last() =~= kinds.take(n));
        lemma_missing_prefix(nodes, kinds, n + 1);
    } else {
        assert(kinds.take(n) =~= kinds);
    }
}

// ---------------------------------------------------------------------------
// The neighbourhood of an element.

/// Whether edge `j` is a relationship the neighbourhood walk follows, and which element it
/// reaches from `from`.
fn other_end(nodes: &Vec<GraphNode>, e: &GraphEdge, from: &String) -> (r: Option<String>)
    ensures
        match r {
            Some(o) => joins(nodes@, *e, from@, o@),
            None => forall|o: Seq<char>| !joins(nodes@, *e, from@, o),
        },
{
    if e.source == e.target || !defines(nodes, &e.source) || !defines(nodes, &e.target) {
        return None;
    }
    if e.source == *from {
        Some(e.target.clone())
    } else if e.target == *from {
        Some(e.source.clone())
    } else {
        None
    }
}

/// `from` is within any number of relationships of itself.
proof fn lemma_near_start(nodes: Seq<GraphNode>, edges: Seq<GraphEdge>, from: Seq<char>, x: Seq<char>)
    ensures
        near(nodes, edges, from, x, 0) <==> x == from,
{
    if x == from {
        assert(is_walk(nodes, edges, seq![from], from, x));
    }
    if near(nodes, edges, from, x, 0) {
        let path = choose|path: Seq<Seq<char>>| #[trigger] is_walk(nodes, edges, path, from, x) && path.len() <= 1;
        assert(path.last() == path[0]);
    }
}

/// What is within `k` relationships is within `k + 1`.
proof fn lemma_near_grows(nodes: Seq<GraphNode>, edges: Seq<GraphEdge>, from: Seq<char>, x: Seq<char>, k: int)
    requires
        near(nodes, edges, from, x, k),
    ensures
        near(nodes, edges, from, x, k + 1),
{
    let path = choose|path: Seq<Seq<char>>| #[trigger] is_walk(nodes, edges, path, from, x) && path.len() <= k + 1;
    assert(is_walk(nodes, edges, path, from, x) && path.len() <= k + 2);
}

/// A relationship from an element within `k` leads to one within `k + 1`.
proof fn lemma_near_extend(nodes: Seq<GraphNode>, edges: Seq<GraphEdge>, from: Seq<char>, m: Seq<char>, x: Seq<char>, k: int)
    requires
        near(nodes, edges, from, m, k),
        linked(nodes, edges, m, x),
    ensures
        near(nodes, edges, from, x, k + 1),
{
    let path = choose|path: Seq<Seq<char>>| #[trigger] is_walk(nodes, edges, path, from, m) && path.len() <= k + 1;
    let longer = path.push(x);
    assert forall|i: int| 0 <= i < longer.len() - 1 implies #[trigger] walk_step(nodes, edges, longer, i) by {
        if i < path.len() - 1 {
            assert(walk_step(nodes, edges, path, i));
            assert(longer[i] == path[i] && longer[i + 1] == path[i + 1]);
        } else {
            assert(longer[i] == m && longer[i + 1] == x);
        }
    }
    assert(is_walk(nodes, edges, longer, from, x));
}

/// What is within `k + 1` relationships and not within `k` is one relationship from something
/// within `k`.
proof fn lemma_near_back(nodes: Seq<GraphNode>, edges: Seq<GraphEdge>, from: Seq<char>, x: Seq<char>, k: int)
    requires
        k >= 0,
        near(nodes, edges, from, x, k + 1),
        !near(nodes, edges, from, x, k),
    ensures
        exists|m: Seq<char>| near(nodes, edges, from, m, k) && #[trigger] linked(nodes, edges, m, x),
{
    let path = choose|path: Seq<Seq<char>>| #[trigger] is_walk(nodes, edges, path, from, x) && path.len() <= k + 2;
    if path.len() == 1 {
        assert(is_walk(nodes, edges, path, from, x) && path.len() <= k + 1);
    } else {
        let shorter = path.drop_last();
        let m = shorter.last();
        assert forall|i: int| 0 <= i < shorter.len() - 1 implies #[trigger] walk_step(nodes, edges, shorter, i) by {
            assert(walk_step(nodes, edges, path, i));
        }
        assert(is_walk(nodes, edges, shorter, from, m));
        assert(walk_step(nodes, edges, path, path.len() - 2));
        assert(linked(nodes, edges, m, x));
        assert(near(nodes, edges, from, m, k));
    }
}

/// The elements within `k + 1` relationships are those within `k`, and those one relationship
/// away from an element exactly `k` away.
proof fn lemma_near_step(
    nodes: Seq<GraphNode>,
    edges: Seq<GraphEdge>,
    from: Seq<char>,
    k: int,
    x: Seq<char>,
)
    requires
        k >= 0,
    ensures
        near(nodes, edges, from, x, k + 1) <==> near(nodes, edges, from, x, k) || exists|m: Seq<char>|
            near(nodes, edges, from, m, k) && (k == 0 || !near(nodes, edges, from, m, k - 1))
                && #[trigger] linked(nodes, edges, m, x),
{
    if near(nodes, edges, from, x, k) {
        lemma_near_grows(nodes, edges, from, x, k);
    }
    if exists|m: Seq<char>| near(nodes, edges, from, m, k) && (k == 0 || !near(nodes, edges, from, m, k - 1))
        && #[trigger] linked(nodes, edges, m, x) {
        let m = choose|m: Seq<char>| near(nodes, edges, from, m, k) && (k == 0 || !near(nodes, edges, from, m, k - 1))
            && #[trigger] linked(nodes, edges, m, x);
        lemma_near_extend(nodes, edges, from, m, x, k);
    }
    if near(nodes, edges, from, x, k + 1) && !near(nodes, edges, from, x, k) {
        lemma_near_back(nodes, edges, from, x, k);
        let m = choose|m: Seq<char>| near(nodes, edges, from, m, k) && #[trigger] linked(nodes, edges, m, x);
        if k > 0 && near(nodes, edges, from, m, k - 1) {
            lemma_near_extend(nodes, edges, from, m, x, k - 1);
        }
    }
}

/// The elements within `radius` relationships of `element`, in either direction.
fn neighbourhood(graph: &Graph, element: &String, radius: usize) -> (r: Vec<String>)
    ensures
        forall|x: Seq<char>| #[trigger] texts(r@).contains(x) <==> near(graph.nodes@, graph.edges@, element@, x, radius as int),
{
    let ghost ns = graph.nodes@;
    let ghost es = graph.edges@;
    let mut seen: Vec<String> = Vec::new();
    seen.push(element.clone());
    let mut frontier: Vec<String> = Vec::new();
    frontier.push(element.clone());
    let mut round: usize = 0;
    proof {
        assert forall|x: Seq<char>| #[trigger] texts(seen@).contains(x) <==> near(ns, es, element@, x, 0) by {
            lemma_near_start(ns, es, element@, x);
            if x == element@ {
                assert(texts(seen@)[0] == x);
            }
        }
        assert forall|x: Seq<char>| #[trigger] texts(frontier@).contains(x) <==> near(ns, es, element@, x, 0) by {
            lemma_near_start(ns, es, element@, x);
            if x == element@ {
                assert(texts(frontier@)[0] == x);
            }
        }
    }
    while round < radius
        invariant
            ns == graph.nodes@,
            es == graph.edges@,
            round <= radius,
            forall|x: Seq<char>| #[trigger] texts(seen@).contains(x) <==> near(ns, es, element@, x, round as int),
            forall|x: Seq<char>| #[trigger] texts(frontier@).contains(x) <==> near(ns, es, element@, x, round as int) && (
            round == 0 || !near(ns, es, element@, x, round - 1)),
        decreases radius - round,
    {
        let ghost r = round as int;
        let mut next: Vec<String> = Vec::new();
        let mut i: usize = 0;
        while i < frontier.len()
            invariant
                ns == graph.nodes@,
                es == graph.edges@,
                i <= frontier@.len(),
                forall|x: Seq<char>| #[trigger] texts(frontier@).contains(x) <==> near(ns, es, element@, x, r) && (
                r == 0 || !near(ns, es, element@, x, r - 1)),
                forall|x: Seq<char>| #[trigger] texts(seen@).contains(x) <==> near(ns, es, element@, x, r) || exists|a: int|
                    0 <= a < i && #[trigger] linked(ns, es, frontier@[a]@, x),
                forall|x: Seq<char>| #[trigger] texts(next@).contains(x) <==> texts(seen@).contains(x) && !near(ns, es, element@, x, r),
            decreases frontier@.len() - i,
        {
            let f = &frontier[i];
            let mut j: usize = 0;
            while j < graph.edges.len()
                invariant
                    ns == graph.nodes@,
                    es == graph.edges@,
                    i < frontier@.len(),
                    f == frontier@[i as int],
                    j <= es.len(),
                    forall|x: Seq<char>| #[trigger] texts(seen@).contains(x) <==> near(ns, es, element@, x, r) || (exists|a: int|
                        0 <= a < i && #[trigger] linked(ns, es, frontier@[a]@, x)) || exists|b: int| 0 <= b < j && #[trigger] joins(
                        ns,
                        es[b],
                        f@,
                        x,
                    ),
                    forall|x: Seq<char>| #[trigger] texts(next@).contains(x) <==> texts(seen@).contains(x) && !near(ns, es, element@, x, r),
                decreases es.len() - j,
            {
                match other_end(&graph.nodes, &graph.edges[j], f) {
                    Some(o) => {
                        if !holds(&seen, &o) {
                            let ghost before_seen = seen@;
                            let ghost before_next = next@;
                            proof {
                                assert(!near(ns, es, element@, o@, r));
                            }
                            seen.push(o.clone());
                            next.push(o);
                            proof {
                                assert(texts(seen@) =~= texts(before_seen).push(o@));
                                assert(texts(next@) =~= texts(before_next).push(o@));
                                assert forall|x: Seq<char>| #[trigger] texts(seen@).contains(x) <==> near(ns, es, element@, x, r) || (exists|a: int|
                                    0 <= a < i && #[trigger] linked(ns, es, frontier@[a]@, x)) || exists|b: int| 0 <= b < j + 1 && #[trigger] joins(
                                    ns,
                                    es[b],
                                    f@,
                                    x,
                                ) by {
                                    if x == o@ {
                                        assert(texts(seen@)[texts(seen@).len() - 1] == x);
                                    } else if texts(seen@).contains(x) {
                                        let k = choose|k: int| 0 <= k < texts(seen@).len() && texts(seen@)[k] == x;
                                        assert(texts(before_seen)[k] == x);
                                    }
                                    if texts(before_seen).contains(x) {
                                        let k = choose|k: int| 0 <= k < texts(before_seen).len() && texts(before_seen)[k] == x;
                                        assert(texts(seen@)[k] == x);
                                    }
                                }
                                assert forall|x: Seq<char>| #[trigger] texts(next@).contains(x) <==> texts(seen@).contains(x) && !near(ns, es, element@, x, r) by {
                                    if x == o@ {
                                        assert(texts(next@)[texts(next@).len() - 1] == x);
                                        assert(texts(seen@)[texts(seen@).len() - 1] == x);
                                    } else {
                                        if texts(next@).contains(x) {
                                            let k = choose|k: int| 0 <= k < texts(next@).len() && texts(next@)[k] == x;
                                            assert(texts(before_next)[k] == x);
                                        }
                                        if texts(before_next).contains(x) {
                                            let k = choose|k: int| 0 <= k < texts(before_next).len() && texts(before_next)[k] == x;
                                            assert(texts(next@)[k] == x);
                                        }
                                        if texts(seen@).contains(x) {
                                            let k = choose|k: int| 0 <= k < texts(seen@).len() && texts(seen@)[k] == x;
                                            assert(texts(before_seen)[k] == x);
                                        }
                                        if texts(before_seen).contains(x) {
                                            let k = choose|k: int| 0 <= k < texts(before_seen).len() && texts(before_seen)[k] == x;
                                            assert(texts(seen@)[k] == x);
                                        }
                                    }
                                }
                            }
                        } else {
                            proof {
                                assert forall|x: Seq<char>| #[trigger] texts(seen@).contains(x) <==> near(ns, es, element@, x, r) || (exists|a: int|
                                    0 <= a < i && #[trigger] linked(ns, es, frontier@[a]@, x)) || exists|b: int| 0 <= b < j + 1 && #[trigger] joins(
                                    ns,
                                    es[b],
                                    f@,
                                    x,
                                ) by {
                                    if joins(ns, es[j as int], f@, x) {
                                        assert(x == o@);
                                    }
                                }
                            }
                        }
                    },
                    None => {
                        proof {
                            assert forall|x: Seq<char>| #[trigger] texts(seen@).contains(x) <==> near(ns, es, element@, x, r) || (exists|a: int|
                                0 <= a < i && #[trigger] linked(ns, es, frontier@[a]@, x)) || exists|b: int| 0 <= b < j + 1 && #[trigger] joins(
                                ns,
                                es[b],
                                f@,
                                x,
                            ) by {
                                assert(!joins(ns, es[j as int], f@, x));
                            }
                        }
                    },
                }
                j = j + 1;
            }
            proof {
                assert forall|x: Seq<char>| #[trigger] texts(seen@).contains(x) <==> near(ns, es, element@, x, r) || exists|a: int|
                    0 <= a < i + 1 && #[trigger] linked(ns, es, frontier@[a]@, x) by {
                    if exists|b: int| 0 <= b < es.len() && #[trigger] joins(ns, es[b], f@, x) {
                        assert(linked(ns, es, frontier@[i as int]@, x));
                    }
                    if linked(ns, es, frontier@[i as int]@, x) {
                        let b = choose|b: int| 0 <= b < es.len() && #[trigger] joins(ns, es[b], frontier@[i as int]@, x);
                        assert(joins(ns, es[b], f@, x));
                    }
                }
            }
            i = i + 1;
        }
        proof {
            assert forall|x: Seq<char>| #[trigger] texts(seen@).contains(x) <==> near(ns, es, element@, x, r + 1) by {
                lemma_near_step(ns, es, element@, r, x);
                if exists|a: int| 0 <= a < frontier@.len() && #[trigger] linked(ns, es, frontier@[a]@, x) {
                    let a = choose|a: int| 0 <= a < frontier@.len() && #[trigger] linked(ns, es, frontier@[a]@, x);
                    assert(texts(frontier@)[a] == frontier@[a]@);
                    assert(texts(frontier@).contains(frontier@[a]@));
                }
                if exists|m: Seq<char>| near(ns, es, element@, m, r) && (r == 0 || !near(ns, es, element@, m, r - 1))
                    && #[trigger] linked(ns, es, m, x) {
                    let m = choose|m: Seq<char>| near(ns, es, element@, m, r) && (r == 0 || !near(ns, es, element@, m, r - 1))
                        && #[trigger] linked(ns, es, m, x);
                    assert(texts(frontier@).contains(m));
                    let a = choose|a: int| 0 <= a < texts(frontier@).len() && texts(frontier@)[a] == m;
                    assert(linked(ns, es, frontier@[a]@, x));
                }
            }
        }
        frontier = next;
        round = round + 1;
    }
    seen
}

// ---------------------------------------------------------------------------
// The containment descendants of an element.

/// How many elements' ids are not yet among `seen`.
pub open spec fn unseen(ids: Seq<Seq<char>>, seen: Seq<Seq<char>>) -> nat
    decreases ids.len(),
{
    if ids.len() == 0 {
        0
    } else {
        unseen(ids.drop_last(), seen) + if seen.contains(ids.last()) {
            0nat
        } else {
            1nat
        }
    }
}

proof fn lemma_unseen_shrinks(ids: Seq<Seq<char>>, seen: Seq<Seq<char>>, more: Seq<Seq<char>>, x: Seq<char>)
    requires
        forall|y: Seq<char>| seen.contains(y) ==> more.contains(y),
    ensures
        unseen(ids, more) <= unseen(ids, seen),
        ids.contains(x) && !seen.contains(x) && more.contains(x) ==> unseen(ids, more) < unseen(ids, seen),
    decreases ids.len(),
{
    if ids.len() > 0 {
        lemma_unseen_shrinks(ids.drop_last(), seen, more, x);
        if ids.contains(x) && ids.last() != x {
            let k = choose|k: int| 0 <= k < ids.len() && ids[k] == x;
            assert(ids.drop_last()[k] == x);
        }
    }
}

/// The ids of the elements.
pub open spec fn ids_of(nodes: Seq<GraphNode>) -> Seq<Seq<char>> {
    nodes.map_values(|n: GraphNode| n.id@)
}

/// Whether edge `e` makes some element a part of `p`, and which.
fn part_of(nodes: &Vec<GraphNode>, e: &GraphEdge, p: &String) -> (r: Option<String>)
    ensures
        match r {
            Some(c) => holds_part(nodes@, *e, p@, c@),
            None => forall|c: Seq<char>| !holds_part(nodes@, *e, p@, c),
        },
{
    let k = chars_of(e.kind.as_str());
    if !(chars_equal(&k, "part") || chars_equal(&k, "contains")) {
        return None;
    }
    if !defines(nodes, &e.source) || !defines(nodes, &e.target) {
        return None;
    }
    if e.source == *p {
        Some(e.target.clone())
    } else {
        None
    }
}

/// Whether `x` is on the list.
pub open spec fn listed(v: Seq<String>, x: Seq<char>) -> bool {
    texts(v).contains(x)
}

proof fn lemma_listed_push(v: Seq<String>, s: String, x: Seq<char>)
    ensures
        listed(v.push(s), x) <==> listed(v, x) || x == s@,
{
    assert(texts(v.push(s)) =~= texts(v).push(s@));
    if listed(v, x) {
        let k = choose|k: int| 0 <= k < texts(v).len() && texts(v)[k] == x;
        assert(texts(v.push(s))[k] == x);
    }
    if listed(v.push(s), x) && x != s@ {
        let k = choose|k: int| 0 <= k < texts(v.push(s)).len() && texts(v.push(s))[k] == x;
        assert(texts(v)[k] == x);
    }
    if x == s@ {
        assert(texts(v.push(s))[v.len() as int] == x);
    }
}

/// Every element the walk has reached is a descendant, and every part of an element it has
/// finished with has been reached.
pub open spec fn walk_sound(nodes: Seq<GraphNode>, edges: Seq<GraphEdge>, from: Seq<char>, seen: Seq<String>) -> bool {
    forall|x: Seq<char>| #[trigger] listed(seen, x) ==> contained(nodes, edges, from, x)
}

/// An element is its own descendant, in the sense of [contained].
proof fn lemma_contained_self(nodes: Seq<GraphNode>, edges: Seq<GraphEdge>, from: Seq<char>)
    ensures
        contained(nodes, edges, from, from),
{
    assert(is_descent(nodes, edges, seq![from], from, from));
}

/// A part of a descendant is a descendant.
proof fn lemma_contained_step(nodes: Seq<GraphNode>, edges: Seq<GraphEdge>, from: Seq<char>, m: Seq<char>, x: Seq<char>)
    requires
        contained(nodes, edges, from, m),
        child_of(nodes, edges, m, x),
    ensures
        contained(nodes, edges, from, x),
{
    let path = choose|path: Seq<Seq<char>>| #[trigger] is_descent(nodes, edges, path, from, m);
    let longer = path.push(x);
    assert forall|i: int| 0 <= i < longer.len() - 1 implies #[trigger] part_step(nodes, edges, longer, i) by {
        if i < path.len() - 1 {
            assert(part_step(nodes, edges, path, i));
            assert(longer[i] == path[i] && longer[i + 1] == path[i + 1]);
        } else {
            assert(longer[i] == m && longer[i + 1] == x);
        }
    }
    assert(is_descent(nodes, edges, longer, from, x));
}

/// When every part of every reached element has been reached, the end of every descent from a
/// reached element has been.
proof fn lemma_closed_reaches_all(
    nodes: Seq<GraphNode>,
    edges: Seq<GraphEdge>,
    from: Seq<char>,
    seen: Seq<String>,
    x: Seq<char>,
    path: Seq<Seq<char>>,
)
    requires
        listed(seen, from),
        forall|m: Seq<char>, c: Seq<char>| #[trigger] listed(seen, m) && #[trigger] child_of(nodes, edges, m, c) ==> listed(seen, c),
        is_descent(nodes, edges, path, from, x),
    ensures
        listed(seen, x),
    decreases path.len(),
{
    if path.len() > 1 {
        let shorter = path.drop_last();
        let m = shorter.last();
        assert forall|i: int| 0 <= i < shorter.len() - 1 implies #[trigger] part_step(nodes, edges, shorter, i) by {
            assert(part_step(nodes, edges, path, i));
        }
        assert(is_descent(nodes, edges, shorter, from, m));
        lemma_closed_reaches_all(nodes, edges, from, seen, m, shorter);
        assert(part_step(nodes, edges, path, path.len() - 2));
    }
}

/// The element and all its containment descendants.
pub(crate) fn descendants(graph: &Graph, element: &String) -> (r: Vec<String>)
    ensures
        forall|x: Seq<char>| #[trigger] listed(r@, x) <==> contained(graph.nodes@, graph.edges@, element@, x),
        texts(r@).no_duplicates(),
{
    let ghost ns = graph.nodes@;
    let ghost es = graph.edges@;
    let ghost ids = ids_of(ns);
    let mut seen: Vec<String> = Vec::new();
    seen.push(element.clone());
    let mut stack: Vec<String> = Vec::new();
    stack.push(element.clone());
    proof {
        lemma_contained_self(ns, es, element@);
        assert forall|x: Seq<char>| #[trigger] listed(seen@, x) implies contained(ns, es, element@, x) by {
            lemma_listed_push(Seq::<String>::empty(), *element, x);
            assert(seen@ =~= Seq::<String>::empty().push(*element));
            assert(!listed(Seq::<String>::empty(), x));
        }
        assert(listed(seen@, element@)) by {
            lemma_listed_push(Seq::<String>::empty(), *element, element@);
            assert(seen@ =~= Seq::<String>::empty().push(*element));
        }
        assert forall|x: Seq<char>| #[trigger] listed(stack@, x) implies listed(seen@, x) by {
            assert(stack@ =~= seen@);
        }
    }
    while stack.len() > 0
        invariant
            ns == graph.nodes@,
            es == graph.edges@,
            ids == ids_of(ns),
            walk_sound(ns, es, element@, seen@),
            listed(seen@, element@),
            texts(seen@).no_duplicates(),
            forall|x: Seq<char>| #[trigger] listed(stack@, x) ==> listed(seen@, x),
            forall|m: Seq<char>, c: Seq<char>| #[trigger] listed(seen@, m) && #[trigger] child_of(ns, es, m, c) ==> listed(stack@, m) || listed(seen@, c),
        decreases unseen(ids, texts(seen@)), stack@.len(),
    {
        let ghost seen_before = seen@;
        let ghost stack_before = stack@;
        let p = stack.pop().unwrap();
        proof {
            assert(stack_before =~= stack@.push(p));
            assert forall|x: Seq<char>| listed(stack_before, x) <==> listed(stack@, x) || x == p@ by {
                lemma_listed_push(stack@, p, x);
            }
            assert(listed(stack_before, p@));
            assert(listed(seen@, p@));
            assert forall|x: Seq<char>| #[trigger] listed(stack@, x) implies listed(seen@, x) by {
                assert(listed(stack_before, x));
            }
        }
        let mut j: usize = 0;
        while j < graph.edges.len()
            invariant
                ns == graph.nodes@,
                es == graph.edges@,
                ids == ids_of(ns),
                j <= es.len(),
                walk_sound(ns, es, element@, seen@),
                listed(seen@, element@),
                texts(seen@).no_duplicates(),
                listed(seen@, p@),
                forall|y: Seq<char>| listed(seen_before, y) ==> #[trigger] listed(seen@, y),
                forall|y: Seq<char>| #[trigger] listed(seen@, y) && !listed(seen_before, y) ==> ids.contains(y),
                unseen(ids, texts(seen@)) <= unseen(ids, texts(seen_before)),
                seen@.len() >= seen_before.len(),
                seen@.len() > seen_before.len() ==> unseen(ids, texts(seen@)) < unseen(ids, texts(seen_before)),
                stack@.len() + 1 >= stack_before.len(),
                stack@.len() + 1 > stack_before.len() ==> seen@.len() > seen_before.len(),
                forall|x: Seq<char>| #[trigger] listed(stack@, x) ==> listed(seen@, x),
                forall|x: Seq<char>| listed(stack_before, x) && x != p@ ==> #[trigger] listed(stack@, x),
                forall|m: Seq<char>, c: Seq<char>| #[trigger] listed(seen@, m) && #[trigger] child_of(ns, es, m, c) && m != p@ ==> listed(stack@, m) || listed(seen@, c),
                forall|b: int, c: Seq<char>| 0 <= b < j && #[trigger] holds_part(ns, es[b], p@, c) ==> listed(seen@, c),
            decreases es.len() - j,
        {
            match part_of(&graph.nodes, &graph.edges[j], &p) {
                Some(c) => {
                    if !holds(&seen, &c) {
                        let ghost before_seen = seen@;
                        let ghost before_stack = stack@;
                        seen.push(c.clone());
                        stack.push(c);
                        proof {
                            assert(texts(seen@).no_duplicates()) by {
                                let t = texts(seen@);
                                let tb = texts(before_seen);
                                assert(t =~= tb.push(c@));
                                assert forall|a: int, b: int| 0 <= a < t.len() && 0 <= b < t.len() && a != b implies t[a] != t[b] by {
                                    if a < tb.len() && b < tb.len() {
                                        assert(tb[a] != tb[b]);
                                    } else if a < tb.len() {
                                        assert(tb.contains(t[a]));
                                    } else {
                                        assert(tb.contains(t[b]));
                                    }
                                }
                            }
                            assert(child_of(ns, es, p@, c@));
                            assert(contained(ns, es, element@, p@));
                            lemma_contained_step(ns, es, element@, p@, c@);
                            assert(is_node(ns, c@));
                            let i = choose|i: int| 0 <= i < ns.len() && #[trigger] ns[i].id@ == c@;
                            assert(ids[i] == c@);
                            assert forall|y: Seq<char>| texts(before_seen).contains(y) implies texts(seen@).contains(y) by {
                                lemma_listed_push(before_seen, c, y);
                            }
                            assert(listed(seen@, c@)) by {
                                lemma_listed_push(before_seen, c, c@);
                            }
                            assert forall|y: Seq<char>| listed(seen_before, y) implies #[trigger] listed(seen@, y) by {
                                lemma_listed_push(before_seen, c, y);
                            }
                            lemma_unseen_shrinks(ids, texts(before_seen), texts(seen@), c@);
                            assert forall|y: Seq<char>| texts(seen_before).contains(y) implies texts(seen@).contains(y) by {
                                assert(listed(seen_before, y));
                                assert(listed(seen@, y));
                            }
                            lemma_unseen_shrinks(ids, texts(seen_before), texts(seen@), c@);
                            assert forall|x: Seq<char>| #[trigger] listed(seen@, x) implies contained(ns, es, element@, x) by {
                                lemma_listed_push(before_seen, c, x);
                            }
                            assert forall|y: Seq<char>| #[trigger] listed(seen@, y) && !listed(seen_before, y) implies ids.contains(y) by {
                                lemma_listed_push(before_seen, c, y);
                            }
                            assert forall|x: Seq<char>| #[trigger] listed(stack@, x) implies listed(seen@, x) by {
                                lemma_listed_push(before_stack, c, x);
                                lemma_listed_push(before_seen, c, x);
                            }
                            assert forall|x: Seq<char>| listed(stack_before, x) && x != p@ implies #[trigger] listed(stack@, x) by {
                                lemma_listed_push(before_stack, c, x);
                            }
                            assert forall|m: Seq<char>, d: Seq<char>| #[trigger] listed(seen@, m) && #[trigger] child_of(ns, es, m, d) && m != p@ implies listed(stack@, m) || listed(seen@, d) by {
                                lemma_listed_push(before_seen, c, m);
                                lemma_listed_push(before_seen, c, d);
                                lemma_listed_push(before_stack, c, m);
                            }
                            assert forall|b: int, d: Seq<char>| 0 <= b < j + 1 && #[trigger] holds_part(ns, es[b], p@, d) implies listed(seen@, d) by {
                                lemma_listed_push(before_seen, c, d);
                            }
                            assert(listed(seen@, p@)) by {
                                lemma_listed_push(before_seen, c, p@);
                            }
                            assert(listed(seen@, element@)) by {
                                lemma_listed_push(before_seen, c, element@);
                            }
                        }
                    }
                },
                None => {},
            }
            j = j + 1;
        }
        proof {
            assert forall|m: Seq<char>, c: Seq<char>| #[trigger] listed(seen@, m) && #[trigger] child_of(ns, es, m, c) implies listed(stack@, m) || listed(seen@, c) by {
                if m == p@ {
                    let b = choose|b: int| 0 <= b < es.len() && #[trigger] holds_part(ns, es[b], m, c);
                }
            }
            if seen@.len() == seen_before.len() {
                assert(stack@.len() < stack_before.len());
            }
        }
    }
    proof {
        assert forall|x: Seq<char>| #[trigger] listed(seen@, x) <==> contained(ns, es, element@, x) by {
            if contained(ns, es, element@, x) {
                let path = choose|path: Seq<Seq<char>>| #[trigger] is_descent(ns, es, path, element@, x);
                assert forall|m: Seq<char>, c: Seq<char>| #[trigger] listed(seen@, m) && #[trigger] child_of(ns, es, m, c) implies listed(seen@, c) by {
                    assert(!listed(stack@, m));
                }
                lemma_closed_reaches_all(ns, es, element@, seen@, x, path);
            }
        }
    }
    seen
}

// ---------------------------------------------------------------------------
// Applying a scope.

/// The drawing a scope resolves to: the sub-graph to draw, and what it is a subset of. The
/// counts travel with the drawing because they are what makes a filtered picture honest.
pub struct ScopedGraph {
    pub graph: Graph,
    pub scope: DiagramScope,
    /// The element the scope is centred on, for the element-centred scopes.
    pub focus: Option<Focus>,
    pub elements: usize,
    pub relationships: usize,
    pub total_elements: usize,
    pub total_relationships: usize,
}

/// Whether two scopes ask for the same drawing.
pub open spec fn same_scope(a: DiagramScope, b: DiagramScope) -> bool {
    match (a, b) {
        (DiagramScope::Full, DiagramScope::Full) => true,
        (DiagramScope::Kinds(x), DiagramScope::Kinds(y)) => texts(x@) == texts(y@),
        (
            DiagramScope::Neighbourhood { element: e1, hops: h1 },
            DiagramScope::Neighbourhood { element: e2, hops: h2 },
        ) => e1@ == e2@ && h1 == h2,
        (DiagramScope::Containment { element: e1 }, DiagramScope::Containment { element: e2 }) => e1@ == e2@,
        _ => false,
    }
}

/// The element a scope centres on, if it centres on one.
pub open spec fn centre(scope: DiagramScope) -> Option<Seq<char>> {
    match scope {
        DiagramScope::Neighbourhood { element, .. } => Some(element@),
        DiagramScope::Containment { element } => Some(element@),
        _ => None,
    }
}

/// How an element is named in a caption: its name, or its id when it has none.
pub open spec fn shown_name(n: GraphNode) -> Seq<char> {
    if n.name@.len() == 0 {
        n.id@
    } else {
        n.name@
    }
}

/// Whether `sg` is the drawing `scope` resolves to on the graph `nodes`, `edges`.
pub open spec fn resolves_to(scope: DiagramScope, nodes: Seq<GraphNode>, edges: Seq<GraphEdge>, sg: ScopedGraph) -> bool {
    &&& sg.graph.nodes@ == kept_nodes(scope, nodes, edges)
    &&& sg.graph.edges@ == kept_edges(scope, nodes, edges)
    &&& same_scope(sg.scope, scope)
    &&& sg.elements == sg.graph.nodes@.len()
    &&& sg.relationships == sg.graph.edges@.len()
    &&& sg.total_elements == nodes.len()
    &&& sg.total_relationships == edges.len()
    &&& match centre(scope) {
        Some(id) => match first_node(nodes, id) {
            Some(i) => sg.focus matches Some(f) && f.name@ == shown_name(nodes[i]) && f.id@ == nodes[i].id@,
            None => false,
        },
        None => sg.focus is None,
    }
}

/// Why a scope cannot be drawn on a graph, if it cannot: a kind no element has (the first such
/// kind asked for), or a centre the model does not define.
pub open spec fn refusal_of(scope: DiagramScope, nodes: Seq<GraphNode>) -> Option<(bool, Seq<char>)> {
    match scope {
        DiagramScope::Kinds(kinds) => match first_missing_kind(nodes, texts(kinds@)) {
            Some(i) => Some((false, texts(kinds@)[i])),
            None => None,
        },
        DiagramScope::Neighbourhood { element, .. } => if is_node(nodes, element@) {
            None
        } else {
            Some((true, element@))
        },
        DiagramScope::Containment { element } => if is_node(nodes, element@) {
            None
        } else {
            Some((true, element@))
        },
        DiagramScope::Full => None,
    }
}

proof fn lemma_first_node(nodes: Seq<GraphNode>, id: Seq<char>)
    ensures
        match first_node(nodes, id) {
            Some(i) => 0 <= i < nodes.len() && nodes[i].id@ == id && is_node(nodes, id),
            None => !is_node(nodes, id),
        },
    decreases nodes.len(),
{
    if nodes.len() > 0 {
        lemma_first_node(nodes.drop_first(), id);
        if nodes[0].id@ != id {
            match first_node(nodes.drop_first(), id) {
                Some(i) => {
                    assert(nodes.drop_first()[i] == nodes[i + 1]);
                },
                None => {
                    assert forall|k: int| 0 <= k < nodes.len() implies #[trigger] nodes[k].id@ != id by {
                        if k > 0 {
                            assert(nodes.drop_first()[k - 1] == nodes[k]);
                        }
                    }
                },
            }
        }
    }
}

/// The first element with this id.
fn find_node(nodes: &Vec<GraphNode>, id: &String) -> (r: Option<usize>)
    ensures
        match r {
            Some(j) => first_node(nodes@, id@) == Some(j as int),
            None => first_node(nodes@, id@) is None,
        },
{
    let mut i: usize = 0;
    proof {
        assert(nodes@.skip(0) =~= nodes@);
    }
    while i < nodes.len()
        invariant
            i <= nodes@.len(),
            forall|j: int| 0 <= j < i ==> nodes@[j].id@ != id@,
            first_node(nodes@, id@) == match first_node(nodes@.skip(i as int), id@) {
                Some(k) => Some(k + i),
                None => None::<int>,
            },
        decreases nodes@.len() - i,
    {
        if nodes[i].id == *id {
            proof {
                assert(nodes@.skip(i as int)[0] == nodes@[i as int]);
            }
            return Some(i);
        }
        proof {
            assert(nodes@.skip(i as int).drop_first() =~= nodes@.skip(i + 1));
            assert(nodes@.skip(i as int)[0] == nodes@[i as int]);
        }
        i = i + 1;
    }
    None
}

/// A copy of a text list.
fn copy_texts(v: &Vec<String>) -> (r: Vec<String>)
    ensures
        r@ == v@,
{
    let mut out: Vec<String> = Vec::new();
    let mut i: usize = 0;
    while i < v.len()
        invariant
            i <= v@.len(),
            out@ == v@.take(i as int),
        decreases v@.len() - i,
    {
        out.push(v[i].clone());
        proof {
            assert(v@.take(i + 1) =~= v@.take(i as int).push(v@[i as int]));
        }
        i = i + 1;
    }
    proof {
        assert(v@.take(i as int) =~= v@);
    }
    out
}

/// A copy of a scope.
fn copy_scope(s: &DiagramScope) -> (r: DiagramScope)
    ensures
        same_scope(r, *s),
{
    match s {
        DiagramScope::Full => DiagramScope::Full,
        DiagramScope::Kinds(kinds) => DiagramScope::Kinds(copy_texts(kinds)),
        DiagramScope::Neighbourhood { element, hops } => DiagramScope::Neighbourhood { element: element.clone(), hops: *hops },
        DiagramScope::Containment { element } => DiagramScope::Containment { element: element.clone() },
    }
}

/// The ids of the elements with one of the asked-for kinds.
fn ids_of_kinds(nodes: &Vec<GraphNode>, kinds: &Vec<String>) -> (r: Vec<String>)
    ensures
        forall|x: Seq<char>| #[trigger] listed(r@, x) <==> of_kinds(nodes@, texts(kinds@), x),
{
    let mut out: Vec<String> = Vec::new();
    let mut i: usize = 0;
    while i < nodes.len()
        invariant
            i <= nodes@.len(),
            forall|x: Seq<char>| #[trigger] listed(out@, x) <==> exists|j: int| 0 <= j < i && #[trigger] nodes@[j].id@ == x
                && texts(kinds@).contains(nodes@[j].kind@),
        decreases nodes@.len() - i,
    {
        if holds(kinds, &nodes[i].kind) {
            let ghost before = out@;
            out.push(nodes[i].id.clone());
            proof {
                assert forall|x: Seq<char>| #[trigger] listed(out@, x) <==> exists|j: int| 0 <= j < i + 1 && #[trigger] nodes@[j].id@ == x
                    && texts(kinds@).contains(nodes@[j].kind@) by {
                    lemma_listed_push(before, nodes@[i as int].id, x);
                }
            }
        } else {
            proof {
                assert forall|x: Seq<char>| #[trigger] listed(out@, x) <==> exists|j: int| 0 <= j < i + 1 && #[trigger] nodes@[j].id@ == x
                    && texts(kinds@).contains(nodes@[j].kind@) by {
                    if exists|j: int| 0 <= j < i + 1 && #[trigger] nodes@[j].id@ == x && texts(kinds@).contains(nodes@[j].kind@) {
                        let j = choose|j: int| 0 <= j < i + 1 && #[trigger] nodes@[j].id@ == x && texts(kinds@).contains(nodes@[j].kind@);
                        assert(j != i);
                    }
                }
            }
        }
        i = i + 1;
    }
    out
}

/// A copy of an element.
fn copy_node(n: &GraphNode) -> (r: GraphNode)
    ensures
        r == *n,
{
    GraphNode { id: n.id.clone(), name: n.name.clone(), kind: n.kind.clone() }
}

/// A copy of a relationship.
fn copy_edge(e: &GraphEdge) -> (r: GraphEdge)
    ensures
        r == *e,
{
    GraphEdge { source: e.source.clone(), target: e.target.clone(), kind: e.kind.clone(), label: e.label.clone() }
}

/// The elements and relationships a scope keeps, given which ids it keeps (all, for none).
fn filter_graph(graph: &Graph, keep: &Option<Vec<String>>, scope: Ghost<DiagramScope>) -> (r: Graph)
    requires
        match keep {
            Some(list) => forall|x: Seq<char>| #[trigger] listed(list@, x) <==> keeps(scope@, graph.nodes@, graph.edges@, x),
            None => forall|x: Seq<char>| #[trigger] keeps(scope@, graph.nodes@, graph.edges@, x),
        },
    ensures
        r.nodes@ == kept_nodes(scope@, graph.nodes@, graph.edges@),
        r.edges@ == kept_edges(scope@, graph.nodes@, graph.edges@),
{
    let ghost ns = graph.nodes@;
    let ghost es = graph.edges@;
    let ghost keep_node = |n: GraphNode| keeps(scope@, ns, es, n.id@);
    let ghost keep_edge = |e: GraphEdge| keeps(scope@, ns, es, e.source@) && keeps(scope@, ns, es, e.target@);
    let mut nodes: Vec<GraphNode> = Vec::new();
    let mut i: usize = 0;
    proof {
        assert(nodes@ =~= ns.take(0).filter(keep_node));
    }
    while i < graph.nodes.len()
        invariant
            ns == graph.nodes@,
            es == graph.edges@,
            keep_node == (|n: GraphNode| keeps(scope@, ns, es, n.id@)),
            match keep {
                Some(list) => forall|x: Seq<char>| #[trigger] listed(list@, x) <==> keeps(scope@, ns, es, x),
                None => forall|x: Seq<char>| #[trigger] keeps(scope@, ns, es, x),
            },
            i <= ns.len(),
            nodes@ == ns.take(i as int).filter(keep_node),
        decreases ns.len() - i,
    {
        let n = &graph.nodes[i];
        let wanted = match keep {
            Some(list) => holds(list, &n.id),
            None => true,
        };
        proof {
            assert(ns.take(i + 1) =~= ns.take(i as int).push(ns[i as int]));
            ns.take(i as int).lemma_filter_push(ns[i as int], keep_node);
            match keep {
                Some(list) => {
                    assert(listed(list@, n.id@) == keeps(scope@, ns, es, n.id@));
                },
                None => {
                    assert(keeps(scope@, ns, es, n.id@));
                },
            }
        }
        if wanted {
            nodes.push(copy_node(n));
        }
        i = i + 1;
    }
    proof {
        assert(ns.take(i as int) =~= ns);
    }
    let mut edges: Vec<GraphEdge> = Vec::new();
    let mut j: usize = 0;
    proof {
        assert(edges@ =~= es.take(0).filter(keep_edge));
    }
    while j < graph.edges.len()
        invariant
            ns == graph.nodes@,
            es == graph.edges@,
            keep_edge == (|e: GraphEdge| keeps(scope@, ns, es, e.source@) && keeps(scope@, ns, es, e.target@)),
            match keep {
                Some(list) => forall|x: Seq<char>| #[trigger] listed(list@, x) <==> keeps(scope@, ns, es, x),
                None => forall|x: Seq<char>| #[trigger] keeps(scope@, ns, es, x),
            },
            j <= es.len(),
            edges@ == es.take(j as int).filter(keep_edge),
        decreases es.len() - j,
    {
        let e = &graph.edges[j];
        let wanted = match keep {
            Some(list) => holds(list, &e.source) && holds(list, &e.target),
            None => true,
        };
        proof {
            assert(es.take(j + 1) =~= es.take(j as int).push(es[j as int]));
            es.take(j as int).lemma_filter_push(es[j as int], keep_edge);
            match keep {
                Some(list) => {
                    assert(listed(list@, e.source@) == keeps(scope@, ns, es, e.source@));
                    assert(listed(list@, e.target@) == keeps(scope@, ns, es, e.target@));
                },
                None => {
                    assert(keeps(scope@, ns, es, e.source@));
                    assert(keeps(scope@, ns, es, e.target@));
                },
            }
        }
        if wanted {
            edges.push(copy_edge(e));
        }
        j = j + 1;
    }
    proof {
        assert(es.take(j as int) =~= es);
    }
    Graph { nodes, edges }
}

impl DiagramScope {
    /// Resolve this scope against a model: the sub-graph to draw, plus the counts that keep a
    /// filtered picture honest, or why the scope cannot be drawn. The subsets are filtered out
    /// of the model's own element and relationship order, so the same scope always yields the
    /// same drawing.
    pub fn apply(&self, graph: &Graph) -> (r: Result<ScopedGraph, ScopeError>)
        ensures
            match refusal_of(*self, graph.nodes@) {
                Some((true, id)) => r matches Err(ScopeError::UnknownElement(e)) && e@ == id,
                Some((false, kind)) => r matches Err(ScopeError::NoSuchKind(k)) && k@ == kind,
                None => r matches Ok(sg) && resolves_to(*self, graph.nodes@, graph.edges@, sg),
            },
    {
        let ghost ns = graph.nodes@;
        let ghost es = graph.edges@;
        let keep: Option<Vec<String>> = match self {
            DiagramScope::Full => None,
            DiagramScope::Kinds(kinds) => {
                match missing_kind(&graph.nodes, kinds) {
                    Some(i) => {
                        proof {
                            assert(texts(kinds@)[i as int] == kinds@[i as int]@);
                        }
                        return Err(ScopeError::NoSuchKind(kinds[i].clone()));
                    },
                    None => {},
                }
                Some(ids_of_kinds(&graph.nodes, kinds))
            },
            DiagramScope::Neighbourhood { element, hops } => {
                let radius = if *hops < MAX_HOPS {
                    *hops
                } else {
                    MAX_HOPS
                };
                Some(neighbourhood(graph, element, radius))
            },
            DiagramScope::Containment { element } => Some(descendants(graph, element)),
        };
        let focus: Option<Focus> = match self {
            DiagramScope::Neighbourhood { element, .. } | DiagramScope::Containment { element } => {
                proof {
                    lemma_first_node(ns, element@);
                }
                match find_node(&graph.nodes, element) {
                    Some(i) => {
                        let n = &graph.nodes[i];
                        let name = if n.name.as_str().is_empty() {
                            n.id.clone()
                        } else {
                            n.name.clone()
                        };
                        Some(Focus { name, id: n.id.clone() })
                    },
                    None => {
                        return Err(ScopeError::UnknownElement(element.clone()));
                    },
                }
            },
            _ => None,
        };
        let drawn = filter_graph(graph, &keep, Ghost(*self));
        let elements = drawn.nodes.len();
        let relationships = drawn.edges.len();
        Ok(
            ScopedGraph {
                graph: drawn,
                scope: copy_scope(self),
                focus,
                elements,
                relationships,
                total_elements: graph.nodes.len(),
                total_relationships: graph.edges.len(),
            },
        )
    }
}

/// The centred element as a caption names it, or the id the scope asked for when it could
/// not be named.
pub open spec fn focus_text(sg: ScopedGraph) -> Seq<char> {
    match sg.focus {
        Some(f) => focus_words(f),
        None => match centre(sg.scope) {
            Some(id) => id,
            None => Seq::empty(),
        },
    }
}

/// The human phrase for a caption: what the picture is of.
pub open spec fn label_text(sg: ScopedGraph) -> Seq<char> {
    match sg.scope {
        DiagramScope::Full => "the whole model"@,
        DiagramScope::Kinds(kinds) => "only "@ + joined(texts(kinds@).map_values(|k: Seq<char>| kind_words(k)), " + "@)
            + " elements"@,
        DiagramScope::Neighbourhood { hops, .. } => focus_text(sg) + " and everything within "@ + decimal(hops as nat)
            + " relationship"@ + if hops == 1 {
            Seq::<char>::empty()
        } else {
            "s"@
        },
        DiagramScope::Containment { .. } => focus_text(sg) + " and its containment descendants"@,
    }
}

/// The counts as the caption states them: "42/99 elements, 60/165 relationships".
pub open spec fn counts_text(sg: ScopedGraph) -> Seq<char> {
    decimal(sg.elements as nat) + "/"@ + decimal(sg.total_elements as nat) + " elements, "@ + decimal(
        sg.relationships as nat,
    ) + "/"@ + decimal(sg.total_relationships as nat) + " relationships"@
}

impl ScopedGraph {
    /// The centred element, or the id the scope was asked for when it could not be named.
    pub fn focus_label(&self) -> (r: String)
        ensures
            r@ == focus_text(*self),
    {
        match &self.focus {
            Some(f) => f.label(),
            None => match &self.scope {
                DiagramScope::Neighbourhood { element, .. } => element.clone(),
                DiagramScope::Containment { element } => element.clone(),
                _ => String::new(),
            },
        }
    }

    /// The human phrase for a caption: what the picture is of.
    pub fn label(&self) -> (r: String)
        ensures
            r@ == label_text(*self),
    {
        match &self.scope {
            DiagramScope::Full => String::from_str("the whole model"),
            DiagramScope::Kinds(kinds) => {
                let mut labels: Vec<String> = Vec::new();
                let mut i: usize = 0;
                while i < kinds.len()
                    invariant
                        i <= kinds@.len(),
                        texts(labels@) == texts(kinds@).map_values(|k: Seq<char>| kind_words(k)).take(i as int),
                    decreases kinds@.len() - i,
                {
                    let l = kind_label(kinds[i].as_str());
                    let ghost before = labels@;
                    labels.push(l);
                    proof {
                        assert(texts(labels@) =~= texts(before).push(kind_words(kinds@[i as int]@)));
                        assert(texts(kinds@).map_values(|k: Seq<char>| kind_words(k)).take(i + 1) =~= texts(kinds@).map_values(
                            |k: Seq<char>| kind_words(k),
                        ).take(i as int).push(kind_words(kinds@[i as int]@)));
                    }
                    i = i + 1;
                }
                proof {
                    assert(texts(kinds@).map_values(|k: Seq<char>| kind_words(k)).take(i as int) =~= texts(kinds@).map_values(
                        |k: Seq<char>| kind_words(k),
                    ));
                }
                let mut s = String::from_str("only ");
                let list = join_texts(&labels, " + ");
                append_text(&mut s, list.as_str());
                append_text(&mut s, " elements");
                s
            },
            DiagramScope::Neighbourhood { hops, .. } => {
                let mut s = self.focus_label();
                append_text(&mut s, " and everything within ");
                append_number(&mut s, *hops as u64);
                append_text(&mut s, " relationship");
                if *hops != 1 {
                    append_text(&mut s, "s");
                } else {
                    proof {
                        assert(s@ + Seq::<char>::empty() =~= s@);
                    }
                }
                s
            },
            DiagramScope::Containment { .. } => {
                let mut s = self.focus_label();
                append_text(&mut s, " and its containment descendants");
                s
            },
        }
    }

    /// The counts as the caption states them.
    pub fn counts(&self) -> (r: String)
        ensures
            r@ == counts_text(*self),
    {
        let mut s = String::new();
        append_number(&mut s, self.elements as u64);
        append_text(&mut s, "/");
        append_number(&mut s, self.total_elements as u64);
        append_text(&mut s, " elements, ");
        append_number(&mut s, self.relationships as u64);
        append_text(&mut s, "/");
        append_number(&mut s, self.total_relationships as u64);
        append_text(&mut s, " relationships");
        proof {
            assert(Seq::<char>::empty() + decimal(self.elements as nat) =~= decimal(self.elements as nat));
        }
        s
    }

    /// Whether this drawing is the whole model. Only this one may be called complete.
    pub fn is_full(&self) -> (r: bool)
        ensures
            r == (self.scope is Full),
    {
        match self.scope {
            DiagramScope::Full => true,
            _ => false,
        }
    }
}

// ---------------------------------------------------------------------------
// What every drawing keeps.

proof fn lemma_filter_everything<A>(s: Seq<A>, pred: spec_fn(A) -> bool)
    requires
        forall|i: int| 0 <= i < s.len() ==> pred(#[trigger] s[i]),
    ensures
        s.filter(pred) == s,
    decreases s.len(),
{
    reveal(Seq::filter);
    if s.len() > 0 {
        assert forall|i: int| 0 <= i < s.drop_last().len() implies pred(#[trigger] s.drop_last()[i]) by {
            assert(s.drop_last()[i] == s[i]);
        }
        lemma_filter_everything(s.drop_last(), pred);
        assert(pred(s[s.len() - 1]));
        assert(s.drop_last().push(s.last()) =~= s);
    } else {
        assert(s.filter(pred) =~= s);
    }
}

/// The whole model is drawn exactly as it is: every element and every relationship, in the
/// model's order, so nothing can be lost to the scope machinery.
pub proof fn lemma_full_scope_draws_everything(nodes: Seq<GraphNode>, edges: Seq<GraphEdge>)
    ensures
        kept_nodes(DiagramScope::Full, nodes, edges) == nodes,
        kept_edges(DiagramScope::Full, nodes, edges) == edges,
{
    lemma_filter_everything(nodes, |n: GraphNode| keeps(DiagramScope::Full, nodes, edges, n.id@));
    lemma_filter_everything(
        edges,
        |e: GraphEdge| keeps(DiagramScope::Full, nodes, edges, e.source@) && keeps(DiagramScope::Full, nodes, edges, e.target@),
    );
}

/// What a narrowed scope that can be drawn keeps is an element the model defines.
proof fn lemma_kept_is_node(scope: DiagramScope, nodes: Seq<GraphNode>, edges: Seq<GraphEdge>, x: Seq<char>)
    requires
        !(scope is Full),
        refusal_of(scope, nodes) is None,
        keeps(scope, nodes, edges, x),
    ensures
        is_node(nodes, x),
{
    match scope {
        DiagramScope::Kinds(kinds) => {
            let i = choose|i: int| 0 <= i < nodes.len() && #[trigger] nodes[i].id@ == x && texts(kinds@).contains(nodes[i].kind@);
        },
        DiagramScope::Neighbourhood { element, hops } => {
            let path = choose|path: Seq<Seq<char>>| #[trigger] is_walk(nodes, edges, path, element@, x) && path.len() <= radius(hops) + 1;
            if path.len() > 1 {
                assert(walk_step(nodes, edges, path, path.len() - 2));
                let j = choose|j: int| 0 <= j < edges.len() && #[trigger] joins(nodes, edges[j], path[path.len() - 2], x);
            }
        },
        DiagramScope::Containment { element } => {
            let path = choose|path: Seq<Seq<char>>| #[trigger] is_descent(nodes, edges, path, element@, x);
            if path.len() > 1 {
                assert(part_step(nodes, edges, path, path.len() - 2));
                let j = choose|j: int| 0 <= j < edges.len() && #[trigger] holds_part(nodes, edges[j], path[path.len() - 2], x);
            }
        },
        DiagramScope::Full => {},
    }
}

/// A narrowed drawing never shows a relationship without both of its elements: each end of
/// every relationship it keeps is an element it keeps. An edge with one end filtered out would
/// otherwise be drawn as unresolved, which would be an artefact of the scope rather than a fact
/// about the model.
pub proof fn lemma_scoped_edges_keep_both_ends(scope: DiagramScope, nodes: Seq<GraphNode>, edges: Seq<GraphEdge>)
    requires
        !(scope is Full),
        refusal_of(scope, nodes) is None,
    ensures
        forall|j: int| 0 <= j < kept_edges(scope, nodes, edges).len() ==> is_node(
            kept_nodes(scope, nodes, edges),
            #[trigger] kept_edges(scope, nodes, edges)[j].source@,
        ) && is_node(kept_nodes(scope, nodes, edges), kept_edges(scope, nodes, edges)[j].target@),
{
    let keep_node = |n: GraphNode| keeps(scope, nodes, edges, n.id@);
    let keep_edge = |e: GraphEdge| keeps(scope, nodes, edges, e.source@) && keeps(scope, nodes, edges, e.target@);
    let kn = kept_nodes(scope, nodes, edges);
    let ke = kept_edges(scope, nodes, edges);
    assert(kn == nodes.filter(keep_node));
    assert(ke == edges.filter(keep_edge));
    assert forall|j: int| 0 <= j < ke.len() implies is_node(kn, #[trigger] ke[j].source@) && is_node(kn, ke[j].target@) by {
        edges.lemma_filter_pred(keep_edge, j);
        let e = ke[j];
        assert(keep_edge(e));
        lemma_kept_is_node(scope, nodes, edges, e.source@);
        lemma_kept_is_node(scope, nodes, edges, e.target@);
        let a = choose|i: int| 0 <= i < nodes.len() && #[trigger] nodes[i].id@ == e.source@;
        let b = choose|i: int| 0 <= i < nodes.len() && #[trigger] nodes[i].id@ == e.target@;
        nodes.lemma_filter_contains(keep_node, a);
        nodes.lemma_filter_contains(keep_node, b);
        let ka = choose|k: int| 0 <= k < kn.len() && kn[k] == nodes[a];
        let kb = choose|k: int| 0 <= k < kn.len() && kn[k] == nodes[b];
        assert(kn[ka].id@ == e.source@);
        assert(kn[kb].id@ == e.target@);
    }
}

} // verus!
