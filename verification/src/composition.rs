//! The business-process view of the composition page: the activity steps of a model laid out
//! in order, parallel branches side by side.
//!
//! A step follows the steps it waits on: an `include` or `triggers` relationship from one
//! activity to another makes the second wait on the first. Steps are released in waves, the
//! way a queue of ready steps drains; each step's layer is one more than the deepest step it
//! waits on. Steps caught in a cycle can never be released: they are shown after everything
//! else, in one last layer, and the page says that a cycle kept them from being ordered.

use vstd::prelude::*;
use crate::scope::{Graph, GraphEdge, GraphNode};
use crate::sections::Requirement;
use crate::form::ints;
use crate::text::{chars_equal, chars_of};

verus! {

/// A requirement an activity step satisfies, as the step lists it.
pub struct RequirementRef {
    pub req_id: String,
    pub name: String,
}

/// One activity step of the process.
pub struct ProcessStep {
    pub id: String,
    pub name: String,
    /// The role the step is allocated to, when the model names one.
    pub allocated_to: Option<String>,
    pub satisfies: Vec<RequirementRef>,
}

/// Steps that may run side by side.
pub struct ProcessLayer {
    pub steps: Vec<ProcessStep>,
}

/// Whether an element is an activity step.
pub open spec fn is_activity(n: GraphNode) -> bool {
    n.kind@ == "activity"@
}

/// The activity steps of a model, in the model's order.
pub open spec fn activities(nodes: Seq<GraphNode>) -> Seq<GraphNode> {
    nodes.filter(|n: GraphNode| is_activity(n))
}

/// The ids of a model's activity steps, in the model's order.
pub open spec fn activity_ids(nodes: Seq<GraphNode>) -> Seq<Seq<char>> {
    activities(nodes).map_values(|n: GraphNode| n.id@)
}

/// Whether no id occurs twice.
pub open spec fn distinct(ids: Seq<Seq<char>>) -> bool {
    forall|i: int, j: int| 0 <= i < j < ids.len() ==> ids[i] != ids[j]
}

/// Whether a relationship kind orders steps.
pub open spec fn is_flow_kind(kind: Seq<char>) -> bool {
    kind == "include"@ || kind == "triggers"@
}

/// The ordering an edge makes between two activity steps, as positions among the steps:
/// the step it comes from, then the step that waits on it.
pub open spec fn flow_of(ids: Seq<Seq<char>>, e: GraphEdge) -> Option<(int, int)> {
    if is_flow_kind(e.kind@) && ids.contains(e.source@) && ids.contains(e.target@) {
        Some((ids.index_of(e.source@), ids.index_of(e.target@)))
    } else {
        None
    }
}

/// Every ordering the model's edges make between its steps, in edge order.
pub open spec fn flows(ids: Seq<Seq<char>>, edges: Seq<GraphEdge>) -> Seq<(int, int)> {
    edges.filter_map(|e: GraphEdge| flow_of(ids, e))
}

/// The ids and names of the activity steps.
fn collect_activities(nodes: &Vec<GraphNode>) -> (r: (Vec<String>, Vec<String>))
    ensures
        r.0@.map_values(|s: String| s@) == activity_ids(nodes@),
        r.1@.map_values(|s: String| s@) == activities(nodes@).map_values(|n: GraphNode| n.name@),
{
    let ghost keep = |n: GraphNode| is_activity(n);
    let ghost idv = |n: GraphNode| n.id@;
    let ghost namev = |n: GraphNode| n.name@;
    let ghost sv = |s: String| s@;
    let mut ids: Vec<String> = Vec::new();
    let mut names: Vec<String> = Vec::new();
    let mut i: usize = 0;
    proof {
        assert(nodes@.take(0).filter(keep) =~= Seq::<GraphNode>::empty());
        assert(ids@.map_values(sv) =~= nodes@.take(0).filter(keep).map_values(idv));
        assert(names@.map_values(sv) =~= nodes@.take(0).filter(keep).map_values(namev));
    }
    while i < nodes.len()
        invariant
            keep == (|n: GraphNode| is_activity(n)),
            idv == (|n: GraphNode| n.id@),
            namev == (|n: GraphNode| n.name@),
            sv == (|s: String| s@),
            i <= nodes@.len(),
            ids@.map_values(sv) == nodes@.take(i as int).filter(keep).map_values(idv),
            names@.map_values(sv) == nodes@.take(i as int).filter(keep).map_values(namev),
        decreases nodes@.len() - i,
    {
        let n = &nodes[i];
        proof {
            assert(nodes@.take(i + 1) =~= nodes@.take(i as int).push(*n));
            nodes@.take(i as int).lemma_filter_push(*n, keep);
        }
        let kind = chars_of(n.kind.as_str());
        if chars_equal(&kind, "activity") {
            let ghost before_ids = ids@;
            let ghost before_names = names@;
            ids.push(n.id.clone());
            names.push(n.name.clone());
            proof {
                assert(ids@.map_values(sv) =~= before_ids.map_values(sv).push(n.id@));
                assert(names@.map_values(sv) =~= before_names.map_values(sv).push(n.name@));
                assert(nodes@.take(i + 1).filter(keep) == nodes@.take(i as int).filter(keep).push(*n));
                assert(nodes@.take(i + 1).filter(keep).map_values(idv) =~= nodes@.take(i as int).filter(keep).map_values(idv).push(n.id@));
                assert(nodes@.take(i + 1).filter(keep).map_values(namev) =~= nodes@.take(i as int).filter(keep).map_values(namev).push(n.name@));
            }
        } else {
            proof {
                assert(nodes@.take(i + 1).filter(keep) == nodes@.take(i as int).filter(keep));
            }
        }
        i = i + 1;
    }
    proof {
        assert(nodes@.take(i as int) =~= nodes@);
    }
    (ids, names)
}

/// The position of an id among distinct ids, if it is one of them.
pub(crate) fn position_of(ids: &Vec<String>, x: &String) -> (r: Option<usize>)
    requires
        distinct(ids@.map_values(|s: String| s@)),
    ensures
        match r {
            Some(i) => i < ids@.len() && ids@.map_values(|s: String| s@).contains(x@)
                && ids@.map_values(|s: String| s@).index_of(x@) == i as int,
            None => !ids@.map_values(|s: String| s@).contains(x@),
        },
{
    let ghost v = ids@.map_values(|s: String| s@);
    let mut i: usize = 0;
    while i < ids.len()
        invariant
            v == ids@.map_values(|s: String| s@),
            distinct(v),
            i <= ids@.len(),
            forall|j: int| 0 <= j < i ==> v[j] != x@,
        decreases ids@.len() - i,
    {
        if ids[i] == *x {
            proof {
                assert(v[i as int] == x@);
                assert(v.contains(x@));
                let k = v.index_of(x@);
                assert(0 <= k < v.len() && v[k] == x@);
                if k != i as int {
                    if k < i as int {
                        assert(v[k] != v[i as int]);
                    } else {
                        assert(v[i as int] != v[k]);
                    }
                }
            }
            return Some(i);
        }
        i = i + 1;
    }
    proof {
        if v.contains(x@) {
            let k = choose|k: int| 0 <= k < v.len() && v[k] == x@;
            assert(v[k] != x@);
        }
    }
    None
}

/// The orderings between steps, as positions among the steps, in edge order.
fn collect_flows(ids: &Vec<String>, edges: &Vec<GraphEdge>) -> (r: Vec<(usize, usize)>)
    requires
        distinct(ids@.map_values(|s: String| s@)),
    ensures
        r@.map_values(|p: (usize, usize)| (p.0 as int, p.1 as int)) == flows(ids@.map_values(|s: String| s@), edges@),
        forall|j: int| 0 <= j < r@.len() ==> r@[j].0 < ids@.len() && r@[j].1 < ids@.len(),
{
    let ghost v = ids@.map_values(|s: String| s@);
    let ghost f = |e: GraphEdge| flow_of(v, e);
    let ghost pv = |p: (usize, usize)| (p.0 as int, p.1 as int);
    let mut out: Vec<(usize, usize)> = Vec::new();
    let mut i: usize = 0;
    proof {
        assert(out@.map_values(pv) =~= edges@.take(0).filter_map(f));
    }
    while i < edges.len()
        invariant
            v == ids@.map_values(|s: String| s@),
            distinct(v),
            f == (|e: GraphEdge| flow_of(v, e)),
            pv == (|p: (usize, usize)| (p.0 as int, p.1 as int)),
            i <= edges@.len(),
            out@.map_values(pv) == edges@.take(i as int).filter_map(f),
            forall|j: int| 0 <= j < out@.len() ==> out@[j].0 < ids@.len() && out@[j].1 < ids@.len(),
        decreases edges@.len() - i,
    {
        let e = &edges[i];
        proof {
            edges@.lemma_filter_map_take_succ(f, i as int);
        }
        let kind = chars_of(e.kind.as_str());
        let flow_kind = chars_equal(&kind, "include") || chars_equal(&kind, "triggers");
        let mut found: Option<(usize, usize)> = None;
        if flow_kind {
            match position_of(ids, &e.source) {
                Some(s) => match position_of(ids, &e.target) {
                    Some(t) => {
                        found = Some((s, t));
                    },
                    None => {},
                },
                None => {},
            }
        }
        proof {
            match f(*e) {
                Some(p) => {
                    assert(found matches Some(q) && pv(q) == p);
                },
                None => {
                    assert(found is None);
                },
            }
        }
        match found {
            Some(q) => {
                let ghost before = out@;
                out.push(q);
                proof {
                    assert(out@.map_values(pv) =~= before.map_values(pv).push(pv(q)));
                }
            },
            None => {},
        }
        i = i + 1;
    }
    proof {
        assert(edges@.take(i as int) =~= edges@);
    }
    out
}

/// Orderings as positions.
pub open spec fn pairs(flow: Seq<(usize, usize)>) -> Seq<(int, int)> {
    flow.map_values(|p: (usize, usize)| (p.0 as int, p.1 as int))
}

/// Whether every entry of `order` is one of `n` steps.
pub open spec fn within(n: int, order: Seq<int>) -> bool {
    forall|i: int| 0 <= i < order.len() ==> 0 <= #[trigger] order[i] < n
}

/// Whether every step in `order` comes after every step it waits on.
pub open spec fn follows_waits(flow: Seq<(int, int)>, order: Seq<int>) -> bool {
    forall|b: int, j: int|
        #![trigger order[b], flow[j]]
        0 <= b < order.len() && 0 <= j < flow.len() && flow[j].1 == order[b] ==> exists|a: int|
            0 <= a < b && #[trigger] order[a] == flow[j].0
}

/// Whether every step left out of `order` waits on a step that is left out too: the steps no
/// release ever reaches.
pub open spec fn left_blocked(n: int, flow: Seq<(int, int)>, order: Seq<int>) -> bool {
    forall|v: int|
        0 <= v < n && !order.contains(v) ==> exists|j: int|
            0 <= j < flow.len() && #[trigger] flow[j].1 == v && !order.contains(flow[j].0)
}

/// The position in `order` of the last-released step that step `v` waits on, among the first
/// `i` orderings; -1 when it waits on none of them.
pub open spec fn last_wait(flow: Seq<(int, int)>, order: Seq<int>, v: int, i: int) -> int
    decreases i,
{
    if i <= 0 {
        -1
    } else {
        let rest = last_wait(flow, order, v, i - 1);
        if flow[i - 1].1 == v && order.index_of(flow[i - 1].0) > rest {
            order.index_of(flow[i - 1].0)
        } else {
            rest
        }
    }
}

/// The last of the first `i` orderings from the step at position `h` of `order` into step
/// `v`; -1 when there is none.
pub open spec fn release_edge(flow: Seq<(int, int)>, order: Seq<int>, v: int, h: int, i: int) -> int
    decreases i,
{
    if i <= 0 {
        -1
    } else if flow[i - 1].1 == v && order.index_of(flow[i - 1].0) == h {
        i - 1
    } else {
        release_edge(flow, order, v, h, i - 1)
    }
}

/// When step `v` becomes ready: a step that waits on nothing is ready from the start, in the
/// model's order; any other when the ordering from the last of its steps to be released is
/// followed.
pub open spec fn release_key(flow: Seq<(int, int)>, order: Seq<int>, v: int) -> (int, int) {
    let h = last_wait(flow, order, v, flow.len() as int);
    if h < 0 {
        (-1, v)
    } else {
        (h, release_edge(flow, order, v, h, flow.len() as int))
    }
}

/// Whether `a` comes before `b`, first by its first part, then by its second.
pub open spec fn key_before(a: (int, int), b: (int, int)) -> bool {
    a.0 < b.0 || (a.0 == b.0 && a.1 < b.1)
}

/// Whether steps are released in the order they become ready.
pub open spec fn first_in_first_out(flow: Seq<(int, int)>, order: Seq<int>) -> bool {
    forall|a: int, b: int|
        0 <= a < b < order.len() ==> key_before(
            release_key(flow, order, #[trigger] order[a]),
            release_key(flow, order, #[trigger] order[b]),
        )
}

proof fn lemma_index_of_unique(s: Seq<int>, i: int)
    requires
        s.no_duplicates(),
        0 <= i < s.len(),
    ensures
        s.index_of(s[i]) == i,
{
    assert(s.contains(s[i]));
    let k = s.index_of(s[i]);
    assert(0 <= k < s.len() && s[k] == s[i]);
}

proof fn lemma_last_wait_none(flow: Seq<(int, int)>, order: Seq<int>, v: int, i: int)
    requires
        0 <= i <= flow.len(),
        forall|j: int| 0 <= j < i ==> flow[j].1 != v,
    ensures
        last_wait(flow, order, v, i) == -1,
    decreases i,
{
    if i > 0 {
        lemma_last_wait_none(flow, order, v, i - 1);
    }
}

proof fn lemma_last_wait_at_most(flow: Seq<(int, int)>, order: Seq<int>, v: int, h: int, i: int)
    requires
        0 <= i <= flow.len(),
        h >= -1,
        forall|j: int| 0 <= j < i && #[trigger] flow[j].1 == v ==> order.index_of(flow[j].0) <= h,
    ensures
        last_wait(flow, order, v, i) <= h,
        (exists|j: int| 0 <= j < i && #[trigger] flow[j].1 == v && order.index_of(flow[j].0) == h)
            ==> last_wait(flow, order, v, i) == h,
    decreases i,
{
    if i > 0 {
        lemma_last_wait_at_most(flow, order, v, h, i - 1);
        if exists|j: int| 0 <= j < i && #[trigger] flow[j].1 == v && order.index_of(flow[j].0) == h {
            let j = choose|j: int| 0 <= j < i && #[trigger] flow[j].1 == v && order.index_of(flow[j].0) == h;
            if j < i - 1 {
                assert(exists|j2: int| 0 <= j2 < i - 1 && #[trigger] flow[j2].1 == v && order.index_of(flow[j2].0) == h);
            }
        }
    }
}

proof fn lemma_release_edge_at(flow: Seq<(int, int)>, order: Seq<int>, v: int, h: int, k: int, i: int)
    requires
        0 <= k < i <= flow.len(),
        flow[k].1 == v,
        order.index_of(flow[k].0) == h,
        forall|j: int| k < j < i && #[trigger] flow[j].1 == v ==> order.index_of(flow[j].0) != h,
    ensures
        release_edge(flow, order, v, h, i) == k,
    decreases i,
{
    if i - 1 > k {
        lemma_release_edge_at(flow, order, v, h, k, i - 1);
    }
}

proof fn lemma_waits_stable(flow: Seq<(int, int)>, o1: Seq<int>, o2: Seq<int>, v: int, i: int)
    requires
        0 <= i <= flow.len(),
        forall|j: int| 0 <= j < i && #[trigger] flow[j].1 == v ==> o2.index_of(flow[j].0) == o1.index_of(flow[j].0),
    ensures
        last_wait(flow, o1, v, i) == last_wait(flow, o2, v, i),
        forall|h: int| release_edge(flow, o1, v, h, i) == #[trigger] release_edge(flow, o2, v, h, i),
    decreases i,
{
    if i > 0 {
        lemma_waits_stable(flow, o1, o2, v, i - 1);
        assert forall|h: int| release_edge(flow, o1, v, h, i) == #[trigger] release_edge(flow, o2, v, h, i) by {
            assert(release_edge(flow, o1, v, h, i - 1) == release_edge(flow, o2, v, h, i - 1));
        }
    }
}

/// Extending a release order keeps when each step already in it became ready.
proof fn lemma_key_stable(flow: Seq<(int, int)>, o1: Seq<int>, t: int, b: int)
    requires
        o1.push(t).no_duplicates(),
        follows_waits(flow, o1),
        0 <= b < o1.len(),
    ensures
        release_key(flow, o1, o1[b]) == release_key(flow, o1.push(t), o1[b]),
{
    let o2 = o1.push(t);
    let v = o1[b];
    assert(o1.no_duplicates()) by {
        assert forall|x: int, y: int| 0 <= x < o1.len() && 0 <= y < o1.len() && x != y implies o1[x] != o1[y] by {
            assert(o2[x] != o2[y]);
        }
    }
    assert forall|j: int| 0 <= j < flow.len() && #[trigger] flow[j].1 == v implies o2.index_of(flow[j].0) == o1.index_of(flow[j].0) by {
        let a = choose|a: int| 0 <= a < b && #[trigger] o1[a] == flow[j].0;
        lemma_index_of_unique(o1, a);
        assert(o2[a] == o1[a]);
        lemma_index_of_unique(o2, a);
    }
    lemma_waits_stable(flow, o1, o2, v, flow.len() as int);
}

/// Whether `order` is the release order of `n` steps under the orderings `flow`: each step at
/// most once, each after all it waits on, the steps left out each waiting on one left out, and
/// the steps released in the order they become ready.
pub open spec fn release_order_of(n: int, flow: Seq<(int, int)>, order: Seq<int>) -> bool {
    &&& order.no_duplicates()
    &&& within(n, order)
    &&& follows_waits(flow, order)
    &&& left_blocked(n, flow, order)
    &&& first_in_first_out(flow, order)
}

/// How many orderings into step `v`, among the first `i`, are not yet cut.
pub open spec fn remaining(flow: Seq<(int, int)>, cut: Seq<bool>, v: int, i: int) -> nat
    decreases i,
{
    if i <= 0 {
        0
    } else {
        remaining(flow, cut, v, i - 1) + if flow[i - 1].1 == v && !cut[i - 1] {
            1nat
        } else {
            0nat
        }
    }
}

proof fn lemma_remaining_bound(flow: Seq<(int, int)>, cut: Seq<bool>, v: int, i: int)
    requires
        0 <= i,
    ensures
        remaining(flow, cut, v, i) <= i,
    decreases i,
{
    if i > 0 {
        lemma_remaining_bound(flow, cut, v, i - 1);
    }
}

proof fn lemma_remaining_cut(flow: Seq<(int, int)>, cut: Seq<bool>, k: int, v: int, i: int)
    requires
        0 <= k < cut.len(),
        0 <= i <= cut.len(),
    ensures
        remaining(flow, cut.update(k, true), v, i) + (if k < i && flow[k].1 == v && !cut[k] {
            1nat
        } else {
            0nat
        }) == remaining(flow, cut, v, i),
    decreases i,
{
    if i > 0 {
        lemma_remaining_cut(flow, cut, k, v, i - 1);
        assert(cut.update(k, true)[i - 1] == if i - 1 == k { true } else { cut[i - 1] });
    }
}

proof fn lemma_remaining_zero(flow: Seq<(int, int)>, cut: Seq<bool>, v: int, i: int)
    requires
        0 <= i,
    ensures
        remaining(flow, cut, v, i) == 0 <==> (forall|j: int| 0 <= j < i && flow[j].1 == v ==> cut[j]),
    decreases i,
{
    if i > 0 {
        lemma_remaining_zero(flow, cut, v, i - 1);
    }
}

proof fn lemma_distinct_within(n: int, s: Seq<int>)
    requires
        0 <= n,
        s.no_duplicates(),
        within(n, s),
    ensures
        s.len() <= n,
{
    s.unique_seq_to_set();
    vstd::set_lib::lemma_int_range(0, n);
    assert forall|x: int| s.to_set().contains(x) implies vstd::set_lib::set_int_range(0, n).contains(x) by {
        let i = choose|i: int| 0 <= i < s.len() && s[i] == x;
        assert(0 <= s[i] < n);
    }
    vstd::set_lib::lemma_len_subset(s.to_set(), vstd::set_lib::set_int_range(0, n));
}

/// The steps in the order they are released: the steps that wait on nothing first, in the
/// model's order, then each step as soon as the last step it waits on has been released.
fn release(n: usize, flow: &Vec<(usize, usize)>) -> (order: Vec<usize>)
    requires
        forall|j: int| 0 <= j < flow@.len() ==> flow@[j].0 < n && flow@[j].1 < n,
    ensures
        release_order_of(n as int, pairs(flow@), ints(order@)),
{
    let m = flow.len();
    let ghost fv = pairs(flow@);
    let mut indeg: Vec<usize> = Vec::new();
    let mut w: usize = 0;
    while w < n
        invariant
            w <= n,
            indeg@.len() == w,
            forall|x: int| 0 <= x < w ==> indeg@[x] == 0,
        decreases n - w,
    {
        indeg.push(0);
        w = w + 1;
    }
    let ghost mut cut: Seq<bool> = Seq::new(m as nat, |j: int| false);
    let mut j: usize = 0;
    while j < m
        invariant
            m == flow@.len(),
            fv == pairs(flow@),
            forall|q: int| 0 <= q < flow@.len() ==> flow@[q].0 < n && flow@[q].1 < n,
            cut == Seq::new(m as nat, |q: int| false),
            indeg@.len() == n,
            j <= m,
            forall|x: int| 0 <= x < n ==> indeg@[x] == remaining(fv, cut, x, j as int),
        decreases m - j,
    {
        let t = flow[j].1;
        proof {
            lemma_remaining_bound(fv, cut, t as int, j as int);
            assert(fv[j as int] == (flow@[j as int].0 as int, flow@[j as int].1 as int));
            assert forall|x: int| 0 <= x < n implies #[trigger] indeg@[x] + (if x == t as int { 1int } else { 0int })
                == remaining(fv, cut, x, j + 1) by {}
        }
        let d = indeg[t];
        indeg.set(t, d + 1);
        j = j + 1;
    }
    let mut order: Vec<usize> = Vec::new();
    let mut w: usize = 0;
    while w < n
        invariant
            indeg@.len() == n,
            w <= n,
            forall|i: int| 0 <= i < order@.len() ==> order@[i] < w && indeg@[order@[i] as int] == 0,
            forall|a: int, b: int| 0 <= a < b < order@.len() ==> order@[a] < order@[b],
            forall|x: int| 0 <= x < w && indeg@[x] == 0 ==> ints(order@).contains(x),
        decreases n - w,
    {
        if indeg[w] == 0 {
            let ghost before = order@;
            order.push(w);
            proof {
                assert forall|x: int| 0 <= x < w + 1 && indeg@[x] == 0 implies ints(order@).contains(x) by {
                    if x < w {
                        let i = choose|i: int| 0 <= i < ints(before).len() && ints(before)[i] == x;
                        assert(ints(order@)[i] == x);
                    } else {
                        assert(ints(order@)[order@.len() - 1] == x);
                    }
                }
            }
        } else {
            proof {
                assert forall|x: int| 0 <= x < w + 1 && indeg@[x] == 0 implies ints(order@).contains(x) by {
                    assert(x < w);
                }
            }
        }
        w = w + 1;
    }
    proof {
        assert(ints(order@).no_duplicates()) by {
            assert forall|a: int, b: int| 0 <= a < ints(order@).len() && 0 <= b < ints(order@).len() && a != b
                implies ints(order@)[a] != ints(order@)[b] by {
                if a < b {
                    assert(order@[a] < order@[b]);
                } else {
                    assert(order@[b] < order@[a]);
                }
            }
        }
        assert forall|x: int| 0 <= x < n implies (ints(order@).contains(x) <==> indeg@[x] == 0) by {
            if ints(order@).contains(x) {
                let i = choose|i: int| 0 <= i < ints(order@).len() && ints(order@)[i] == x;
                assert(indeg@[order@[i] as int] == 0);
            }
        }
        assert forall|b: int, q: int|
            #![trigger ints(order@)[b], fv[q]]
            0 <= b < ints(order@).len() && 0 <= q < fv.len() && fv[q].1 == ints(order@)[b] implies exists|a: int|
                0 <= a < b && #[trigger] ints(order@)[a] == fv[q].0 by {
            let x = ints(order@)[b];
            assert(indeg@[x] == 0);
            lemma_remaining_zero(fv, cut, x, m as int);
            assert(cut[q]);
        }
        assert forall|b: int| 0 <= b < order@.len() implies #[trigger] release_key(fv, ints(order@), ints(order@)[b])
            == (-1int, ints(order@)[b]) by {
            let x = ints(order@)[b];
            assert(indeg@[x] == 0);
            lemma_remaining_zero(fv, cut, x, m as int);
            assert forall|q: int| 0 <= q < m implies fv[q].1 != x by {
                assert(!cut[q]);
            }
            lemma_last_wait_none(fv, ints(order@), x, m as int);
        }
        assert forall|a: int, b: int| 0 <= a < b < order@.len() implies key_before(
            release_key(fv, ints(order@), #[trigger] ints(order@)[a]),
            release_key(fv, ints(order@), #[trigger] ints(order@)[b]),
        ) by {
            assert(order@[a] < order@[b]);
        }
    }
    let mut head: usize = 0;
    while head < order.len()
        invariant
            m == flow@.len(),
            fv == pairs(flow@),
            forall|q: int| 0 <= q < flow@.len() ==> flow@[q].0 < n && flow@[q].1 < n,
            cut.len() == m,
            indeg@.len() == n,
            head <= order@.len(),
            ints(order@).no_duplicates(),
            within(n as int, ints(order@)),
            forall|x: int| 0 <= x < n ==> indeg@[x] == remaining(fv, cut, x, m as int),
            forall|x: int| 0 <= x < n ==> (ints(order@).contains(x) <==> indeg@[x] == 0),
            forall|q: int| 0 <= q < m ==> (cut[q] <==> ints(order@).take(head as int).contains(fv[q].0)),
            follows_waits(fv, ints(order@)),
            first_in_first_out(fv, ints(order@)),
            forall|b: int| 0 <= b < order@.len() ==> key_before(
                release_key(fv, ints(order@), #[trigger] ints(order@)[b]),
                (head as int, 0),
            ),
        decreases n - head,
    {
        proof {
            lemma_distinct_within(n as int, ints(order@));
        }
        let u = order[head];
        let ghost taken = ints(order@).take(head as int);
        let mut k: usize = 0;
        while k < m
            invariant
                m == flow@.len(),
                fv == pairs(flow@),
                forall|q: int| 0 <= q < flow@.len() ==> flow@[q].0 < n && flow@[q].1 < n,
                cut.len() == m,
                indeg@.len() == n,
                head < order@.len(),
                u == order@[head as int],
                taken == ints(order@).take(head as int),
                k <= m,
                ints(order@).no_duplicates(),
                within(n as int, ints(order@)),
                forall|x: int| 0 <= x < n ==> indeg@[x] == remaining(fv, cut, x, m as int),
                forall|x: int| 0 <= x < n ==> (ints(order@).contains(x) <==> indeg@[x] == 0),
                forall|q: int| 0 <= q < m ==> (cut[q] <==> (taken.contains(fv[q].0) || (fv[q].0 == u && q < k))),
                follows_waits(fv, ints(order@)),
                first_in_first_out(fv, ints(order@)),
                forall|b: int| 0 <= b < order@.len() ==> key_before(
                    release_key(fv, ints(order@), #[trigger] ints(order@)[b]),
                    (head as int, k as int),
                ),
            decreases m - k,
        {
            let (s, t) = flow[k];
            proof {
                assert(fv[k as int] == (s as int, t as int));
            }
            if s == u {
                proof {
                    assert(!taken.contains(u as int)) by {
                        if taken.contains(u as int) {
                            let a = choose|a: int| 0 <= a < taken.len() && taken[a] == u as int;
                            assert(ints(order@)[a] == ints(order@)[head as int]);
                        }
                    }
                    assert(!cut[k as int]);
                    lemma_remaining_cut(fv, cut, k as int, t as int, m as int);
                    assert forall|x: int| 0 <= x < n && x != t implies remaining(fv, cut.update(k as int, true), x, m as int)
                        == remaining(fv, cut, x, m as int) by {
                        lemma_remaining_cut(fv, cut, k as int, x, m as int);
                    }
                }
                let d = indeg[t];
                indeg.set(t, d - 1);
                proof {
                    cut = cut.update(k as int, true);
                }
                if d - 1 == 0 {
                    let ghost before = ints(order@);
                    proof {
                        assert(!before.contains(t as int));
                    }
                    order.push(t);
                    proof {
                        let after = ints(order@);
                        assert(after =~= before.push(t as int));
                        assert(after.take(head as int) =~= taken);
                        assert(after.no_duplicates()) by {
                            assert forall|a: int, b: int| 0 <= a < after.len() && 0 <= b < after.len() && a != b
                                implies after[a] != after[b] by {
                                if a < before.len() && b < before.len() {
                                    assert(before[a] != before[b]);
                                } else if a < before.len() {
                                    assert(before.contains(after[a]));
                                } else {
                                    assert(before.contains(after[b]));
                                }
                            }
                        }
                        assert forall|x: int| 0 <= x < n implies (after.contains(x) <==> indeg@[x] == 0) by {
                            if x == t as int {
                                assert(after[after.len() - 1] == x);
                            } else if after.contains(x) {
                                let i = choose|i: int| 0 <= i < after.len() && after[i] == x;
                                assert(before[i] == x);
                            } else {
                                if before.contains(x) {
                                    let i = choose|i: int| 0 <= i < before.len() && before[i] == x;
                                    assert(after[i] == x);
                                }
                            }
                        }
                        assert forall|b: int, q: int|
                            #![trigger after[b], fv[q]]
                            0 <= b < after.len() && 0 <= q < fv.len() && fv[q].1 == after[b] implies exists|a: int|
                                0 <= a < b && #[trigger] after[a] == fv[q].0 by {
                            if b < before.len() {
                                assert(before[b] == after[b]);
                                let a = choose|a: int| 0 <= a < b && #[trigger] before[a] == fv[q].0;
                                assert(after[a] == fv[q].0);
                            } else {
                                lemma_remaining_zero(fv, cut, t as int, m as int);
                                assert(cut[q]);
                                if taken.contains(fv[q].0) {
                                    let a = choose|a: int| 0 <= a < taken.len() && taken[a] == fv[q].0;
                                    assert(after[a] == fv[q].0);
                                } else {
                                    assert(after[head as int] == fv[q].0);
                                }
                            }
                        }
                        lemma_index_of_unique(after, head as int);
                        assert forall|q: int| 0 <= q < m && #[trigger] fv[q].1 == t as int
                            implies after.index_of(fv[q].0) <= head && (q > k ==> after.index_of(fv[q].0) < head) by {
                            lemma_remaining_zero(fv, cut, t as int, m as int);
                            assert(cut[q]);
                            if taken.contains(fv[q].0) {
                                let a = choose|a: int| 0 <= a < taken.len() && taken[a] == fv[q].0;
                                assert(after[a] == fv[q].0);
                                lemma_index_of_unique(after, a);
                            } else {
                                assert(after[head as int] == fv[q].0);
                            }
                        }
                        lemma_last_wait_at_most(fv, after, t as int, head as int, m as int);
                        lemma_release_edge_at(fv, after, t as int, head as int, k as int, m as int);
                        assert(release_key(fv, after, t as int) == (head as int, k as int));
                        assert forall|b: int| 0 <= b < before.len() implies release_key(fv, before, #[trigger] before[b])
                            == release_key(fv, after, before[b]) by {
                            lemma_key_stable(fv, before, t as int, b);
                        }
                        assert forall|a: int, b: int| 0 <= a < b < after.len() implies key_before(
                            release_key(fv, after, #[trigger] after[a]),
                            release_key(fv, after, #[trigger] after[b]),
                        ) by {
                            assert(after[a] == before[a]);
                            assert(release_key(fv, before, before[a]) == release_key(fv, after, before[a]));
                            if b < before.len() {
                                assert(after[b] == before[b]);
                                assert(release_key(fv, before, before[b]) == release_key(fv, after, before[b]));
                            } else {
                                assert(after[b] == t as int);
                            }
                        }
                        assert forall|b: int| 0 <= b < after.len() implies key_before(
                            release_key(fv, after, #[trigger] after[b]),
                            (head as int, k + 1),
                        ) by {
                            if b < before.len() {
                                assert(after[b] == before[b]);
                                assert(release_key(fv, before, before[b]) == release_key(fv, after, before[b]));
                            }
                        }
                    }
                } else {
                    proof {
                        assert forall|x: int| 0 <= x < n implies (ints(order@).contains(x) <==> indeg@[x] == 0) by {
                            if x == t as int {
                                assert(indeg@[x] != 0);
                            }
                        }
                    }
                }
            }
            k = k + 1;
        }
        proof {
            assert forall|b: int| 0 <= b < order@.len() implies key_before(
                release_key(fv, ints(order@), #[trigger] ints(order@)[b]),
                (head + 1, 0),
            ) by {
                assert(key_before(release_key(fv, ints(order@), ints(order@)[b]), (head as int, m as int)));
            }
            assert(ints(order@).take(head + 1) =~= taken.push(u as int));
            assert forall|q: int| 0 <= q < m implies (cut[q] <==> ints(order@).take(head + 1).contains(fv[q].0)) by {
                if cut[q] && !taken.contains(fv[q].0) {
                    assert(ints(order@).take(head + 1)[head as int] == fv[q].0);
                }
                if ints(order@).take(head + 1).contains(fv[q].0) && !taken.contains(fv[q].0) {
                    let a = choose|a: int| 0 <= a < head + 1 && #[trigger] ints(order@).take(head + 1)[a] == fv[q].0;
                    if a < head {
                        assert(taken[a] == fv[q].0);
                    }
                }
            }
        }
        head = head + 1;
    }
    proof {
        assert(ints(order@).take(head as int) =~= ints(order@));
        assert forall|v: int| 0 <= v < n && !ints(order@).contains(v) implies exists|q: int|
            0 <= q < fv.len() && #[trigger] fv[q].1 == v && !ints(order@).contains(fv[q].0) by {
            assert(indeg@[v] != 0);
            lemma_remaining_zero(fv, cut, v, m as int);
            let q = choose|q: int| 0 <= q < m && fv[q].1 == v && !cut[q];
            assert(!ints(order@).contains(fv[q].0));
        }
    }
    order
}

/// Whether step `v` sits one layer below the deepest step it waits on, or in the first layer
/// when it waits on nothing.
pub open spec fn settled(flow: Seq<(int, int)>, depth: Seq<int>, v: int) -> bool {
    &&& forall|j: int| 0 <= j < flow.len() && #[trigger] flow[j].1 == v ==> depth[flow[j].0] + 1 <= depth[v]
    &&& (depth[v] == 0 || exists|j: int|
        0 <= j < flow.len() && #[trigger] flow[j].1 == v && depth[flow[j].0] + 1 == depth[v])
}

/// The deepest layer among the steps of `order`, or the first when there are none.
pub open spec fn deepest(order: Seq<int>, depth: Seq<int>) -> int
    decreases order.len(),
{
    if order.len() == 0 {
        0
    } else {
        let d = deepest(order.drop_last(), depth);
        if depth[order.last()] > d {
            depth[order.last()]
        } else {
            d
        }
    }
}

/// Whether `depth` gives each of `n` steps its layer: a released step one below the deepest
/// step it waits on, and every step that is never released one layer below all the others.
pub open spec fn layered(n: int, flow: Seq<(int, int)>, order: Seq<int>, depth: Seq<int>) -> bool {
    &&& depth.len() == n
    &&& forall|i: int| 0 <= i < order.len() ==> 0 <= depth[#[trigger] order[i]] && settled(flow, depth, order[i])
    &&& forall|v: int| 0 <= v < n && !order.contains(v) ==> #[trigger] depth[v] == deepest(order, depth) + 1
}

proof fn lemma_deepest_agrees(order: Seq<int>, d1: Seq<int>, d2: Seq<int>)
    requires
        forall|i: int| 0 <= i < order.len() ==> d1[#[trigger] order[i]] == d2[order[i]],
    ensures
        deepest(order, d1) == deepest(order, d2),
    decreases order.len(),
{
    if order.len() > 0 {
        assert(d1[order[order.len() - 1]] == d2[order[order.len() - 1]]);
        lemma_deepest_agrees(order.drop_last(), d1, d2);
    }
}

/// The layer of each step, given the release order.
fn depths(n: usize, flow: &Vec<(usize, usize)>, order: &Vec<usize>) -> (depth: Vec<usize>)
    requires
        forall|j: int| 0 <= j < flow@.len() ==> flow@[j].0 < n && flow@[j].1 < n,
        release_order_of(n as int, pairs(flow@), ints(order@)),
    ensures
        layered(n as int, pairs(flow@), ints(order@), ints(depth@)),
{
    let m = flow.len();
    let ghost fv = pairs(flow@);
    let ghost ov = ints(order@);
    proof {
        lemma_distinct_within(n as int, ov);
    }
    let mut depth: Vec<usize> = Vec::new();
    let mut placed: Vec<bool> = Vec::new();
    let mut w: usize = 0;
    while w < n
        invariant
            w <= n,
            depth@.len() == w,
            placed@.len() == w,
            forall|x: int| 0 <= x < w ==> !placed@[x],
        decreases n - w,
    {
        depth.push(0);
        placed.push(false);
        w = w + 1;
    }
    let mut b: usize = 0;
    while b < order.len()
        invariant
            m == flow@.len(),
            fv == pairs(flow@),
            ov == ints(order@),
            forall|q: int| 0 <= q < flow@.len() ==> flow@[q].0 < n && flow@[q].1 < n,
            release_order_of(n as int, fv, ov),
            ov.len() <= n,
            depth@.len() == n,
            placed@.len() == n,
            b <= order@.len(),
            forall|x: int| 0 <= x < n ==> (placed@[x] <==> ov.take(b as int).contains(x)),
            forall|a: int| 0 <= a < b ==> depth@[#[trigger] order@[a] as int] <= a,
            forall|a: int| 0 <= a < b ==> settled(fv, ints(depth@), #[trigger] ov[a]),
        decreases order@.len() - b,
    {
        let v = order[b];
        proof {
            assert(ov[b as int] == v as int);
            assert(0 <= ov[b as int] < n);
        }
        let mut d: usize = 0;
        let mut k: usize = 0;
        while k < m
            invariant
                m == flow@.len(),
                fv == pairs(flow@),
                ov == ints(order@),
                forall|q: int| 0 <= q < flow@.len() ==> flow@[q].0 < n && flow@[q].1 < n,
                release_order_of(n as int, fv, ov),
                depth@.len() == n,
                placed@.len() == n,
                b < order@.len(),
                v == order@[b as int],
                forall|x: int| 0 <= x < n ==> (placed@[x] <==> ov.take(b as int).contains(x)),
                forall|a: int| 0 <= a < b ==> depth@[#[trigger] order@[a] as int] <= a,
                k <= m,
                d <= b,
                forall|j: int| 0 <= j < k && #[trigger] fv[j].1 == v as int && placed@[fv[j].0] ==> depth@[fv[j].0] + 1 <= d,
                d == 0 || exists|j: int| 0 <= j < k && #[trigger] fv[j].1 == v as int && placed@[fv[j].0] && depth@[fv[j].0] + 1 == d,
            decreases m - k,
        {
            let (s, t) = flow[k];
            proof {
                assert(fv[k as int] == (s as int, t as int));
            }
            if t == v && placed[s] {
                proof {
                    let a = choose|a: int| 0 <= a < b && #[trigger] ov.take(b as int)[a] == s as int;
                    assert(ov[a] == s as int);
                    assert(depth@[order@[a] as int] <= a);
                }
                let cand = depth[s] + 1;
                if cand > d {
                    d = cand;
                }
            }
            k = k + 1;
        }
        proof {
            assert forall|j: int| 0 <= j < m && #[trigger] fv[j].1 == v as int implies placed@[fv[j].0] by {
                assert(ov[b as int] == v as int);
                let a = choose|a: int| 0 <= a < b && #[trigger] ov[a] == fv[j].0;
                assert(ov.take(b as int)[a] == fv[j].0);
            }
        }
        let ghost before = ints(depth@);
        depth.set(v, d);
        placed.set(v, true);
        proof {
            let after = ints(depth@);
            assert(after =~= before.update(v as int, d as int));
            assert(!ov.take(b as int).contains(v as int)) by {
                if ov.take(b as int).contains(v as int) {
                    let a = choose|a: int| 0 <= a < b && #[trigger] ov.take(b as int)[a] == v as int;
                    assert(ov[a] == ov[b as int]);
                }
            }
            assert forall|j: int| 0 <= j < m && #[trigger] fv[j].1 == v as int implies fv[j].0 != v as int by {
                let a = choose|a: int| 0 <= a < b && #[trigger] ov[a] == fv[j].0;
                if fv[j].0 == v as int {
                    assert(ov[a] == ov[b as int]);
                }
            }
            assert(settled(fv, after, v as int)) by {
                if d != 0 {
                    let j = choose|j: int| 0 <= j < m && #[trigger] fv[j].1 == v as int && placed@[fv[j].0] && depth@[fv[j].0] + 1 == d;
                    assert(after[fv[j].0] == before[fv[j].0]);
                }
            }
            assert forall|a: int| 0 <= a < b implies settled(fv, after, #[trigger] ov[a]) by {
                assert(settled(fv, before, ov[a]));
                assert(ov[a] != v as int);
                assert forall|j: int| 0 <= j < m && #[trigger] fv[j].1 == ov[a] implies after[fv[j].0] == before[fv[j].0] by {
                    let c = choose|c: int| 0 <= c < a && #[trigger] ov[c] == fv[j].0;
                    assert(ov[c] != ov[b as int]);
                }
                if before[ov[a]] != 0 {
                    let j = choose|j: int| 0 <= j < m && #[trigger] fv[j].1 == ov[a] && before[fv[j].0] + 1 == before[ov[a]];
                    assert(after[fv[j].0] == before[fv[j].0]);
                }
            }
            assert(ov.take(b + 1) =~= ov.take(b as int).push(v as int));
            assert forall|x: int| 0 <= x < n implies (placed@[x] <==> ov.take(b + 1).contains(x)) by {
                if x == v as int {
                    assert(ov.take(b + 1)[b as int] == x);
                } else if ov.take(b + 1).contains(x) {
                    let a = choose|a: int| 0 <= a < b + 1 && #[trigger] ov.take(b + 1)[a] == x;
                    assert(ov.take(b as int)[a] == x);
                } else if ov.take(b as int).contains(x) {
                    let a = choose|a: int| 0 <= a < b && #[trigger] ov.take(b as int)[a] == x;
                    assert(ov.take(b + 1)[a] == x);
                }
            }
            assert forall|a: int| 0 <= a < b + 1 implies depth@[#[trigger] order@[a] as int] <= a by {
                if a < b {
                    assert(ov[a] != ov[b as int]);
                }
            }
        }
        b = b + 1;
    }
    proof {
        assert(ov.take(b as int) =~= ov);
    }
    let mut top: usize = 0;
    let mut c: usize = 0;
    while c < order.len()
        invariant
            ov == ints(order@),
            ov.len() <= n,
            depth@.len() == n,
            within(n as int, ov),
            forall|a: int| 0 <= a < ov.len() ==> depth@[#[trigger] order@[a] as int] <= a,
            c <= ov.len(),
            top == deepest(ov.take(c as int), ints(depth@)),
            top == 0 || top < c,
        decreases ov.len() - c,
    {
        proof {
            assert(ov.take(c + 1).drop_last() =~= ov.take(c as int));
            assert(ov.take(c + 1).last() == ov[c as int]);
        }
        let x = depth[order[c]];
        if x > top {
            top = x;
        }
        c = c + 1;
    }
    proof {
        assert(ov.take(c as int) =~= ov);
    }
    let ghost settled_depth = ints(depth@);
    let mut v: usize = 0;
    while v < n
        invariant
            ov == ints(order@),
            fv == pairs(flow@),
            ov.len() <= n,
            depth@.len() == n,
            placed@.len() == n,
            forall|x: int| 0 <= x < n ==> (placed@[x] <==> ov.contains(x)),
            top == deepest(ov, settled_depth),
            top == 0 || top < n,
            v <= n,
            within(n as int, ov),
            forall|x: int| 0 <= x < n && placed@[x] ==> ints(depth@)[x] == settled_depth[x],
            forall|x: int| 0 <= x < v && !placed@[x] ==> ints(depth@)[x] == top + 1,
        decreases n - v,
    {
        if !placed[v] {
            depth.set(v, top + 1);
        }
        v = v + 1;
    }
    proof {
        let dv = ints(depth@);
        assert forall|i: int| 0 <= i < ov.len() implies dv[#[trigger] ov[i]] == settled_depth[ov[i]] by {
            assert(placed@[ov[i]]);
        }
        lemma_deepest_agrees(ov, dv, settled_depth);
        assert forall|i: int| 0 <= i < ov.len() implies 0 <= dv[#[trigger] ov[i]] && settled(fv, dv, ov[i]) by {
            assert(settled(fv, settled_depth, ov[i]));
            assert forall|j: int| 0 <= j < fv.len() && #[trigger] fv[j].1 == ov[i] implies dv[fv[j].0] == settled_depth[fv[j].0] by {
                let a = choose|a: int| 0 <= a < i && #[trigger] ov[a] == fv[j].0;
                assert(placed@[ov[a]]);
            }
            if settled_depth[ov[i]] != 0 {
                let j = choose|j: int| 0 <= j < fv.len() && #[trigger] fv[j].1 == ov[i] && settled_depth[fv[j].0] + 1 == settled_depth[ov[i]];
                assert(dv[fv[j].0] == settled_depth[fv[j].0]);
            }
        }
    }
    depth
}

/// The role the allocation list gives a step: the last entry for its id, as a map keyed by
/// step id keeps it.
pub open spec fn role_of(roles: Seq<(Seq<char>, Seq<char>)>, id: Seq<char>) -> Option<Seq<char>>
    decreases roles.len(),
{
    if roles.len() == 0 {
        None
    } else if roles.last().0 == id {
        Some(roles.last().1)
    } else {
        role_of(roles.drop_last(), id)
    }
}

/// The last requirement with this id, as an index keyed by id keeps it.
pub open spec fn last_requirement(reqs: Seq<Requirement>, id: Seq<char>) -> Option<Requirement>
    decreases reqs.len(),
{
    if reqs.len() == 0 {
        None
    } else if reqs.last().id@ == id {
        Some(reqs.last())
    } else {
        last_requirement(reqs.drop_last(), id)
    }
}

/// The requirement a Satisfy dependency from step `id` names, when the model defines it.
pub open spec fn satisfy_ref(reqs: Seq<Requirement>, e: GraphEdge, id: Seq<char>) -> Option<(Seq<char>, Seq<char>)> {
    if e.kind@ == "dependency"@ && e.label@ == "Satisfy"@ && e.source@ == id {
        match last_requirement(reqs, e.target@) {
            Some(r) => Some((r.req_id@, r.name@)),
            None => None,
        }
    } else {
        None
    }
}

/// The requirements step `id` satisfies, in edge order.
pub open spec fn satisfied(reqs: Seq<Requirement>, edges: Seq<GraphEdge>, id: Seq<char>) -> Seq<(Seq<char>, Seq<char>)> {
    edges.filter_map(|e: GraphEdge| satisfy_ref(reqs, e, id))
}

/// A step's texts: id, name, role, and the requirements it satisfies.
pub open spec fn step_view(s: ProcessStep) -> (Seq<char>, Seq<char>, Option<Seq<char>>, Seq<(Seq<char>, Seq<char>)>) {
    (
        s.id@,
        s.name@,
        match s.allocated_to {
            Some(a) => Some(a@),
            None => None,
        },
        s.satisfies@.map_values(|q: RequirementRef| (q.req_id@, q.name@)),
    )
}

/// The layers' texts.
pub open spec fn layer_views(layers: Seq<ProcessLayer>) -> Seq<Seq<(Seq<char>, Seq<char>, Option<Seq<char>>, Seq<(Seq<char>, Seq<char>)>)>> {
    layers.map_values(|l: ProcessLayer| l.steps@.map_values(|s: ProcessStep| step_view(s)))
}

/// The texts of the step for activity `v`.
pub open spec fn step_for(
    acts: Seq<GraphNode>,
    reqs: Seq<Requirement>,
    edges: Seq<GraphEdge>,
    roles: Seq<(Seq<char>, Seq<char>)>,
    v: int,
) -> (Seq<char>, Seq<char>, Option<Seq<char>>, Seq<(Seq<char>, Seq<char>)>) {
    (acts[v].id@, acts[v].name@, role_of(roles, acts[v].id@), satisfied(reqs, edges, acts[v].id@))
}

/// The steps below `k` that `order` leaves out, in the model's order.
pub open spec fn unreleased(order: Seq<int>, k: int) -> Seq<int>
    decreases k,
{
    if k <= 0 {
        Seq::empty()
    } else if order.contains(k - 1) {
        unreleased(order, k - 1)
    } else {
        unreleased(order, k - 1).push(k - 1)
    }
}

/// The order the page shows `n` steps in: the released steps, then the rest.
pub open spec fn shown(n: int, order: Seq<int>) -> Seq<int> {
    order + unreleased(order, n)
}

/// Items grouped into runs of equal keys, in order: each run is one layer.
pub open spec fn runs<A>(items: Seq<(A, int)>) -> Seq<Seq<A>>
    decreases items.len(),
{
    if items.len() == 0 {
        Seq::empty()
    } else if items.len() == 1 {
        seq![seq![items[0].0]]
    } else {
        let before = runs(items.drop_last());
        if items[items.len() - 2].1 == items.last().1 {
            before.update(before.len() - 1, before.last().push(items.last().0))
        } else {
            before.push(seq![items.last().0])
        }
    }
}

proof fn lemma_runs_nonempty<A>(items: Seq<(A, int)>)
    requires
        items.len() > 0,
    ensures
        runs(items).len() > 0,
    decreases items.len(),
{
    if items.len() > 1 {
        lemma_runs_nonempty(items.drop_last());
    }
}

/// The list of steps in the order the page shows them.
fn shown_steps(n: usize, order: &Vec<usize>) -> (r: Vec<usize>)
    requires
        within(n as int, ints(order@)),
        order@.len() <= n,
    ensures
        ints(r@) == shown(n as int, ints(order@)),
        forall|i: int| 0 <= i < r@.len() ==> r@[i] < n,
{
    let ghost ov = ints(order@);
    let mut released: Vec<bool> = Vec::new();
    let mut w: usize = 0;
    while w < n
        invariant
            w <= n,
            released@.len() == w,
            forall|x: int| 0 <= x < w ==> !released@[x],
        decreases n - w,
    {
        released.push(false);
        w = w + 1;
    }
    let mut out: Vec<usize> = Vec::new();
    let mut i: usize = 0;
    while i < order.len()
        invariant
            ov == ints(order@),
            within(n as int, ov),
            released@.len() == n,
            i <= ov.len(),
            ints(out@) == ov.take(i as int),
            forall|x: int| 0 <= x < n ==> (released@[x] <==> ov.take(i as int).contains(x)),
            forall|q: int| 0 <= q < out@.len() ==> out@[q] < n,
        decreases ov.len() - i,
    {
        let x = order[i];
        proof {
            assert(ov[i as int] == x as int);
        }
        out.push(x);
        released.set(x, true);
        proof {
            assert(ov.take(i + 1) =~= ov.take(i as int).push(x as int));
            assert(ints(out@) =~= ov.take(i + 1));
            assert forall|y: int| 0 <= y < n implies (released@[y] <==> ov.take(i + 1).contains(y)) by {
                if y == x as int {
                    assert(ov.take(i + 1)[i as int] == y);
                } else if ov.take(i + 1).contains(y) {
                    let a = choose|a: int| 0 <= a < i + 1 && #[trigger] ov.take(i + 1)[a] == y;
                    assert(ov.take(i as int)[a] == y);
                } else if ov.take(i as int).contains(y) {
                    let a = choose|a: int| 0 <= a < i && #[trigger] ov.take(i as int)[a] == y;
                    assert(ov.take(i + 1)[a] == y);
                }
            }
        }
        i = i + 1;
    }
    proof {
        assert(ov.take(i as int) =~= ov);
        assert(ov + unreleased(ov, 0) =~= ov);
    }
    let mut v: usize = 0;
    while v < n
        invariant
            ov == ints(order@),
            released@.len() == n,
            v <= n,
            forall|x: int| 0 <= x < n ==> (released@[x] <==> ov.contains(x)),
            ints(out@) == ov + unreleased(ov, v as int),
            forall|q: int| 0 <= q < out@.len() ==> out@[q] < n,
        decreases n - v,
    {
        if !released[v] {
            let ghost before = ints(out@);
            out.push(v);
            proof {
                assert(ints(out@) =~= before.push(v as int));
                assert(ov + unreleased(ov, v + 1) =~= (ov + unreleased(ov, v as int)).push(v as int));
            }
        }
        v = v + 1;
    }
    out
}

/// The role the allocation list gives a step.
fn find_role(roles: &Vec<(String, String)>, id: &String) -> (r: Option<String>)
    ensures
        match r {
            Some(s) => role_of(roles@.map_values(|p: (String, String)| (p.0@, p.1@)), id@) == Some(s@),
            None => role_of(roles@.map_values(|p: (String, String)| (p.0@, p.1@)), id@) is None,
        },
{
    let ghost rv = roles@.map_values(|p: (String, String)| (p.0@, p.1@));
    let mut i = roles.len();
    proof {
        assert(rv.take(i as int) =~= rv);
    }
    while i > 0
        invariant
            rv == roles@.map_values(|p: (String, String)| (p.0@, p.1@)),
            i <= roles@.len(),
            role_of(rv, id@) == role_of(rv.take(i as int), id@),
        decreases i,
    {
        proof {
            assert(rv.take(i as int).drop_last() =~= rv.take(i - 1));
            assert(rv.take(i as int).last() == rv[i - 1]);
        }
        if roles[i - 1].0 == *id {
            return Some(roles[i - 1].1.clone());
        }
        i = i - 1;
    }
    None
}

/// The last requirement with this id.
fn find_requirement(reqs: &Vec<Requirement>, id: &String) -> (r: Option<usize>)
    ensures
        match r {
            Some(i) => i < reqs@.len() && last_requirement(reqs@, id@) == Some(reqs@[i as int]),
            None => last_requirement(reqs@, id@) is None,
        },
{
    let mut i = reqs.len();
    proof {
        assert(reqs@.take(i as int) =~= reqs@);
    }
    while i > 0
        invariant
            i <= reqs@.len(),
            last_requirement(reqs@, id@) == last_requirement(reqs@.take(i as int), id@),
        decreases i,
    {
        proof {
            assert(reqs@.take(i as int).drop_last() =~= reqs@.take(i - 1));
            assert(reqs@.take(i as int).last() == reqs@[i - 1]);
        }
        if reqs[i - 1].id == *id {
            return Some(i - 1);
        }
        i = i - 1;
    }
    None
}

/// The requirements step `id` satisfies.
fn satisfied_by(reqs: &Vec<Requirement>, edges: &Vec<GraphEdge>, id: &String) -> (r: Vec<RequirementRef>)
    ensures
        r@.map_values(|q: RequirementRef| (q.req_id@, q.name@)) == satisfied(reqs@, edges@, id@),
{
    let ghost f = |e: GraphEdge| satisfy_ref(reqs@, e, id@);
    let ghost qv = |q: RequirementRef| (q.req_id@, q.name@);
    let mut out: Vec<RequirementRef> = Vec::new();
    let mut i: usize = 0;
    proof {
        assert(out@.map_values(qv) =~= edges@.take(0).filter_map(f));
    }
    while i < edges.len()
        invariant
            f == (|e: GraphEdge| satisfy_ref(reqs@, e, id@)),
            qv == (|q: RequirementRef| (q.req_id@, q.name@)),
            i <= edges@.len(),
            out@.map_values(qv) == edges@.take(i as int).filter_map(f),
        decreases edges@.len() - i,
    {
        let e = &edges[i];
        proof {
            edges@.lemma_filter_map_take_succ(f, i as int);
        }
        let kind = chars_of(e.kind.as_str());
        let label = chars_of(e.label.as_str());
        if chars_equal(&kind, "dependency") && chars_equal(&label, "Satisfy") && e.source == *id {
            match find_requirement(reqs, &e.target) {
                Some(k) => {
                    let ghost before = out@;
                    out.push(RequirementRef { req_id: reqs[k].req_id.clone(), name: reqs[k].name.clone() });
                    proof {
                        assert(out@.map_values(qv) =~= before.map_values(qv).push(f(*e).unwrap()));
                    }
                },
                None => {},
            }
        }
        i = i + 1;
    }
    proof {
        assert(edges@.take(i as int) =~= edges@);
    }
    out
}

/// The allocation list's texts.
pub open spec fn roles_view(roles: Seq<(String, String)>) -> Seq<(Seq<char>, Seq<char>)> {
    roles.map_values(|p: (String, String)| (p.0@, p.1@))
}

/// Whether `layers` and `has_cycle` lay out the activity steps of a model with these elements,
/// relationships, requirements and roles: for the release order of its steps and the layer of
/// each, the steps in the order shown, grouped into runs of equal layer, and a cycle reported
/// exactly when some step is never released.
pub open spec fn laid_out(
    nodes: Seq<GraphNode>,
    edges: Seq<GraphEdge>,
    reqs: Seq<Requirement>,
    roles: Seq<(Seq<char>, Seq<char>)>,
    layers: Seq<Seq<(Seq<char>, Seq<char>, Option<Seq<char>>, Seq<(Seq<char>, Seq<char>)>)>>,
    has_cycle: bool,
) -> bool {
    let acts = activities(nodes);
    let n = acts.len() as int;
    let flow = flows(activity_ids(nodes), edges);
    exists|order: Seq<int>, depth: Seq<int>|
        #[trigger] layered(n, flow, order, depth) && release_order_of(n, flow, order) && layers == runs(
            shown(n, order).map_values(|v: int| (step_for(acts, reqs, edges, roles, v), depth[v])),
        ) && has_cycle == (order.len() < n)
}

/// Lays the activity steps out in order, grouping parallel branches, from the graph's activity
/// nodes and their include and triggers edges. Returns the layers and whether a cycle kept some
/// steps from being ordered. `allocated` lists each step's role as (step id, role) pairs in
/// the model's order; for a step listed twice the later pair counts.
pub fn process_layers(graph: &Option<Graph>, requirements: &Vec<Requirement>, allocated: &Vec<(String, String)>) -> (r: (
    Vec<ProcessLayer>,
    bool,
))
    requires
        match graph {
            Some(g) => distinct(activity_ids(g.nodes@)),
            None => true,
        },
    ensures
        match graph {
            None => r.0@.len() == 0 && !r.1,
            Some(g) => laid_out(g.nodes@, g.edges@, requirements@, roles_view(allocated@), layer_views(r.0@), r.1),
        },
{
    match graph {
        None => (Vec::new(), false),
        Some(g) => {
            let (ids, names) = collect_activities(&g.nodes);
            let n = ids.len();
            let ghost acts = activities(g.nodes@);
            let ghost roles = roles_view(allocated@);
            proof {
                assert(ids@.map_values(|s: String| s@).len() == ids@.len());
                assert(names@.map_values(|s: String| s@).len() == names@.len());
                assert(activity_ids(g.nodes@).len() == acts.len());
                assert(acts.len() == n);
            }
            let flow = collect_flows(&ids, &g.edges);
            let order = release(n, &flow);
            let ghost ov = ints(order@);
            proof {
                lemma_distinct_within(n as int, ov);
            }
            let depth = depths(n, &flow, &order);
            let ghost dv = ints(depth@);
            let shown_list = shown_steps(n, &order);
            let ghost items = shown(n as int, ov).map_values(
                |v: int| (step_for(acts, requirements@, g.edges@, roles, v), dv[v]),
            );
            let mut layers: Vec<ProcessLayer> = Vec::new();
            let mut current: Vec<ProcessStep> = Vec::new();
            let mut current_layer: usize = 0;
            let mut i: usize = 0;
            while i < shown_list.len()
                invariant
                    ids@.map_values(|s: String| s@) == activity_ids(g.nodes@),
                    names@.map_values(|s: String| s@) == activities(g.nodes@).map_values(|q: GraphNode| q.name@),
                    acts == activities(g.nodes@),
                    acts.len() == n,
                    roles == roles_view(allocated@),
                    n == ids@.len(),
                    n == names@.len(),
                    depth@.len() == n,
                    dv == ints(depth@),
                    ints(shown_list@) == shown(n as int, ov),
                    forall|q: int| 0 <= q < shown_list@.len() ==> shown_list@[q] < n,
                    items == shown(n as int, ov).map_values(
                        |v: int| (step_for(acts, requirements@, g.edges@, roles, v), dv[v]),
                    ),
                    i <= shown_list@.len(),
                    i == 0 ==> layers@.len() == 0 && current@.len() == 0,
                    i > 0 ==> current@.len() > 0 && current_layer as int == items[i - 1].1
                        && layer_views(layers@).push(current@.map_values(|s: ProcessStep| step_view(s)))
                        == runs(items.take(i as int)),
                decreases shown_list@.len() - i,
            {
                let v = shown_list[i];
                let step = ProcessStep {
                    id: ids[v].clone(),
                    name: names[v].clone(),
                    allocated_to: find_role(allocated, &ids[v]),
                    satisfies: satisfied_by(requirements, &g.edges, &ids[v]),
                };
                let d = depth[v];
                proof {
                    assert(ints(shown_list@)[i as int] == v as int);
                    assert(items[i as int] == (step_for(acts, requirements@, g.edges@, roles, v as int), dv[v as int]));
                    assert(ids@.map_values(|s: String| s@)[v as int] == ids@[v as int]@);
                    assert(names@.map_values(|s: String| s@)[v as int] == names@[v as int]@);
                    assert(v < acts.len());
                    assert(activity_ids(g.nodes@)[v as int] == acts[v as int].id@);
                    assert(activities(g.nodes@).map_values(|q: GraphNode| q.name@)[v as int] == acts[v as int].name@);
                    assert(step.id@ == acts[v as int].id@);
                    assert(step.name@ == acts[v as int].name@);
                    assert(step_view(step).2 == role_of(roles, acts[v as int].id@));
                    assert(step_view(step).3 == satisfied(requirements@, g.edges@, acts[v as int].id@));
                    assert(step_view(step) == items[i as int].0);
                    assert(items.take(i + 1).drop_last() =~= items.take(i as int));
                    assert(items.take(i + 1).last() == items[i as int]);
                }
                let ghost old_layers = layer_views(layers@);
                let ghost old_current = current@.map_values(|s: ProcessStep| step_view(s));
                if i > 0 && d != current_layer {
                    layers.push(ProcessLayer { steps: current });
                    current = Vec::new();
                    proof {
                        assert(layer_views(layers@) =~= old_layers.push(old_current));
                    }
                }
                let ghost mid = current@.map_values(|s: ProcessStep| step_view(s));
                current.push(step);
                proof {
                    assert(current@.map_values(|s: ProcessStep| step_view(s)) =~= mid.push(step_view(step)));
                    if i == 0 {
                        assert(items.take(1) =~= seq![items[0]]);
                        assert(layer_views(layers@) =~= Seq::empty());
                        assert(current@.map_values(|s: ProcessStep| step_view(s)) =~= seq![items[0].0]);
                        assert(layer_views(layers@).push(current@.map_values(|s: ProcessStep| step_view(s))) =~= runs(items.take(1)));
                    } else {
                        assert(items.take(i + 1)[i - 1] == items[i - 1]);
                        let before = runs(items.take(i as int));
                        assert(before == old_layers.push(old_current));
                        if d == current_layer {
                            assert(runs(items.take(i + 1)) == before.update(before.len() - 1, before.last().push(items[i as int].0)));
                            assert(layer_views(layers@) == old_layers);
                            assert(layer_views(layers@).push(current@.map_values(|s: ProcessStep| step_view(s))) =~= runs(items.take(i + 1)));
                        } else {
                            assert(runs(items.take(i + 1)) == before.push(seq![items[i as int].0]));
                            assert(mid =~= Seq::empty());
                            assert(layer_views(layers@).push(current@.map_values(|s: ProcessStep| step_view(s))) =~= runs(items.take(i + 1)));
                        }
                    }
                }
                current_layer = d;
                i = i + 1;
            }
            proof {
                assert(items.take(i as int) =~= items);
            }
            if current.len() > 0 {
                let ghost old_layers = layer_views(layers@);
                let ghost old_current = current@.map_values(|s: ProcessStep| step_view(s));
                layers.push(ProcessLayer { steps: current });
                proof {
                    assert(layer_views(layers@) =~= old_layers.push(old_current));
                }
            } else {
                proof {
                    assert(items.len() == 0);
                    assert(layer_views(layers@) =~= runs(items));
                }
            }
            let has_cycle = order.len() < n;
            proof {
                assert(acts.len() == n);
                assert(layered(n as int, flows(activity_ids(g.nodes@), g.edges@), ov, dv));
            }
            (layers, has_cycle)
        },
    }
}

proof fn lemma_runs_flatten<A>(items: Seq<(A, int)>)
    ensures
        runs(items).flatten() == items.map_values(|x: (A, int)| x.0),
    decreases items.len(),
{
    if items.len() == 0 {
        assert(runs(items).flatten() =~= items.map_values(|x: (A, int)| x.0));
    } else if items.len() == 1 {
        seq![seq![items[0].0]].lemma_flatten_singleton();
        assert(runs(items).flatten() =~= items.map_values(|x: (A, int)| x.0));
    } else {
        let rest = items.drop_last();
        let x = items.last().0;
        lemma_runs_flatten(rest);
        lemma_runs_nonempty(rest);
        let before = runs(rest);
        assert(items.map_values(|y: (A, int)| y.0) =~= rest.map_values(|y: (A, int)| y.0).push(x));
        if items[items.len() - 2].1 == items.last().1 {
            let b2 = before.drop_last();
            assert(before =~= b2.push(before.last()));
            b2.lemma_flatten_push(before.last());
            let after = before.update(before.len() - 1, before.last().push(x));
            assert(after =~= b2.push(before.last().push(x)));
            b2.lemma_flatten_push(before.last().push(x));
            assert(after.flatten() =~= before.flatten().push(x));
        } else {
            before.lemma_flatten_push(seq![x]);
            assert(before.push(seq![x]).flatten() =~= before.flatten().push(x));
        }
    }
}

proof fn lemma_unreleased(order: Seq<int>, k: int)
    requires
        k >= 0,
    ensures
        forall|i: int| 0 <= i < unreleased(order, k).len() ==> 0 <= #[trigger] unreleased(order, k)[i] < k
            && !order.contains(unreleased(order, k)[i]),
        forall|i: int, j: int| 0 <= i < j < unreleased(order, k).len() ==> unreleased(order, k)[i] < unreleased(order, k)[j],
        forall|v: int| 0 <= v < k && !order.contains(v) ==> #[trigger] unreleased(order, k).contains(v),
    decreases k,
{
    if k > 0 {
        lemma_unreleased(order, k - 1);
        let before = unreleased(order, k - 1);
        if !order.contains(k - 1) {
            let after = before.push(k - 1);
            assert(unreleased(order, k) == after);
            assert forall|v: int| 0 <= v < k && !order.contains(v) implies #[trigger] after.contains(v) by {
                if v == k - 1 {
                    assert(after[after.len() - 1] == v);
                } else {
                    assert(before.contains(v));
                    let i = choose|i: int| 0 <= i < before.len() && before[i] == v;
                    assert(after[i] == v);
                }
            }
        }
    }
}

/// Every one of `n` steps is shown exactly once.
proof fn lemma_shown_permutes(n: int, flow: Seq<(int, int)>, order: Seq<int>)
    requires
        n >= 0,
        release_order_of(n, flow, order),
    ensures
        shown(n, order).no_duplicates(),
        shown(n, order).len() == n,
        forall|i: int| 0 <= i < shown(n, order).len() ==> 0 <= #[trigger] shown(n, order)[i] < n,
        forall|v: int| 0 <= v < n ==> #[trigger] shown(n, order).contains(v),
{
    lemma_unreleased(order, n);
    let u = unreleased(order, n);
    let sh = shown(n, order);
    assert forall|i: int| 0 <= i < sh.len() implies 0 <= #[trigger] sh[i] < n by {
        if i < order.len() {
            assert(sh[i] == order[i]);
        } else {
            assert(sh[i] == u[i - order.len()]);
        }
    }
    assert forall|a: int, b: int| 0 <= a < sh.len() && 0 <= b < sh.len() && a != b implies sh[a] != sh[b] by {
        if a < order.len() && b < order.len() {
            assert(sh[a] == order[a] && sh[b] == order[b]);
        } else if a < order.len() {
            assert(sh[b] == u[b - order.len()]);
            assert(order.contains(sh[a]));
        } else if b < order.len() {
            assert(sh[a] == u[a - order.len()]);
            assert(order.contains(sh[b]));
        } else {
            assert(sh[a] == u[a - order.len()] && sh[b] == u[b - order.len()]);
            if a < b {
                assert(u[a - order.len()] < u[b - order.len()]);
            } else {
                assert(u[b - order.len()] < u[a - order.len()]);
            }
        }
    }
    assert forall|v: int| 0 <= v < n implies #[trigger] sh.contains(v) by {
        if order.contains(v) {
            let i = choose|i: int| 0 <= i < order.len() && order[i] == v;
            assert(sh[i] == v);
        } else {
            assert(u.contains(v));
            let i = choose|i: int| 0 <= i < u.len() && u[i] == v;
            assert(sh[i + order.len()] == v);
        }
    }
    sh.unique_seq_to_set();
    vstd::set_lib::lemma_int_range(0, n);
    assert(sh.to_set() =~= vstd::set_lib::set_int_range(0, n));
}

/// The layout shows every activity step of the model exactly once: its steps are the model's
/// activity steps, none left out and none twice.
pub proof fn lemma_each_step_shown_once(
    nodes: Seq<GraphNode>,
    edges: Seq<GraphEdge>,
    reqs: Seq<Requirement>,
    roles: Seq<(Seq<char>, Seq<char>)>,
    layers: Seq<Seq<(Seq<char>, Seq<char>, Option<Seq<char>>, Seq<(Seq<char>, Seq<char>)>)>>,
    has_cycle: bool,
)
    requires
        distinct(activity_ids(nodes)),
        laid_out(nodes, edges, reqs, roles, layers, has_cycle),
    ensures
        layers.flatten().len() == activity_ids(nodes).len(),
        layers.flatten().map_values(
            |s: (Seq<char>, Seq<char>, Option<Seq<char>>, Seq<(Seq<char>, Seq<char>)>)| s.0,
        ).no_duplicates(),
        forall|id: Seq<char>|
            layers.flatten().map_values(
                |s: (Seq<char>, Seq<char>, Option<Seq<char>>, Seq<(Seq<char>, Seq<char>)>)| s.0,
            ).contains(id) <==> activity_ids(nodes).contains(id),
{
    let acts = activities(nodes);
    let n = acts.len() as int;
    let ids = activity_ids(nodes);
    let flow = flows(ids, edges);
    let (order, depth) = choose|order: Seq<int>, depth: Seq<int>|
        #[trigger] layered(n, flow, order, depth) && release_order_of(n, flow, order) && layers == runs(
            shown(n, order).map_values(|v: int| (step_for(acts, reqs, edges, roles, v), depth[v])),
        ) && has_cycle == (order.len() < n);
    let sh = shown(n, order);
    lemma_shown_permutes(n, flow, order);
    let items = sh.map_values(|v: int| (step_for(acts, reqs, edges, roles, v), depth[v]));
    lemma_runs_flatten(items);
    let flat = layers.flatten();
    let shown_ids = flat.map_values(
        |s: (Seq<char>, Seq<char>, Option<Seq<char>>, Seq<(Seq<char>, Seq<char>)>)| s.0,
    );
    assert(flat == items.map_values(
        |x: ((Seq<char>, Seq<char>, Option<Seq<char>>, Seq<(Seq<char>, Seq<char>)>), int)| x.0,
    ));
    assert forall|i: int| 0 <= i < shown_ids.len() implies #[trigger] shown_ids[i] == ids[sh[i]] by {
        assert(0 <= sh[i] < n);
    }
    assert forall|a: int, b: int| 0 <= a < shown_ids.len() && 0 <= b < shown_ids.len() && a != b implies shown_ids[a] != shown_ids[b] by {
        assert(shown_ids[a] == ids[sh[a]] && shown_ids[b] == ids[sh[b]]);
        assert(sh[a] != sh[b]);
        if sh[a] < sh[b] {
            assert(ids[sh[a]] != ids[sh[b]]);
        } else {
            assert(ids[sh[b]] != ids[sh[a]]);
        }
    }
    assert forall|id: Seq<char>| shown_ids.contains(id) <==> ids.contains(id) by {
        if shown_ids.contains(id) {
            let i = choose|i: int| 0 <= i < shown_ids.len() && shown_ids[i] == id;
            assert(ids[sh[i]] == id);
        }
        if ids.contains(id) {
            let v = choose|v: int| 0 <= v < ids.len() && ids[v] == id;
            assert(sh.contains(v));
            let i = choose|i: int| 0 <= i < sh.len() && sh[i] == v;
            assert(shown_ids[i] == id);
        }
    }
}


/// Whether some ordering makes step `b` wait on step `a`.
pub open spec fn flow_step(flow: Seq<(int, int)>, a: int, b: int) -> bool {
    exists|j: int| 0 <= j < flow.len() && #[trigger] flow[j] == (a, b)
}

/// Whether `path` is a cycle among `n` steps: each step of it waits on the one before it, and
/// its first step on its last.
pub open spec fn is_cycle(n: int, flow: Seq<(int, int)>, path: Seq<int>) -> bool {
    &&& path.len() >= 1
    &&& forall|i: int| 0 <= i < path.len() ==> 0 <= #[trigger] path[i] < n
    &&& forall|i: int| 0 <= i < path.len() - 1 ==> flow_step(flow, #[trigger] path[i], path[i + 1])
    &&& flow_step(flow, path.last(), path[0])
}

/// Whether the orderings among `n` steps hold a cycle.
pub open spec fn has_flow_cycle(n: int, flow: Seq<(int, int)>) -> bool {
    exists|path: Seq<int>| #[trigger] is_cycle(n, flow, path)
}

/// No step of a cycle is released at or before position `b`.
proof fn lemma_cycle_unreleased_before(n: int, flow: Seq<(int, int)>, order: Seq<int>, path: Seq<int>, b: int)
    requires
        follows_waits(flow, order),
        is_cycle(n, flow, path),
        b < order.len(),
    ensures
        forall|c: int| 0 <= c <= b ==> !path.contains(#[trigger] order[c]),
    decreases b + 1,
{
    if b >= 0 {
        lemma_cycle_unreleased_before(n, flow, order, path, b - 1);
        if path.contains(order[b]) {
            let i = choose|i: int| 0 <= i < path.len() && path[i] == order[b];
            let ip = if i == 0 { path.len() - 1 } else { i - 1 };
            if i == 0 {
                assert(flow_step(flow, path.last(), path[0]));
            } else {
                assert(flow_step(flow, path[ip], path[ip + 1]));
            }
            let j = choose|j: int| 0 <= j < flow.len() && #[trigger] flow[j] == (path[ip], path[i]);
            assert(flow[j].1 == order[b]);
            let a = choose|a: int| 0 <= a < b && #[trigger] order[a] == flow[j].0;
            assert(path[ip] == order[a]);
            assert(path.contains(order[a]));
        }
        assert forall|c: int| 0 <= c <= b implies !path.contains(#[trigger] order[c]) by {
            if c < b {
            }
        }
    }
}

/// Walking back from a step no release reaches, along steps no release reaches.
spec fn walk_back(flow: Seq<(int, int)>, order: Seq<int>, v: int, t: nat) -> int
    decreases t,
{
    if t == 0 {
        v
    } else {
        let w = walk_back(flow, order, v, (t - 1) as nat);
        let j = choose|j: int| 0 <= j < flow.len() && #[trigger] flow[j].1 == w && !order.contains(flow[j].0);
        flow[j].0
    }
}

proof fn lemma_walk_back(n: int, flow: Seq<(int, int)>, order: Seq<int>, v: int, t: nat)
    requires
        left_blocked(n, flow, order),
        forall|j: int| 0 <= j < flow.len() ==> 0 <= #[trigger] flow[j].0 < n && 0 <= flow[j].1 < n,
        0 <= v < n,
        !order.contains(v),
    ensures
        0 <= walk_back(flow, order, v, t) < n,
        !order.contains(walk_back(flow, order, v, t)),
        flow_step(flow, walk_back(flow, order, v, t + 1), walk_back(flow, order, v, t)),
    decreases t,
{
    if t > 0 {
        lemma_walk_back(n, flow, order, v, (t - 1) as nat);
    }
    let w = walk_back(flow, order, v, t);
    let j = choose|j: int| 0 <= j < flow.len() && #[trigger] flow[j].1 == w && !order.contains(flow[j].0);
    assert(flow[j] == (walk_back(flow, order, v, t + 1), w));
}

/// A step no release reaches lies behind a cycle: walking back along the steps it waits on
/// that are not released either comes round to a step already passed.
proof fn lemma_unreleased_has_cycle(n: int, flow: Seq<(int, int)>, order: Seq<int>, v: int)
    requires
        left_blocked(n, flow, order),
        forall|j: int| 0 <= j < flow.len() ==> 0 <= #[trigger] flow[j].0 < n && 0 <= flow[j].1 < n,
        0 <= v < n,
        !order.contains(v),
    ensures
        has_flow_cycle(n, flow),
{
    let w = Seq::new((n + 1) as nat, |t: int| walk_back(flow, order, v, t as nat));
    assert forall|t: int| 0 <= t < w.len() implies 0 <= #[trigger] w[t] < n by {
        lemma_walk_back(n, flow, order, v, t as nat);
    }
    if w.no_duplicates() {
        w.unique_seq_to_set();
        vstd::set_lib::lemma_int_range(0, n);
        assert(w.to_set().subset_of(vstd::set_lib::set_int_range(0, n)));
        vstd::set_lib::lemma_len_subset(w.to_set(), vstd::set_lib::set_int_range(0, n));
        assert(false);
    }
    let (a0, b0) = choose|a0: int, b0: int| 0 <= a0 < w.len() && 0 <= b0 < w.len() && a0 != b0 && w[a0] == w[b0];
    let a = if a0 < b0 { a0 } else { b0 };
    let b = if a0 < b0 { b0 } else { a0 };
    let path = Seq::new((b - a) as nat, |i: int| w[b - i]);
    assert forall|i: int| 0 <= i < path.len() - 1 implies flow_step(flow, #[trigger] path[i], path[i + 1]) by {
        lemma_walk_back(n, flow, order, v, (b - i - 1) as nat);
        assert(path[i] == walk_back(flow, order, v, (b - i - 1 + 1) as nat));
        assert(path[i + 1] == walk_back(flow, order, v, (b - i - 1) as nat));
    }
    lemma_walk_back(n, flow, order, v, a as nat);
    assert(path.last() == w[a + 1]);
    assert(path[0] == w[a]);
    assert(is_cycle(n, flow, path));
}

/// The orderings the model's edges make are between its steps.
proof fn lemma_flows_within(ids: Seq<Seq<char>>, edges: Seq<GraphEdge>)
    ensures
        forall|j: int| 0 <= j < flows(ids, edges).len() ==> 0 <= #[trigger] flows(ids, edges)[j].0 < ids.len()
            && 0 <= flows(ids, edges)[j].1 < ids.len(),
{
    let f = |e: GraphEdge| flow_of(ids, e);
    assert forall|j: int| 0 <= j < flows(ids, edges).len() implies 0 <= #[trigger] flows(ids, edges)[j].0 < ids.len()
        && 0 <= flows(ids, edges)[j].1 < ids.len() by {
        let p = flows(ids, edges)[j];
        assert(edges.filter_map(f).contains(p));
        edges.lemma_filter_map_contains(f, p);
        let e = choose|e: GraphEdge| edges.contains(e) && f(e) == Some(p);
        assert(ids.contains(e.source@) && ids.contains(e.target@));
    }
}

/// The layout reports a cycle exactly when the model's include and triggers relationships
/// among its activity steps hold one.
pub proof fn lemma_cycle_reported_exactly(
    nodes: Seq<GraphNode>,
    edges: Seq<GraphEdge>,
    reqs: Seq<Requirement>,
    roles: Seq<(Seq<char>, Seq<char>)>,
    layers: Seq<Seq<(Seq<char>, Seq<char>, Option<Seq<char>>, Seq<(Seq<char>, Seq<char>)>)>>,
    has_cycle: bool,
)
    requires
        laid_out(nodes, edges, reqs, roles, layers, has_cycle),
    ensures
        has_cycle <==> has_flow_cycle(activities(nodes).len() as int, flows(activity_ids(nodes), edges)),
{
    let acts = activities(nodes);
    let n = acts.len() as int;
    let ids = activity_ids(nodes);
    let flow = flows(ids, edges);
    let (order, depth) = choose|order: Seq<int>, depth: Seq<int>|
        #[trigger] layered(n, flow, order, depth) && release_order_of(n, flow, order) && layers == runs(
            shown(n, order).map_values(|v: int| (step_for(acts, reqs, edges, roles, v), depth[v])),
        ) && has_cycle == (order.len() < n);
    assert(ids.len() == n);
    lemma_flows_within(ids, edges);
    lemma_shown_permutes(n, flow, order);
    if has_cycle {
        let sh = shown(n, order);
        assert(sh == order + unreleased(order, n));
        assert(unreleased(order, n).len() > 0);
        let u = sh[order.len() as int];
        assert(sh.contains(u));
        assert(0 <= u < n);
        if order.contains(u) {
            let c = choose|c: int| 0 <= c < order.len() && order[c] == u;
            assert(sh[c] == u);
        }
        lemma_unreleased_has_cycle(n, flow, order, u);
    }
    if has_flow_cycle(n, flow) {
        let path = choose|path: Seq<int>| #[trigger] is_cycle(n, flow, path);
        if !has_cycle {
            assert(order.len() >= n);
            if order.len() > 0 {
                lemma_cycle_unreleased_before(n, flow, order, path, order.len() - 1);
            }
            let x = path[0];
            assert(shown(n, order).contains(x));
            assert(order.contains(x));
            let c = choose|c: int| 0 <= c < order.len() && order[c] == x;
            assert(path.contains(order[c]));
        }
    }
}

/// A step that is released comes after every step it waits on, in a layer below each of them.
pub proof fn lemma_waits_come_first(n: int, flow: Seq<(int, int)>, order: Seq<int>, depth: Seq<int>, b: int, j: int)
    requires
        release_order_of(n, flow, order),
        layered(n, flow, order, depth),
        0 <= b < order.len(),
        0 <= j < flow.len(),
        flow[j].1 == order[b],
    ensures
        exists|a: int| 0 <= a < b && #[trigger] order[a] == flow[j].0,
        depth[flow[j].0] < depth[flow[j].1],
{
    assert(settled(flow, depth, order[b]));
}


/// The run item `p` falls in: how many times the key changes up to it.
spec fn run_of<A>(items: Seq<(A, int)>, p: int) -> int
    decreases p,
{
    if p <= 0 {
        0
    } else {
        run_of(items, p - 1) + if items[p].1 != items[p - 1].1 {
            1int
        } else {
            0int
        }
    }
}

proof fn lemma_run_of_prefix<A>(items: Seq<(A, int)>, k: int, p: int)
    requires
        0 <= p < k <= items.len(),
    ensures
        run_of(items.take(k), p) == run_of(items, p),
    decreases p,
{
    if p > 0 {
        lemma_run_of_prefix(items, k, p - 1);
    }
}

/// Each item lies in the run `run_of` names.
proof fn lemma_runs_place<A>(items: Seq<(A, int)>)
    requires
        items.len() > 0,
    ensures
        runs(items).len() == run_of(items, items.len() - 1) + 1,
        forall|p: int| 0 <= p < items.len() ==> #[trigger] runs(items)[run_of(items, p)].contains(items[p].0),
    decreases items.len(),
{
    if items.len() == 1 {
        assert(runs(items)[0][0] == items[0].0);
    } else {
        let rest = items.drop_last();
        let last = items.len() - 1;
        lemma_runs_place(rest);
        let before = runs(rest);
        assert forall|p: int| 0 <= p < rest.len() implies run_of(rest, p) == run_of(items, p) by {
            assert(rest =~= items.take(last));
            lemma_run_of_prefix(items, last, p);
        }
        assert(run_of(rest, last - 1) == run_of(items, last - 1));
        assert forall|p: int| 0 <= p < rest.len() implies 0 <= #[trigger] run_of(rest, p) < before.len() by {
            lemma_run_of_grows(rest, p, last - 1);
            lemma_run_of_grows(rest, 0, p);
        }
        if items[items.len() - 2].1 == items.last().1 {
            lemma_runs_nonempty(rest);
            let x = items.last().0;
            let after = before.update(before.len() - 1, before.last().push(x));
            assert(runs(items) == after);
            assert forall|p: int| 0 <= p < items.len() implies #[trigger] runs(items)[run_of(items, p)].contains(items[p].0) by {
                if p < last {
                    assert(rest[p] == items[p]);
                    let r = run_of(rest, p);
                    assert(0 <= r < before.len());
                    assert(before[r].contains(rest[p].0));
                    let k = choose|k: int| 0 <= k < before[r].len() && before[r][k] == rest[p].0;
                    if r == before.len() - 1 {
                        assert(after[r] == before[r].push(x));
                        assert(after[r][k] == before[r][k]);
                    } else {
                        assert(after[r] == before[r]);
                    }
                    assert(after[r][k] == items[p].0);
                } else {
                    let r = before.len() - 1;
                    assert(after[r] == before[r].push(x));
                    assert(after[r][before[r].len() as int] == x);
                }
            }
        } else {
            let after = before.push(seq![items.last().0]);
            assert(runs(items) == after);
            assert forall|p: int| 0 <= p < items.len() implies #[trigger] runs(items)[run_of(items, p)].contains(items[p].0) by {
                if p < last {
                    assert(rest[p] == items[p]);
                    let r = run_of(rest, p);
                    assert(0 <= r < before.len());
                    assert(before[r].contains(rest[p].0));
                    assert(after[r] == before[r]);
                } else {
                    assert(after[before.len() as int][0] == items.last().0);
                }
            }
        }
    }
}

/// Runs never go back, and an item with another key than an earlier one is in a later run.
proof fn lemma_run_of_grows<A>(items: Seq<(A, int)>, p: int, q: int)
    requires
        0 <= p <= q < items.len(),
    ensures
        run_of(items, p) <= run_of(items, q),
        items[p].1 != items[q].1 ==> run_of(items, p) < run_of(items, q),
    decreases q - p,
{
    if p < q {
        lemma_run_of_grows(items, p, q - 1);
        if items[p].1 != items[q].1 && items[p].1 == items[q - 1].1 {
            assert(items[q].1 != items[q - 1].1);
        }
    }
}

/// A step that no cycle reaches is laid out in a layer after the layer of each step it waits
/// on.
#[verifier::rlimit(60)]
#[verifier::spinoff_prover]
pub proof fn lemma_waits_in_earlier_layers(
    nodes: Seq<GraphNode>,
    edges: Seq<GraphEdge>,
    reqs: Seq<Requirement>,
    roles: Seq<(Seq<char>, Seq<char>)>,
    layers: Seq<Seq<(Seq<char>, Seq<char>, Option<Seq<char>>, Seq<(Seq<char>, Seq<char>)>)>>,
    has_cycle: bool,
    j: int,
)
    requires
        laid_out(nodes, edges, reqs, roles, layers, has_cycle),
        0 <= j < flows(activity_ids(nodes), edges).len(),
        !behind_cycle(activities(nodes).len() as int, flows(activity_ids(nodes), edges), flows(activity_ids(nodes), edges)[j].1),
    ensures
        exists|lu: int, lv: int|
            0 <= lu < lv < layers.len() && #[trigger] layers[lu].contains(
                step_for(activities(nodes), reqs, edges, roles, flows(activity_ids(nodes), edges)[j].0),
            ) && #[trigger] layers[lv].contains(
                step_for(activities(nodes), reqs, edges, roles, flows(activity_ids(nodes), edges)[j].1),
            ),
{
    let acts = activities(nodes);
    let n = acts.len() as int;
    let ids = activity_ids(nodes);
    let flow = flows(ids, edges);
    let (order, depth) = choose|order: Seq<int>, depth: Seq<int>|
        #[trigger] layered(n, flow, order, depth) && release_order_of(n, flow, order) && layers == runs(
            shown(n, order).map_values(|v: int| (step_for(acts, reqs, edges, roles, v), depth[v])),
        ) && has_cycle == (order.len() < n);
    assert(ids.len() == n);
    lemma_flows_within(ids, edges);
    lemma_shown_permutes(n, flow, order);
    assert(0 <= flow[j].0 < n && 0 <= flow[j].1 < n);
    if !order.contains(flow[j].1) {
        lemma_unreleased_behind_cycle(n, flow, order, flow[j].1);
    }
    let st = |v: int| step_for(acts, reqs, edges, roles, v);
    assert(shown(n, order).map_values(|v: int| (st(v), depth[v])) =~= shown(n, order).map_values(
        |v: int| (step_for(acts, reqs, edges, roles, v), depth[v]),
    ));
    lemma_layers_follow_waits(n, flow, order, depth, st, layers, j);
}

/// With every step released, the layers put each step after every step it waits on.
proof fn lemma_layers_follow_waits<A>(
    n: int,
    flow: Seq<(int, int)>,
    order: Seq<int>,
    depth: Seq<int>,
    step: spec_fn(int) -> A,
    layers: Seq<Seq<A>>,
    j: int,
)
    requires
        layers == runs(shown(n, order).map_values(|v: int| (step(v), depth[v]))),
        layered(n, flow, order, depth),
        release_order_of(n, flow, order),
        n >= 0,
        0 <= j < flow.len(),
        0 <= flow[j].0 < n && 0 <= flow[j].1 < n,
        order.contains(flow[j].1),
    ensures
        exists|lu: int, lv: int|
            0 <= lu < lv < layers.len() && #[trigger] layers[lu].contains(step(flow[j].0)) && #[trigger] layers[lv].contains(
                step(flow[j].1),
            ),
{
    lemma_shown_permutes(n, flow, order);
    let sh = shown(n, order);
    let items = sh.map_values(|v: int| (step(v), depth[v]));
    let v = flow[j].1;
    let b = choose|b: int| 0 <= b < order.len() && order[b] == v;
    assert(sh[b] == order[b]);
    lemma_waits_come_first(n, flow, order, depth, b, j);
    let a = choose|a: int| 0 <= a < b && #[trigger] order[a] == flow[j].0;
    assert(sh[a] == order[a]);
    lemma_runs_place(items);
    lemma_run_of_grows(items, a, b);
    lemma_run_of_grows(items, b, items.len() - 1);
    lemma_run_of_grows(items, 0, a);
    assert(items[a].1 == depth[flow[j].0]);
    assert(items[b].1 == depth[v]);
    let lu = run_of(items, a);
    let lv = run_of(items, b);
    assert(runs(items)[lu].contains(items[a].0));
    assert(runs(items)[lv].contains(items[b].0));
}


/// Whether `p` is a walk along the orderings: each step of it waits on the one before it.
pub open spec fn is_walk(flow: Seq<(int, int)>, p: Seq<int>) -> bool {
    &&& p.len() >= 1
    &&& forall|i: int| 0 <= i < p.len() - 1 ==> flow_step(flow, #[trigger] p[i], p[i + 1])
}

/// Whether step `v` is reached from a cycle: some walk leads to it from a step of a cycle.
pub open spec fn behind_cycle(n: int, flow: Seq<(int, int)>, v: int) -> bool {
    exists|c: Seq<int>, p: Seq<int>| #[trigger] is_cycle(n, flow, c) && #[trigger] is_walk(flow, p) && p[0] == c[0] && p.last() == v
}

/// A step no release reaches is reached from a cycle.
proof fn lemma_unreleased_behind_cycle(n: int, flow: Seq<(int, int)>, order: Seq<int>, v: int)
    requires
        left_blocked(n, flow, order),
        forall|j: int| 0 <= j < flow.len() ==> 0 <= #[trigger] flow[j].0 < n && 0 <= flow[j].1 < n,
        0 <= v < n,
        !order.contains(v),
    ensures
        behind_cycle(n, flow, v),
{
    let w = Seq::new((n + 1) as nat, |t: int| walk_back(flow, order, v, t as nat));
    assert forall|t: int| 0 <= t < w.len() implies 0 <= #[trigger] w[t] < n by {
        lemma_walk_back(n, flow, order, v, t as nat);
    }
    if w.no_duplicates() {
        w.unique_seq_to_set();
        vstd::set_lib::lemma_int_range(0, n);
        assert(w.to_set().subset_of(vstd::set_lib::set_int_range(0, n)));
        vstd::set_lib::lemma_len_subset(w.to_set(), vstd::set_lib::set_int_range(0, n));
        assert(false);
    }
    let (a0, b0) = choose|a0: int, b0: int| 0 <= a0 < w.len() && 0 <= b0 < w.len() && a0 != b0 && w[a0] == w[b0];
    let a = if a0 < b0 { a0 } else { b0 };
    let b = if a0 < b0 { b0 } else { a0 };
    let c = Seq::new((b - a) as nat, |i: int| w[b - i]);
    assert forall|i: int| 0 <= i < c.len() - 1 implies flow_step(flow, #[trigger] c[i], c[i + 1]) by {
        lemma_walk_back(n, flow, order, v, (b - i - 1) as nat);
        assert(c[i] == walk_back(flow, order, v, (b - i - 1 + 1) as nat));
        assert(c[i + 1] == walk_back(flow, order, v, (b - i - 1) as nat));
    }
    lemma_walk_back(n, flow, order, v, a as nat);
    assert(c.last() == w[a + 1]);
    assert(c[0] == w[a]);
    assert(is_cycle(n, flow, c));
    let p = Seq::new((a + 1) as nat, |i: int| w[a - i]);
    assert forall|i: int| 0 <= i < p.len() - 1 implies flow_step(flow, #[trigger] p[i], p[i + 1]) by {
        lemma_walk_back(n, flow, order, v, (a - i - 1) as nat);
        assert(p[i] == walk_back(flow, order, v, (a - i - 1 + 1) as nat));
        assert(p[i + 1] == walk_back(flow, order, v, (a - i - 1) as nat));
    }
    assert(is_walk(flow, p));
    assert(p[0] == c[0]);
    assert(p.last() == w[0]);
}

/// Every run holds at least one item.
proof fn lemma_runs_filled<A>(items: Seq<(A, int)>)
    ensures
        forall|r: int| 0 <= r < runs(items).len() ==> #[trigger] runs(items)[r].len() > 0,
    decreases items.len(),
{
    if items.len() > 1 {
        let rest = items.drop_last();
        lemma_runs_filled(rest);
        lemma_runs_nonempty(rest);
        let before = runs(rest);
        if items[items.len() - 2].1 == items.last().1 {
            let after = before.update(before.len() - 1, before.last().push(items.last().0));
            assert forall|r: int| 0 <= r < after.len() implies #[trigger] after[r].len() > 0 by {
                assert(before[r].len() > 0);
            }
        } else {
            let after = before.push(seq![items.last().0]);
            assert forall|r: int| 0 <= r < after.len() implies #[trigger] after[r].len() > 0 by {
                if r < before.len() {
                    assert(before[r].len() > 0);
                }
            }
        }
    }
}

/// No layer of the layout is empty.
pub proof fn lemma_no_empty_layer(
    nodes: Seq<GraphNode>,
    edges: Seq<GraphEdge>,
    reqs: Seq<Requirement>,
    roles: Seq<(Seq<char>, Seq<char>)>,
    layers: Seq<Seq<(Seq<char>, Seq<char>, Option<Seq<char>>, Seq<(Seq<char>, Seq<char>)>)>>,
    has_cycle: bool,
)
    requires
        laid_out(nodes, edges, reqs, roles, layers, has_cycle),
    ensures
        forall|i: int| 0 <= i < layers.len() ==> #[trigger] layers[i].len() > 0,
{
    let acts = activities(nodes);
    let n = acts.len() as int;
    let flow = flows(activity_ids(nodes), edges);
    let (order, depth) = choose|order: Seq<int>, depth: Seq<int>|
        #[trigger] layered(n, flow, order, depth) && release_order_of(n, flow, order) && layers == runs(
            shown(n, order).map_values(|v: int| (step_for(acts, reqs, edges, roles, v), depth[v])),
        ) && has_cycle == (order.len() < n);
    lemma_runs_filled(shown(n, order).map_values(|v: int| (step_for(acts, reqs, edges, roles, v), depth[v])));
}

} // verus!
