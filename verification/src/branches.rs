//! The branches a person can export from the diagram page in one click: the containers that
//! hold something, most-populated branch first. Ties break on id, so the list is stable from
//! load to load.

use vstd::prelude::*;
use crate::order::{chars_less, lemma_lex_irreflexive, lemma_lex_total, lemma_lex_transitive, lex_lt};
use crate::scope::{child_of, contained, defines, descendants, holds_part, listed, Graph, GraphEdge, GraphNode};
use crate::text::{chars_equal, chars_of, texts};
use crate::layout::holds;

verus! {

/// Whether `p` holds something: some part or contains relationship between two elements the
/// model defines points from it.
pub open spec fn is_container(nodes: Seq<GraphNode>, edges: Seq<GraphEdge>, p: Seq<char>) -> bool {
    exists|c: Seq<char>| #[trigger] child_of(nodes, edges, p, c)
}

/// How many elements a branch holds, directly or further down, the container itself not
/// counted.
pub open spec fn branch_size(nodes: Seq<GraphNode>, edges: Seq<GraphEdge>, p: Seq<char>) -> nat {
    Set::new(|x: Seq<char>| x != p && contained(nodes, edges, p, x)).len()
}

/// Whether branch `a` is listed before branch `b`: larger first, then by id.
pub open spec fn branch_before(a: (Seq<char>, int), b: (Seq<char>, int)) -> bool {
    a.1 > b.1 || (a.1 == b.1 && lex_lt(a.0, b.0))
}

/// A branch's id and size.
pub open spec fn branch_view(b: (String, usize)) -> (Seq<char>, int) {
    (b.0@, b.1 as int)
}

/// The distinct containers, in order of their first relationship.
fn containers(graph: &Graph) -> (r: Vec<String>)
    ensures
        texts(r@).no_duplicates(),
        forall|p: Seq<char>| #[trigger] texts(r@).contains(p) <==> is_container(graph.nodes@, graph.edges@, p),
{
    let ghost ns = graph.nodes@;
    let ghost es = graph.edges@;
    let mut out: Vec<String> = Vec::new();
    let mut j: usize = 0;
    while j < graph.edges.len()
        invariant
            ns == graph.nodes@,
            es == graph.edges@,
            j <= es.len(),
            texts(out@).no_duplicates(),
            forall|p: Seq<char>| #[trigger] texts(out@).contains(p) <==> exists|k: int, c: Seq<char>|
                0 <= k < j && #[trigger] holds_part(ns, es[k], p, c),
        decreases es.len() - j,
    {
        let e = &graph.edges[j];
        let kind = chars_of(e.kind.as_str());
        let holds_one = (chars_equal(&kind, "part") || chars_equal(&kind, "contains"))
            && defines(&graph.nodes, &e.source) && defines(&graph.nodes, &e.target);
        let ghost before = out@;
        if holds_one && !holds(&out, &e.source) {
            out.push(e.source.clone());
        }
        proof {
            let t = texts(out@);
            let tb = texts(before);
            if holds_one && !tb.contains(e.source@) {
                assert(t =~= tb.push(e.source@));
                assert(t.no_duplicates()) by {
                    assert forall|a: int, b: int| 0 <= a < t.len() && 0 <= b < t.len() && a != b implies t[a] != t[b] by {
                        if a < tb.len() && b < tb.len() {
                            assert(tb[a] != tb[b]);
                        } else if a < tb.len() {
                            assert(tb.contains(t[a]));
                        } else {
                            assert(tb.contains(t[b]));
                        }
                    }
                }
            } else {
                assert(t == tb);
            }
            assert(es[j as int] == *e);
            assert(holds_one == ((e.kind@ == "part"@ || e.kind@ == "contains"@) && crate::scope::is_node(ns, e.source@)
                && crate::scope::is_node(ns, e.target@)));
            assert forall|x: Seq<char>| #[trigger] tb.contains(x) implies t.contains(x) by {
                let a = choose|a: int| 0 <= a < tb.len() && tb[a] == x;
                assert(t[a] == x);
            }
            assert forall|p: Seq<char>| #[trigger] t.contains(p) <==> exists|k: int, c: Seq<char>|
                0 <= k < j + 1 && #[trigger] holds_part(ns, es[k], p, c) by {
                if t.contains(p) {
                    if tb.contains(p) {
                        let (k, c) = choose|k: int, c: Seq<char>| 0 <= k < j && #[trigger] holds_part(ns, es[k], p, c);
                        assert(holds_part(ns, es[k], p, c));
                    } else {
                        assert(t[t.len() - 1] == p);
                        assert(holds_one && p == e.source@);
                        assert(holds_part(ns, es[j as int], p, e.target@));
                    }
                }
                if exists|k: int, c: Seq<char>| 0 <= k < j + 1 && #[trigger] holds_part(ns, es[k], p, c) {
                    let (k, c) = choose|k: int, c: Seq<char>| 0 <= k < j + 1 && #[trigger] holds_part(ns, es[k], p, c);
                    if k < j {
                        assert(exists|k2: int, c2: Seq<char>| 0 <= k2 < j && #[trigger] holds_part(ns, es[k2], p, c2));
                        assert(tb.contains(p));
                    } else {
                        assert(holds_one);
                        assert(p == e.source@);
                        if !tb.contains(p) {
                            assert(t[t.len() - 1] == p);
                        }
                    }
                }
            }
        }
        j = j + 1;
    }
    proof {
        assert forall|p: Seq<char>| #[trigger] texts(out@).contains(p) <==> is_container(ns, es, p) by {
            if texts(out@).contains(p) {
                let (k, c) = choose|k: int, c: Seq<char>| 0 <= k < es.len() && #[trigger] holds_part(ns, es[k], p, c);
                assert(child_of(ns, es, p, c));
            }
            if is_container(ns, es, p) {
                let c = choose|c: Seq<char>| #[trigger] child_of(ns, es, p, c);
                let k = choose|k: int| 0 <= k < es.len() && #[trigger] holds_part(ns, es[k], p, c);
                assert(exists|k2: int, c2: Seq<char>| 0 <= k2 < es.len() && #[trigger] holds_part(ns, es[k2], p, c2));
            }
        }
    }
    out
}

/// The ids of the branches.
pub open spec fn branch_ids(r: Seq<(String, usize)>) -> Seq<Seq<char>> {
    r.map_values(|b: (String, usize)| b.0@)
}

proof fn lemma_branch_order(a: (Seq<char>, int), b: (Seq<char>, int), c: (Seq<char>, int))
    ensures
        a.0 != b.0 ==> (branch_before(a, b) || branch_before(b, a)),
        !(branch_before(a, b) && branch_before(b, a)),
        branch_before(a, b) && branch_before(b, c) ==> branch_before(a, c),
{
    lemma_lex_irreflexive(a.0);
    if a.0 != b.0 {
        lemma_lex_total(a.0, b.0);
    }
    if branch_before(a, b) && branch_before(b, c) && a.1 == b.1 && b.1 == c.1 {
        lemma_lex_transitive(a.0, b.0, c.0);
    }
}

/// How many elements the branch under `p` holds.
fn branch_count(graph: &Graph, p: &String) -> (r: usize)
    ensures
        r == branch_size(graph.nodes@, graph.edges@, p@),
{
    let d = descendants(graph, p);
    proof {
        let ns = graph.nodes@;
        let es = graph.edges@;
        let t = texts(d@);
        assert(crate::scope::is_descent(ns, es, seq![p@], p@, p@));
        assert(contained(ns, es, p@, p@));
        assert(listed(d@, p@));
        t.unique_seq_to_set();
        let all = Set::new(|x: Seq<char>| contained(ns, es, p@, x));
        assert(t.to_set() =~= all) by {
            assert forall|x: Seq<char>| t.to_set().contains(x) <==> all.contains(x) by {
                assert(listed(d@, x) <==> contained(ns, es, p@, x));
            }
        }
        assert(Set::new(|x: Seq<char>| x != p@ && contained(ns, es, p@, x)) =~= all.remove(p@));
        vstd::seq_lib::seq_to_set_is_finite(t);
        assert(all.contains(p@));
        assert(all.remove(p@).len() == all.len() - 1);
        assert(d@.len() == t.len());
    }
    d.len() - 1
}

/// The containers that hold something, most-populated branch first, each with how many
/// elements its branch holds. Ties break on id, so the list is stable from load to load.
pub fn containment_roots(graph: &Graph) -> (r: Vec<(String, usize)>)
    ensures
        forall|i: int, j: int| 0 <= i < j < r@.len() ==> branch_before(branch_view(#[trigger] r@[i]), branch_view(#[trigger] r@[j])),
        forall|p: Seq<char>| #[trigger] branch_ids(r@).contains(p) <==> is_container(graph.nodes@, graph.edges@, p),
        forall|i: int| 0 <= i < r@.len() ==> (#[trigger] r@[i]).1 == branch_size(graph.nodes@, graph.edges@, r@[i].0@),
{
    let cs = containers(graph);
    let ghost cv = texts(cs@);
    let mut out: Vec<(String, usize)> = Vec::new();
    let mut i: usize = 0;
    while i < cs.len()
        invariant
            cv == texts(cs@),
            cv.no_duplicates(),
            i <= cs@.len(),
            forall|a: int, b: int| 0 <= a < b < out@.len() ==> branch_before(branch_view(#[trigger] out@[a]), branch_view(#[trigger] out@[b])),
            forall|p: Seq<char>| #[trigger] branch_ids(out@).contains(p) <==> cv.take(i as int).contains(p),
            forall|a: int| 0 <= a < out@.len() ==> (#[trigger] out@[a]).1 == branch_size(graph.nodes@, graph.edges@, out@[a].0@),
        decreases cs@.len() - i,
    {
        let p = &cs[i];
        let size = branch_count(graph, p);
        let ghost before = out@;
        let ghost x = (p@, size as int);
        proof {
            assert(!cv.take(i as int).contains(p@)) by {
                if cv.take(i as int).contains(p@) {
                    let a = choose|a: int| 0 <= a < i && #[trigger] cv.take(i as int)[a] == p@;
                    assert(cv[a] == cv[i as int]);
                }
            }
        }
        let pc = chars_of(p.as_str());
        let mut q: usize = 0;
        while q < out.len() && !(size > out[q].1 || (size == out[q].1 && chars_less(&pc, &chars_of(out[q].0.as_str()))))
            invariant
                pc@ == p@,
                x == (p@, size as int),
                q <= out@.len(),
                forall|k: int| 0 <= k < q ==> !branch_before(x, branch_view(#[trigger] out@[k])),
            decreases out@.len() - q,
        {
            q = q + 1;
        }
        proof {
            if q < out@.len() {
                assert(branch_before(x, branch_view(out@[q as int])));
            }
            assert forall|k: int| 0 <= k < before.len() implies before[k].0@ != p@ by {
                assert(branch_ids(before)[k] == before[k].0@);
                assert(branch_ids(before).contains(before[k].0@));
            }
        }
        out.insert(q, (p.clone(), size));
        proof {
            let n = out@;
            assert(n =~= before.insert(q as int, n[q as int]));
            assert(branch_view(n[q as int]) == x);
            assert forall|a: int, b: int| 0 <= a < b < n.len() implies branch_before(branch_view(#[trigger] n[a]), branch_view(#[trigger] n[b])) by {
                if b < q {
                    assert(n[a] == before[a] && n[b] == before[b]);
                } else if b == q {
                    assert(n[a] == before[a]);
                    lemma_branch_order(x, branch_view(before[a]), branch_view(before[a]));
                } else if a < q {
                    assert(n[a] == before[a] && n[b] == before[b - 1]);
                    let va = branch_view(before[a]);
                    let vq = branch_view(before[q as int]);
                    lemma_branch_order(x, va, va);
                    lemma_branch_order(va, x, vq);
                    if b - 1 > q {
                        lemma_branch_order(va, vq, branch_view(before[b - 1]));
                    }
                } else if a == q {
                    assert(n[b] == before[b - 1]);
                    if b - 1 > q {
                        lemma_branch_order(x, branch_view(before[q as int]), branch_view(before[b - 1]));
                    }
                } else {
                    assert(n[a] == before[a - 1] && n[b] == before[b - 1]);
                }
            }
            assert(cv.take(i + 1) =~= cv.take(i as int).push(p@));
            assert forall|y: Seq<char>| #[trigger] branch_ids(n).contains(y) <==> cv.take(i + 1).contains(y) by {
                if branch_ids(n).contains(y) {
                    let k = choose|k: int| 0 <= k < branch_ids(n).len() && branch_ids(n)[k] == y;
                    if k < q {
                        assert(n[k] == before[k]);
                        assert(branch_ids(before)[k] == y);
                        assert(branch_ids(before).contains(y));
                        assert(cv.take(i as int).contains(y));
                        let a = choose|a: int| 0 <= a < i && #[trigger] cv.take(i as int)[a] == y;
                        assert(cv.take(i + 1)[a] == y);
                    } else if k > q {
                        assert(n[k] == before[k - 1]);
                        assert(branch_ids(before)[k - 1] == y);
                        assert(branch_ids(before).contains(y));
                        assert(cv.take(i as int).contains(y));
                        let a = choose|a: int| 0 <= a < i && #[trigger] cv.take(i as int)[a] == y;
                        assert(cv.take(i + 1)[a] == y);
                    } else {
                        assert(n[q as int].0@ == p@);
                        assert(cv.take(i + 1)[i as int] == y);
                    }
                }
                if cv.take(i + 1).contains(y) {
                    let k = choose|k: int| 0 <= k < i + 1 && #[trigger] cv.take(i + 1)[k] == y;
                    if k < i {
                        assert(cv.take(i as int)[k] == y);
                        assert(branch_ids(before).contains(y));
                        let a = choose|a: int| 0 <= a < branch_ids(before).len() && branch_ids(before)[a] == y;
                        if a < q {
                            assert(n[a] == before[a]);
                            assert(branch_ids(n)[a] == y);
                        } else {
                            assert(n[a + 1] == before[a]);
                            assert(branch_ids(n)[a + 1] == y);
                        }
                    } else {
                        assert(n[q as int].0@ == p@);
                        assert(branch_ids(n)[q as int] == y);
                    }
                }
            }
            assert forall|a: int| 0 <= a < n.len() implies (#[trigger] n[a]).1 == branch_size(graph.nodes@, graph.edges@, n[a].0@) by {
                if a < q {
                    assert(n[a] == before[a]);
                } else if a > q {
                    assert(n[a] == before[a - 1]);
                }
            }
        }
        i = i + 1;
    }
    proof {
        assert(cv.take(i as int) =~= cv);
    }
    out
}

} // verus!
