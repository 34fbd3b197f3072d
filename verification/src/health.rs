//! What the model health page reads off a model besides the engine's own measures: the name
//! each id is known by, and the links whose ends the model does not define, in a stable order.

use vstd::prelude::*;
use crate::kinds::{in_key_order, key_of, key_texts, same_width, sort_by_keys};
use crate::form::ints;
use crate::scope::{GraphEdge, GraphNode};
use crate::sections::{find_last, last_node, unresolved_edges, unresolved_of, unresolved_view, UnresolvedEdge};
use crate::text::chars_of;

verus! {

/// The first name a list of (id, name) pairs gives an id.
pub open spec fn first_name(pairs: Seq<(Seq<char>, Seq<char>)>, id: Seq<char>) -> Option<Seq<char>>
    decreases pairs.len(),
{
    if pairs.len() == 0 {
        None
    } else if pairs[0].0 == id {
        Some(pairs[0].1)
    } else {
        first_name(pairs.drop_first(), id)
    }
}

/// The name an id is known by: the graph's own name for it (the last node with that id), and
/// otherwise the first name the model's other lists give it, in the order the page reads them
/// (structure, interfaces, signals, requirements).
pub open spec fn known_name(nodes: Seq<GraphNode>, others: Seq<(Seq<char>, Seq<char>)>, id: Seq<char>) -> Option<Seq<char>> {
    match last_node(nodes, id) {
        Some(n) => Some(n.name@),
        None => first_name(others, id),
    }
}

/// The name an id is known by.
pub fn name_for(id: &String, nodes: &Vec<GraphNode>, others: &Vec<(String, String)>) -> (r: Option<String>)
    ensures
        match r {
            Some(s) => known_name(nodes@, others@.map_values(|p: (String, String)| (p.0@, p.1@)), id@) == Some(s@),
            None => known_name(nodes@, others@.map_values(|p: (String, String)| (p.0@, p.1@)), id@) is None,
        },
{
    match find_last(nodes, id) {
        Some(k) => {
            return Some(nodes[k].name.clone());
        },
        None => {},
    }
    let ghost ov = others@.map_values(|p: (String, String)| (p.0@, p.1@));
    let mut i: usize = 0;
    proof {
        assert(ov.skip(0) =~= ov);
    }
    while i < others.len()
        invariant
            ov == others@.map_values(|p: (String, String)| (p.0@, p.1@)),
            last_node(nodes@, id@) is None,
            i <= others@.len(),
            first_name(ov, id@) == first_name(ov.skip(i as int), id@),
        decreases others@.len() - i,
    {
        proof {
            assert(ov.skip(i as int)[0] == (others@[i as int].0@, others@[i as int].1@));
            assert(ov.skip(i as int).drop_first() =~= ov.skip(i + 1));
        }
        if others[i].0 == *id {
            return Some(others[i].1.clone());
        }
        i = i + 1;
    }
    proof {
        assert(ov.skip(i as int) =~= Seq::<(Seq<char>, Seq<char>)>::empty());
    }
    None
}

/// The texts a dangling link is ordered by: source, target, kind, label.
pub open spec fn link_texts(u: (Seq<char>, Seq<char>, Seq<char>, Seq<char>, bool, bool)) -> Seq<Seq<char>> {
    seq![u.0, u.1, u.2, u.3]
}

/// Whether `order` sorts the links by source, target, kind and label, ties in edge order.
pub open spec fn links_sorted(links: Seq<(Seq<char>, Seq<char>, Seq<char>, Seq<char>, bool, bool)>, order: Seq<int>) -> bool {
    &&& order.len() == links.len()
    &&& forall|x: int| #[trigger] order.contains(x) <==> 0 <= x < links.len()
    &&& forall|i: int, j: int| 0 <= i < j < order.len() ==> crate::kinds::key_before(
        (0, link_texts(links[#[trigger] order[i]]), order[i]),
        (0, link_texts(links[#[trigger] order[j]]), order[j]),
    )
}

/// The links with an end the model does not define, in edge order.
pub open spec fn dangling_of(nodes: Seq<GraphNode>, edges: Seq<GraphEdge>) -> Seq<(Seq<char>, Seq<char>, Seq<char>, Seq<char>, bool, bool)> {
    edges.filter_map(|e: GraphEdge| unresolved_of(nodes, e))
}

/// Every link with an end the model does not define, ordered by source, target, kind and
/// label, so the same model always lists them the same way.
pub fn dangling_links(nodes: &Vec<GraphNode>, edges: &Vec<GraphEdge>) -> (r: Vec<UnresolvedEdge>)
    ensures
        exists|order: Seq<int>|
            #[trigger] links_sorted(dangling_of(nodes@, edges@), order) && r@.map_values(|u: UnresolvedEdge| unresolved_view(u))
                == order.map_values(|k: int| dangling_of(nodes@, edges@)[k]),
{
    let found = unresolved_edges(nodes, edges);
    let ghost links = dangling_of(nodes@, edges@);
    let ghost fv = found@.map_values(|u: UnresolvedEdge| unresolved_view(u));
    proof {
        assert(fv == links);
        assert(fv.len() == found@.len());
    }
    let mut keys: Vec<(usize, Vec<Vec<char>>)> = Vec::new();
    let mut i: usize = 0;
    while i < found.len()
        invariant
            fv == found@.map_values(|u: UnresolvedEdge| unresolved_view(u)),
            i <= found@.len(),
            keys@.len() == i,
            forall|k: int| 0 <= k < i ==> #[trigger] keys@[k].0 == 0 && keys@[k].1@.len() == 4
                && key_texts(keys@[k].1@) == link_texts(fv[k]),
        decreases found@.len() - i,
    {
        let u = &found[i];
        let mut t: Vec<Vec<char>> = Vec::new();
        t.push(chars_of(u.source.as_str()));
        t.push(chars_of(u.target.as_str()));
        t.push(chars_of(u.kind.as_str()));
        t.push(chars_of(u.label.as_str()));
        proof {
            assert(key_texts(t@) =~= link_texts(fv[i as int]));
        }
        keys.push((0, t));
        i = i + 1;
    }
    proof {
        assert forall|a: int, b: int| 0 <= a < keys@.len() && 0 <= b < keys@.len() implies #[trigger] keys@[a].1@.len() == #[trigger] keys@[b].1@.len() by {
            assert(keys@[a].0 == 0 && keys@[b].0 == 0);
        }
    }
    let order = sort_by_keys(&keys);
    let mut out: Vec<UnresolvedEdge> = Vec::new();
    let mut j: usize = 0;
    while j < order.len()
        invariant
            fv == found@.map_values(|u: UnresolvedEdge| unresolved_view(u)),
            order@.len() == found@.len(),
            forall|x: int| #[trigger] ints(order@).contains(x) <==> 0 <= x < found@.len(),
            j <= order@.len(),
            out@.map_values(|u: UnresolvedEdge| unresolved_view(u)) == ints(order@).take(j as int).map_values(|k: int| fv[k]),
        decreases order@.len() - j,
    {
        let k = order[j];
        proof {
            assert(ints(order@)[j as int] == k as int);
            assert(ints(order@).contains(k as int));
        }
        let u = &found[k];
        let ghost before = out@;
        out.push(UnresolvedEdge {
            source: u.source.clone(),
            target: u.target.clone(),
            kind: u.kind.clone(),
            label: u.label.clone(),
            source_missing: u.source_missing,
            target_missing: u.target_missing,
        });
        proof {
            assert(ints(order@).take(j + 1) =~= ints(order@).take(j as int).push(k as int));
            assert(out@.map_values(|u: UnresolvedEdge| unresolved_view(u)) =~= before.map_values(|u: UnresolvedEdge| unresolved_view(u)).push(fv[k as int]));
        }
        j = j + 1;
    }
    proof {
        let o = ints(order@);
        assert(o.take(j as int) =~= o);
        assert forall|a: int, b: int| 0 <= a < b < o.len() implies crate::kinds::key_before(
            (0, link_texts(links[#[trigger] o[a]]), o[a]),
            (0, link_texts(links[#[trigger] o[b]]), o[b]),
        ) by {
            assert(o.contains(o[a]) && o.contains(o[b]));
            assert(keys@[o[a]].0 == 0 && keys@[o[b]].0 == 0);
            assert(key_of(keys@, o[a]) == (0int, link_texts(links[o[a]]), o[a]));
            assert(key_of(keys@, o[b]) == (0int, link_texts(links[o[b]]), o[b]));
        }
        assert(links_sorted(links, o));
    }
    out
}

/// The members of a component, as texts.
pub open spec fn group_texts(g: Vec<String>) -> Seq<Seq<char>> {
    g@.map_values(|s: String| s@)
}

/// The isolated groups of a model: every connected component after the first (the main body,
/// which the graph analysis lists first as the largest) that has two or more members. A
/// component of one is an orphaned element, which the page lists on its own, so it is not
/// repeated here.
pub open spec fn isolated_of(groups: Seq<Seq<Seq<char>>>) -> Seq<Seq<Seq<char>>> {
    if groups.len() == 0 {
        Seq::empty()
    } else {
        groups.drop_first().filter(|g: Seq<Seq<char>>| g.len() >= 2)
    }
}

/// The isolated groups among the components the graph analysis reports, main body first.
pub fn isolated_groups(groups: &Vec<Vec<String>>) -> (r: Vec<Vec<String>>)
    ensures
        r@.map_values(|g: Vec<String>| group_texts(g)) == isolated_of(groups@.map_values(|g: Vec<String>| group_texts(g))),
{
    let ghost all = groups@.map_values(|g: Vec<String>| group_texts(g));
    let ghost keep = |g: Seq<Seq<char>>| g.len() >= 2;
    let mut out: Vec<Vec<String>> = Vec::new();
    if groups.len() == 0 {
        proof {
            assert(out@.map_values(|g: Vec<String>| group_texts(g)) =~= Seq::<Seq<Seq<char>>>::empty());
        }
        return out;
    }
    let mut i: usize = 1;
    proof {
        assert(all.subrange(1, 1).filter(keep) =~= Seq::<Seq<Seq<char>>>::empty());
        assert(out@.map_values(|g: Vec<String>| group_texts(g)) =~= all.subrange(1, 1).filter(keep));
    }
    while i < groups.len()
        invariant
            all == groups@.map_values(|g: Vec<String>| group_texts(g)),
            keep == (|g: Seq<Seq<char>>| g.len() >= 2),
            1 <= i <= groups@.len(),
            out@.map_values(|g: Vec<String>| group_texts(g)) == all.subrange(1, i as int).filter(keep),
        decreases groups@.len() - i,
    {
        proof {
            assert(all.subrange(1, i + 1) =~= all.subrange(1, i as int).push(all[i as int]));
            all.subrange(1, i as int).lemma_filter_push(all[i as int], keep);
            assert(group_texts(groups@[i as int]).len() == groups@[i as int]@.len());
        }
        if groups[i].len() >= 2 {
            let ghost before = out@;
            let g = groups[i].clone();
            proof {
                assert(group_texts(g) =~= group_texts(groups@[i as int]));
            }
            out.push(g);
            proof {
                assert(out@.map_values(|g: Vec<String>| group_texts(g)) =~= before.map_values(|g: Vec<String>| group_texts(g)).push(all[i as int]));
            }
        }
        i = i + 1;
    }
    proof {
        assert(all.subrange(1, i as int) =~= all.drop_first());
    }
    out
}

} // verus!
