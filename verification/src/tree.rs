//! The structure section's containment tree.
//!
//! The section is a forest, not a tree: a model may have many top-level elements, and one
//! element may be a part of two different parents. Every element renders exactly once, at the
//! depth of its first-discovered parent, so neither a shared part nor a containment cycle can
//! duplicate or drop an element. The walk starts from the elements nothing contains, in name
//! order; whatever it never reaches (the members of a cycle) is drawn afterwards as a
//! top-level element of its own, again in name order.

use vstd::prelude::*;
use crate::composition::{distinct, position_of};
use crate::edit::Element;
use crate::form::ints;
use crate::order::{lemma_lex_asymmetric, lemma_lex_irreflexive, lemma_lex_total, lemma_lex_transitive, lex_lt};
use crate::scope::{Graph, GraphEdge};
use crate::text::{chars_equal, chars_of, texts};

verus! {

/// One line of the tree: which element, and how deep.
pub struct TreeEntry {
    /// The element's position in the model's structure list.
    pub element: usize,
    pub depth: usize,
}

/// The ids of the structure elements.
pub open spec fn element_ids(elements: Seq<Element>) -> Seq<Seq<char>> {
    elements.map_values(|e: Element| e.id@)
}

/// The names of the structure elements.
pub open spec fn element_names(elements: Seq<Element>) -> Seq<Seq<char>> {
    elements.map_values(|e: Element| e.name@)
}

/// Whether an edge makes one structure element a part of another: a part or contains
/// relationship between two structure elements.
pub open spec fn part_edge(ids: Seq<Seq<char>>, e: GraphEdge) -> bool {
    &&& (e.kind@ == "part"@ || e.kind@ == "contains"@)
    &&& ids.contains(e.source@)
    &&& ids.contains(e.target@)
}

/// Whether something contains element `x`.
pub open spec fn has_parent(ids: Seq<Seq<char>>, edges: Seq<GraphEdge>, x: int) -> bool {
    exists|j: int| 0 <= j < edges.len() && #[trigger] part_edge(ids, edges[j]) && ids.index_of(edges[j].target@) == x
}

/// Whether item `a` comes before item `b`: by label, then by position.
pub open spec fn keyed_before(label: Seq<Seq<char>>, a: int, b: int) -> bool {
    lex_lt(label[a], label[b]) || (label[a] == label[b] && a < b)
}

/// Whether items are in label order, ties in position order.
pub open spec fn keyed_sorted(label: Seq<Seq<char>>, s: Seq<int>) -> bool {
    forall|i: int, j: int| 0 <= i < j < s.len() ==> keyed_before(label, #[trigger] s[i], #[trigger] s[j])
}

/// The name of the part each edge points to, for ordering an element's parts by name.
pub open spec fn part_names(ids: Seq<Seq<char>>, names: Seq<Seq<char>>, edges: Seq<GraphEdge>) -> Seq<Seq<char>> {
    Seq::new(
        edges.len(),
        |j: int| if part_edge(ids, edges[j]) {
            names[ids.index_of(edges[j].target@)]
        } else {
            Seq::empty()
        },
    )
}

/// Whether `tops` lists the elements nothing contains, by name, then the others, by name.
pub open spec fn tops_of(ids: Seq<Seq<char>>, names: Seq<Seq<char>>, edges: Seq<GraphEdge>, tops: Seq<int>) -> bool {
    exists|roots: Seq<int>, others: Seq<int>|
        #[trigger] keyed_sorted(names, roots) && #[trigger] keyed_sorted(names, others) && tops == roots + others
            && (forall|x: int| #[trigger] roots.contains(x) <==> 0 <= x < ids.len() && !has_parent(ids, edges, x))
            && (forall|x: int| #[trigger] others.contains(x) <==> 0 <= x < ids.len() && has_parent(ids, edges, x))
}

/// Whether `slots` lists the edges that make parts of element `p`, by the part's name, ties
/// in edge order.
pub open spec fn slots_of(ids: Seq<Seq<char>>, names: Seq<Seq<char>>, edges: Seq<GraphEdge>, p: int, slots: Seq<int>) -> bool {
    &&& keyed_sorted(part_names(ids, names, edges), slots)
    &&& forall|j: int| #[trigger] slots.contains(j) <==> 0 <= j < edges.len() && part_edge(ids, edges[j])
        && ids.index_of(edges[j].source@) == p
}

/// The parts those edges point to, in order.
pub open spec fn parts_in(ids: Seq<Seq<char>>, edges: Seq<GraphEdge>, slots: Seq<int>) -> Seq<int> {
    slots.map_values(|j: int| ids.index_of(edges[j].target@))
}

proof fn lemma_keyed_order(label: Seq<Seq<char>>, a: int, b: int, c: int)
    ensures
        a != b ==> (keyed_before(label, a, b) || keyed_before(label, b, a)),
        !(keyed_before(label, a, b) && keyed_before(label, b, a)),
        !keyed_before(label, a, a),
        keyed_before(label, a, b) && keyed_before(label, b, c) ==> keyed_before(label, a, c),
{
    lemma_lex_irreflexive(label[a]);
    if label[a] != label[b] {
        lemma_lex_total(label[a], label[b]);
    }
    if keyed_before(label, a, b) && keyed_before(label, b, c) {
        if lex_lt(label[a], label[b]) && lex_lt(label[b], label[c]) {
            lemma_lex_transitive(label[a], label[b], label[c]);
        }
    }
}

/// Adds an item to a list kept in label order.
fn insert_keyed(list: &mut Vec<usize>, label: &Vec<String>, x: usize)
    requires
        keyed_sorted(texts(label@), ints(old(list)@)),
        x < label@.len(),
        forall|i: int| 0 <= i < old(list)@.len() ==> old(list)@[i] < label@.len(),
        !ints(old(list)@).contains(x as int),
    ensures
        keyed_sorted(texts(label@), ints(final(list)@)),
        forall|i: int| 0 <= i < final(list)@.len() ==> final(list)@[i] < label@.len(),
        forall|y: int| #[trigger] ints(final(list)@).contains(y) <==> (ints(old(list)@).contains(y) || y == x),
{
    let ghost lv = texts(label@);
    let ghost o = ints(old(list)@);
    let xs = chars_of(label[x].as_str());
    let mut p: usize = 0;
    while p < list.len() && !crate::order::chars_less(&xs, &chars_of(label[list[p]].as_str()))
        && !(chars_equal(&xs, label[list[p]].as_str()) && x < list[p])
        invariant
            list@ == old(list)@,
            lv == texts(label@),
            o == ints(old(list)@),
            xs@ == lv[x as int],
            forall|i: int| 0 <= i < list@.len() ==> list@[i] < label@.len(),
            p <= list@.len(),
            forall|j: int| 0 <= j < p ==> !keyed_before(lv, x as int, #[trigger] o[j]),
        decreases list@.len() - p,
    {
        proof {
            assert(o[p as int] == list@[p as int] as int);
            assert(lv[list@[p as int] as int] == label@[list@[p as int] as int]@);
        }
        p = p + 1;
    }
    let ghost before_list = list@;
    proof {
        if p < list@.len() {
            assert(o[p as int] == list@[p as int] as int);
            assert(lv[list@[p as int] as int] == label@[list@[p as int] as int]@);
            assert(keyed_before(lv, x as int, o[p as int]));
        }
    }
    list.insert(p, x);
    proof {
        let n = ints(list@);
        assert(n =~= o.insert(p as int, x as int));
        assert forall|i: int, j: int| 0 <= i < j < n.len() implies keyed_before(lv, #[trigger] n[i], #[trigger] n[j]) by {
            if j < p {
                assert(keyed_before(lv, o[i], o[j]));
            } else if j == p {
                assert(!keyed_before(lv, x as int, o[i]));
                assert(o[i] != x as int) by {
                    if o[i] == x as int {
                        assert(o.contains(x as int));
                    }
                }
                lemma_keyed_order(lv, x as int, o[i], o[i]);
            } else if i < p {
                assert(!keyed_before(lv, x as int, o[i]));
                assert(o[i] != x as int) by {
                    if o[i] == x as int {
                        assert(o.contains(x as int));
                    }
                }
                lemma_keyed_order(lv, x as int, o[i], o[i]);
                assert(keyed_before(lv, x as int, o[p as int]));
                lemma_keyed_order(lv, o[i], x as int, o[p as int]);
                if j - 1 > p {
                    assert(keyed_before(lv, o[p as int], o[j - 1]));
                    lemma_keyed_order(lv, o[i], o[p as int], o[j - 1]);
                }
            } else if i == p {
                assert(keyed_before(lv, x as int, o[p as int]));
                if j - 1 > p {
                    assert(keyed_before(lv, o[p as int], o[j - 1]));
                    lemma_keyed_order(lv, x as int, o[p as int], o[j - 1]);
                }
            } else {
                assert(keyed_before(lv, o[i - 1], o[j - 1]));
            }
        }
        assert forall|y: int| #[trigger] n.contains(y) <==> (o.contains(y) || y == x) by {
            if n.contains(y) {
                let k = choose|k: int| 0 <= k < n.len() && n[k] == y;
                if k < p {
                    assert(o[k] == y);
                } else if k > p {
                    assert(o[k - 1] == y);
                }
            }
            if o.contains(y) {
                let k = choose|k: int| 0 <= k < o.len() && o[k] == y;
                if k < p {
                    assert(n[k] == y);
                } else {
                    assert(n[k + 1] == y);
                }
            }
            if y == x {
                assert(n[p as int] == y);
            }
        }
    }
}

/// The ids and names of the elements.
fn ids_and_names(elements: &Vec<Element>) -> (r: (Vec<String>, Vec<String>))
    ensures
        texts(r.0@) == element_ids(elements@),
        texts(r.1@) == element_names(elements@),
{
    let mut ids: Vec<String> = Vec::new();
    let mut names: Vec<String> = Vec::new();
    let mut i: usize = 0;
    while i < elements.len()
        invariant
            i <= elements@.len(),
            texts(ids@) == element_ids(elements@).take(i as int),
            texts(names@) == element_names(elements@).take(i as int),
        decreases elements@.len() - i,
    {
        let ghost bi = ids@;
        let ghost bn = names@;
        ids.push(elements[i].id.clone());
        names.push(elements[i].name.clone());
        proof {
            assert(texts(ids@) =~= texts(bi).push(elements@[i as int].id@));
            assert(texts(names@) =~= texts(bn).push(elements@[i as int].name@));
            assert(element_ids(elements@).take(i + 1) =~= element_ids(elements@).take(i as int).push(elements@[i as int].id@));
            assert(element_names(elements@).take(i + 1) =~= element_names(elements@).take(i as int).push(elements@[i as int].name@));
        }
        i = i + 1;
    }
    proof {
        assert(element_ids(elements@).take(i as int) =~= element_ids(elements@));
        assert(element_names(elements@).take(i as int) =~= element_names(elements@));
    }
    (ids, names)
}

/// For each edge, the container and the part it relates, when it makes a part.
fn part_links(ids: &Vec<String>, edges: &Vec<GraphEdge>) -> (r: Vec<Option<(usize, usize)>>)
    requires
        distinct(texts(ids@)),
    ensures
        r@.len() == edges@.len(),
        forall|j: int| 0 <= j < r@.len() ==> match #[trigger] r@[j] {
            Some(st) => part_edge(texts(ids@), edges@[j]) && st.0 < ids@.len() && st.1 < ids@.len()
                && texts(ids@).index_of(edges@[j].source@) == st.0 as int
                && texts(ids@).index_of(edges@[j].target@) == st.1 as int,
            None => !part_edge(texts(ids@), edges@[j]),
        },
{
    let mut out: Vec<Option<(usize, usize)>> = Vec::new();
    let mut j: usize = 0;
    while j < edges.len()
        invariant
            distinct(texts(ids@)),
            j <= edges@.len(),
            out@.len() == j,
            forall|k: int| 0 <= k < j ==> match #[trigger] out@[k] {
                Some(st) => part_edge(texts(ids@), edges@[k]) && st.0 < ids@.len() && st.1 < ids@.len()
                    && texts(ids@).index_of(edges@[k].source@) == st.0 as int
                    && texts(ids@).index_of(edges@[k].target@) == st.1 as int,
                None => !part_edge(texts(ids@), edges@[k]),
            },
        decreases edges@.len() - j,
    {
        let e = &edges[j];
        let kind = chars_of(e.kind.as_str());
        let mut found: Option<(usize, usize)> = None;
        if chars_equal(&kind, "part") || chars_equal(&kind, "contains") {
            match position_of(ids, &e.source) {
                Some(s) => match position_of(ids, &e.target) {
                    Some(t) => {
                        found = Some((s, t));
                    },
                    None => {},
                },
                None => {},
            }
        }
        out.push(found);
        j = j + 1;
    }
    out
}

/// Whether a link makes `x` a part.
pub open spec fn points_to(link: Option<(usize, usize)>, x: int) -> bool {
    match link {
        Some(st) => st.1 == x,
        None => false,
    }
}

/// Which elements something contains.
fn contained_flags(n: usize, links: &Vec<Option<(usize, usize)>>) -> (r: Vec<bool>)
    requires
        forall|j: int| 0 <= j < links@.len() ==> (#[trigger] links@[j] matches Some(st) ==> st.1 < n),
    ensures
        r@.len() == n,
        forall|x: int| 0 <= x < n ==> (#[trigger] r@[x] <==> exists|j: int| 0 <= j < links@.len() && #[trigger] points_to(links@[j], x)),
{
    let mut flags: Vec<bool> = Vec::new();
    let mut w: usize = 0;
    while w < n
        invariant
            w <= n,
            flags@.len() == w,
            forall|x: int| 0 <= x < w ==> !flags@[x],
        decreases n - w,
    {
        flags.push(false);
        w = w + 1;
    }
    let mut j: usize = 0;
    while j < links.len()
        invariant
            forall|k: int| 0 <= k < links@.len() ==> (#[trigger] links@[k] matches Some(st) ==> st.1 < n),
            flags@.len() == n,
            j <= links@.len(),
            forall|x: int| 0 <= x < n ==> (#[trigger] flags@[x] <==> exists|k: int| 0 <= k < j && #[trigger] points_to(links@[k], x)),
        decreases links@.len() - j,
    {
        match links[j] {
            Some((_, t)) => {
                flags.set(t, true);
                proof {
                    assert forall|x: int| 0 <= x < n implies (#[trigger] flags@[x] <==> exists|k: int| 0 <= k < j + 1 && #[trigger] points_to(links@[k], x)) by {
                        if x == t as int {
                            assert(points_to(links@[j as int], x));
                        }
                        if exists|k: int| 0 <= k < j + 1 && #[trigger] points_to(links@[k], x) {
                            let k = choose|k: int| 0 <= k < j + 1 && #[trigger] points_to(links@[k], x);
                            if k < j {
                                assert(exists|k2: int| 0 <= k2 < j && #[trigger] points_to(links@[k2], x));
                            }
                        }
                    }
                }
            },
            None => {
                proof {
                    assert forall|x: int| 0 <= x < n implies (#[trigger] flags@[x] <==> exists|k: int| 0 <= k < j + 1 && #[trigger] points_to(links@[k], x)) by {
                        if exists|k: int| 0 <= k < j + 1 && #[trigger] points_to(links@[k], x) {
                            let k = choose|k: int| 0 <= k < j + 1 && #[trigger] points_to(links@[k], x);
                            assert(k != j);
                            assert(exists|k2: int| 0 <= k2 < j && #[trigger] points_to(links@[k2], x));
                        }
                    }
                }
            },
        }
        j = j + 1;
    }
    flags
}

/// The items `x` with `keep[x]`, in label order.
fn sorted_where(label: &Vec<String>, keep: &Vec<bool>) -> (r: Vec<usize>)
    requires
        keep@.len() == label@.len(),
    ensures
        keyed_sorted(texts(label@), ints(r@)),
        forall|i: int| 0 <= i < r@.len() ==> r@[i] < label@.len(),
        forall|y: int| #[trigger] ints(r@).contains(y) <==> (0 <= y < label@.len() && keep@[y]),
{
    let mut out: Vec<usize> = Vec::new();
    let mut x: usize = 0;
    proof {
        assert(ints(out@) =~= Seq::<int>::empty());
    }
    while x < label.len()
        invariant
            keep@.len() == label@.len(),
            x <= label@.len(),
            keyed_sorted(texts(label@), ints(out@)),
            forall|i: int| 0 <= i < out@.len() ==> out@[i] < label@.len(),
            forall|y: int| #[trigger] ints(out@).contains(y) <==> (0 <= y < x && keep@[y]),
        decreases label@.len() - x,
    {
        if keep[x] {
            insert_keyed(&mut out, label, x);
        }
        x = x + 1;
    }
    out
}

/// How many elements are not yet drawn.
pub open spec fn unseen(v: Seq<bool>) -> nat
    decreases v.len(),
{
    if v.len() == 0 {
        0
    } else {
        unseen(v.drop_last()) + if v.last() {
            0nat
        } else {
            1nat
        }
    }
}

proof fn lemma_unseen_mark(v: Seq<bool>, x: int)
    requires
        0 <= x < v.len(),
        !v[x],
    ensures
        unseen(v.update(x, true)) + 1 == unseen(v),
    decreases v.len(),
{
    let w = v.update(x, true);
    if x == v.len() - 1 {
        assert(w.drop_last() =~= v.drop_last());
    } else {
        assert(w.drop_last() =~= v.drop_last().update(x, true));
        lemma_unseen_mark(v.drop_last(), x);
    }
}

/// The walk's remaining work: for each open element, the parts left to look at, and one more
/// for closing it.
pub open spec fn work(stack: Seq<(usize, usize, usize)>, sizes: Seq<int>) -> nat
    decreases stack.len(),
{
    if stack.len() == 0 {
        0
    } else {
        work(stack.drop_last(), sizes) + ((sizes[stack.last().0 as int] - stack.last().2 + 1) as nat)
    }
}

/// The elements among the first `i` lines.
pub open spec fn seen_in(lines: Seq<(int, int)>, i: int) -> Seq<int> {
    lines.take(i).map_values(|x: (int, int)| x.0)
}

/// Whether `x` is the first item of `list` not yet `seen`.
pub open spec fn first_new(list: Seq<int>, seen: Seq<int>, x: int) -> bool {
    exists|k: int|
        0 <= k < list.len() && #[trigger] list[k] == x && !seen.contains(x) && forall|k2: int|
            0 <= k2 < k ==> seen.contains(#[trigger] list[k2])
}

/// Whether line `j` is the parent of line `i`: the nearest line above it one level up.
pub open spec fn parent_line(lines: Seq<(int, int)>, j: int, i: int) -> bool {
    &&& 0 <= j < i
    &&& lines[j].1 == lines[i].1 - 1
    &&& forall|k: int| j < k < i ==> lines[k].1 >= #[trigger] lines[i].1
}

/// Whether line `j`'s walk has drawn all of its element's parts by line `c`, with only its
/// descendants in between.
pub open spec fn closed_by(lines: Seq<(int, int)>, kids: Seq<Seq<int>>, j: int, c: int) -> bool {
    &&& j < c <= lines.len()
    &&& forall|k: int| j < k < c ==> #[trigger] lines[k].1 > lines[j].1
    &&& forall|x: int| #[trigger] kids[lines[j].0].contains(x) ==> seen_in(lines, c).contains(x)
}

/// Whether line `j`'s walk finishes its element's parts before leaving it.
pub open spec fn closes(lines: Seq<(int, int)>, kids: Seq<Seq<int>>, j: int) -> bool {
    exists|c: int| #[trigger] closed_by(lines, kids, j, c)
}

/// Whether the first `len` lines are drawn as the walk draws them: each top-level line is the
/// first of `tops` not yet drawn; each other line is the first part of its parent line's
/// element not yet drawn; depth grows one level at a time.
pub open spec fn walk_lines(tops: Seq<int>, kids: Seq<Seq<int>>, lines: Seq<(int, int)>) -> bool {
    &&& lines.len() > 0 ==> lines[0].1 == 0
    &&& forall|i: int| 0 <= i < lines.len() ==> 0 <= #[trigger] lines[i].1
    &&& forall|i: int| 0 <= i < lines.len() - 1 ==> #[trigger] lines[i + 1].1 <= lines[i].1 + 1
    &&& forall|i: int| 0 <= i < lines.len() && #[trigger] lines[i].1 == 0 ==> first_new(tops, seen_in(lines, i), lines[i].0)
    &&& forall|i: int| 0 <= i < lines.len() && #[trigger] lines[i].1 > 0 ==> exists|j: int|
        #[trigger] parent_line(lines, j, i) && first_new(kids[lines[j].0], seen_in(lines, i), lines[i].0)
}

/// Whether the walk of `lines` is the complete walk: it also finishes each element's parts
/// before leaving it.
pub open spec fn walked(tops: Seq<int>, kids: Seq<Seq<int>>, lines: Seq<(int, int)>) -> bool {
    &&& walk_lines(tops, kids, lines)
    &&& forall|j: int| 0 <= j < lines.len() ==> #[trigger] closes(lines, kids, j)
}

/// The lines' elements and depths.
pub open spec fn lines_of(r: Seq<TreeEntry>) -> Seq<(int, int)> {
    r.map_values(|t: TreeEntry| (t.element as int, t.depth as int))
}

proof fn lemma_seen_push(lines: Seq<(int, int)>, x: (int, int), i: int)
    requires
        0 <= i <= lines.len(),
    ensures
        seen_in(lines.push(x), i) == seen_in(lines, i),
{
    assert(lines.push(x).take(i) =~= lines.take(i));
}

proof fn lemma_seen_next(lines: Seq<(int, int)>, i: int)
    requires
        0 <= i < lines.len(),
    ensures
        seen_in(lines, i + 1) == seen_in(lines, i).push(lines[i].0),
{
    assert(lines.take(i + 1) =~= lines.take(i).push(lines[i]));
    assert(seen_in(lines, i + 1) =~= seen_in(lines, i).push(lines[i].0));
}

proof fn lemma_walk_push(tops: Seq<int>, kids: Seq<Seq<int>>, lines: Seq<(int, int)>, x: (int, int))
    requires
        walk_lines(tops, kids, lines),
        0 <= x.1,
        lines.len() == 0 ==> x.1 == 0,
        lines.len() > 0 ==> x.1 <= lines.last().1 + 1,
        x.1 == 0 ==> first_new(tops, seen_in(lines, lines.len() as int), x.0),
        x.1 > 0 ==> exists|j: int| #[trigger] parent_line(lines.push(x), j, lines.len() as int)
            && first_new(kids[lines[j].0], seen_in(lines, lines.len() as int), x.0),
    ensures
        walk_lines(tops, kids, lines.push(x)),
{
    let l2 = lines.push(x);
    let n = lines.len() as int;
    assert forall|i: int| 0 <= i < l2.len() && #[trigger] l2[i].1 == 0 implies first_new(tops, seen_in(l2, i), l2[i].0) by {
        lemma_seen_push(lines, x, i);
        if i < n {
            assert(l2[i] == lines[i]);
        }
    }
    assert forall|i: int| 0 <= i < l2.len() && #[trigger] l2[i].1 > 0 implies exists|j: int|
        #[trigger] parent_line(l2, j, i) && first_new(kids[l2[j].0], seen_in(l2, i), l2[i].0) by {
        lemma_seen_push(lines, x, i);
        if i < n {
            assert(l2[i] == lines[i]);
            let j = choose|j: int| #[trigger] parent_line(lines, j, i) && first_new(kids[lines[j].0], seen_in(lines, i), lines[i].0);
            assert(l2[j] == lines[j]);
            assert forall|k: int| j < k < i implies l2[k].1 >= #[trigger] l2[i].1 by {
                assert(l2[k] == lines[k]);
                assert(lines[k].1 >= lines[i].1);
            }
            assert(parent_line(l2, j, i));
        } else {
            let j = choose|j: int| #[trigger] parent_line(l2, j, n) && first_new(kids[lines[j].0], seen_in(lines, n), x.0);
            assert(l2[j] == lines[j]);
        }
    }
    assert forall|i: int| 0 <= i < l2.len() - 1 implies #[trigger] l2[i + 1].1 <= l2[i].1 + 1 by {
        if i + 1 < n {
            assert(l2[i + 1] == lines[i + 1] && l2[i] == lines[i]);
        } else {
            assert(l2[i] == lines.last());
        }
    }
    assert forall|i: int| 0 <= i < l2.len() implies 0 <= #[trigger] l2[i].1 by {
        if i < n {
            assert(l2[i] == lines[i]);
        }
    }
}

/// The part lists as positions.
pub open spec fn kid_lists(kids: Seq<Vec<usize>>) -> Seq<Seq<int>> {
    kids.map_values(|v: Vec<usize>| ints(v@))
}

/// The sizes of the part lists.
pub open spec fn kid_sizes(kids: Seq<Vec<usize>>) -> Seq<int> {
    kids.map_values(|v: Vec<usize>| v@.len() as int)
}

/// Whether the open elements of the walk are as `stack` records them: each frame's line, at
/// the frame's depth, the parts it has looked at all drawn, and every later line below it.
pub open spec fn frames_ok(
    stack: Seq<(usize, usize, usize)>,
    lines: Seq<(int, int)>,
    kids: Seq<Seq<int>>,
    seen: Seq<int>,
) -> bool {
    &&& forall|f: int| 0 <= f < stack.len() ==> (#[trigger] stack[f]).1 < lines.len()
        && lines[stack[f].1 as int] == (stack[f].0 as int, f) && stack[f].2 <= kids[stack[f].0 as int].len()
        && (forall|k: int| 0 <= k < stack[f].2 ==> seen.contains(#[trigger] kids[stack[f].0 as int][k]))
    &&& forall|f: int, g: int| 0 <= f < g < stack.len() ==> (#[trigger] stack[f]).1 < (#[trigger] stack[g]).1
    &&& forall|f: int, k: int| 0 <= f < stack.len() && (#[trigger] stack[f]).1 < k < lines.len() ==> #[trigger] lines[k].1 > f
}

proof fn lemma_work_step(stack: Seq<(usize, usize, usize)>, sizes: Seq<int>, top: (usize, usize, usize))
    requires
        stack.len() > 0,
        top.0 == stack.last().0,
        top.2 == stack.last().2 + 1,
        stack.last().2 < sizes[stack.last().0 as int],
    ensures
        work(stack.update(stack.len() - 1, top), sizes) + 1 == work(stack, sizes),
{
    assert(stack.update(stack.len() - 1, top).drop_last() =~= stack.drop_last());
}

/// The lines of the walk: from each element of `tops` not yet drawn, its parts in order,
/// depth first, each element once.
#[verifier::rlimit(100)]
#[verifier::spinoff_prover]
fn walk_forest(n: usize, tops: &Vec<usize>, kids: &Vec<Vec<usize>>) -> (r: Vec<TreeEntry>)
    requires
        kids@.len() == n,
        forall|i: int| 0 <= i < tops@.len() ==> tops@[i] < n,
        forall|p: int, k: int| 0 <= p < n && 0 <= k < kids@[p]@.len() ==> #[trigger] kids@[p]@[k] < n,
    ensures
        walked(ints(tops@), kid_lists(kids@), lines_of(r@)),
        seen_in(lines_of(r@), r@.len() as int).no_duplicates(),
        forall|i: int| 0 <= i < r@.len() ==> (#[trigger] r@[i]).element < n,
        forall|x: int| #[trigger] ints(tops@).contains(x) ==> seen_in(lines_of(r@), r@.len() as int).contains(x),
{
    let ghost tv = ints(tops@);
    let ghost kv = kid_lists(kids@);
    let ghost sizes = kid_sizes(kids@);
    let mut visited: Vec<bool> = Vec::new();
    let mut w: usize = 0;
    while w < n
        invariant
            w <= n,
            visited@.len() == w,
            forall|x: int| 0 <= x < w ==> !visited@[x],
        decreases n - w,
    {
        visited.push(false);
        w = w + 1;
    }
    let mut out: Vec<TreeEntry> = Vec::new();
    let mut q: usize = 0;
    proof {
        assert(seen_in(lines_of(out@), 0) =~= Seq::<int>::empty());
    }
    while q < tops.len()
        invariant
            tv == ints(tops@),
            kv == kid_lists(kids@),
            sizes == kid_sizes(kids@),
            kids@.len() == n,
            forall|i: int| 0 <= i < tops@.len() ==> tops@[i] < n,
            forall|p: int, k: int| 0 <= p < n && 0 <= k < kids@[p]@.len() ==> #[trigger] kids@[p]@[k] < n,
            q <= tops@.len(),
            visited@.len() == n,
            forall|i: int| 0 <= i < out@.len() ==> (#[trigger] out@[i]).element < n,
            forall|x: int| 0 <= x < n ==> (#[trigger] visited@[x] <==> seen_in(lines_of(out@), out@.len() as int).contains(x)),
            seen_in(lines_of(out@), out@.len() as int).no_duplicates(),
            walk_lines(tv, kv, lines_of(out@)),
            forall|j: int| 0 <= j < out@.len() ==> #[trigger] closes(lines_of(out@), kv, j),
            forall|k: int| 0 <= k < q ==> seen_in(lines_of(out@), out@.len() as int).contains(#[trigger] tv[k]),
        decreases tops@.len() - q,
    {
        let c = tops[q];
        if !visited[c] {
            // A new top-level element.
            let ghost before = lines_of(out@);
            let ghost bn = before.len() as int;
            let ghost before_visited = visited@;
            proof {
                assert(tv[q as int] == c as int);
                assert(!seen_in(before, bn).contains(c as int));
                assert(first_new(tv, seen_in(before, bn), c as int)) by {
                    assert(forall|k2: int| 0 <= k2 < q ==> seen_in(before, bn).contains(#[trigger] tv[k2]));
                }
                lemma_walk_push(tv, kv, before, (c as int, 0int));
            }
            out.push(TreeEntry { element: c, depth: 0 });
            visited.set(c, true);
            proof {
                let l2 = lines_of(out@);
                assert(l2 =~= before.push((c as int, 0int)));
                lemma_seen_next(l2, bn);
                lemma_seen_push(before, (c as int, 0int), bn);
                lemma_unseen_mark(before_visited, c as int);
                assert forall|j: int| 0 <= j < bn implies #[trigger] closes(l2, kv, j) by {
                    assert(closes(before, kv, j));
                    let cc = choose|cc: int| #[trigger] closed_by(before, kv, j, cc);
                    lemma_seen_push(before, (c as int, 0int), cc);
                    assert forall|k: int| j < k < cc implies #[trigger] l2[k].1 > l2[j].1 by {
                        assert(l2[k] == before[k] && l2[j] == before[j]);
                    }
                    assert(l2[j] == before[j]);
                    assert(closed_by(l2, kv, j, cc));
                }
            }
            let mut stack: Vec<(usize, usize, usize)> = Vec::new();
            stack.push((c, out.len() - 1, 0));
            proof {
                let l2 = lines_of(out@);
                let sn = seen_in(l2, l2.len() as int);
                assert(stack@[0] == (c, (l2.len() - 1) as usize, 0usize));
                assert(l2[l2.len() - 1] == (c as int, 0int));
                assert(frames_ok(stack@, l2, kv, sn));
                assert(sn.no_duplicates()) by {
                    let sb = seen_in(before, bn);
                    assert(sn =~= sb.push(c as int));
                    assert forall|a: int, b: int| 0 <= a < sn.len() && 0 <= b < sn.len() && a != b implies sn[a] != sn[b] by {
                        if a < sb.len() && b < sb.len() {
                            assert(sb[a] != sb[b]);
                        } else if a < sb.len() {
                            assert(sb.contains(sn[a]));
                        } else {
                            assert(sb.contains(sn[b]));
                        }
                    }
                }
                assert forall|x: int| 0 <= x < n implies (#[trigger] visited@[x] <==> sn.contains(x)) by {
                    let sb = seen_in(before, bn);
                    assert(sn =~= sb.push(c as int));
                    if x == c as int {
                        assert(sn[sn.len() - 1] == x);
                    } else if sn.contains(x) {
                        let a = choose|a: int| 0 <= a < sn.len() && sn[a] == x;
                        assert(sb[a] == x);
                    } else if sb.contains(x) {
                        let a = choose|a: int| 0 <= a < sb.len() && sb[a] == x;
                        assert(sn[a] == x);
                    }
                }
                assert forall|k: int| 0 <= k < q + 1 implies sn.contains(#[trigger] tv[k]) by {
                    let sb = seen_in(before, bn);
                    assert(sn =~= sb.push(c as int));
                    if k < q {
                        assert(sb.contains(tv[k]));
                        let a = choose|a: int| 0 <= a < sb.len() && sb[a] == tv[k];
                        assert(sn[a] == tv[k]);
                    } else {
                        assert(sn[sn.len() - 1] == tv[k]);
                    }
                }
            }
            while stack.len() > 0
                invariant
                    tv == ints(tops@),
                    kv == kid_lists(kids@),
                    sizes == kid_sizes(kids@),
                    kids@.len() == n,
                    forall|p: int, k: int| 0 <= p < n && 0 <= k < kids@[p]@.len() ==> #[trigger] kids@[p]@[k] < n,
                    q < tops@.len(),
                    visited@.len() == n,
                    out@.len() > 0,
                    forall|i: int| 0 <= i < out@.len() ==> (#[trigger] out@[i]).element < n,
                    forall|x: int| 0 <= x < n ==> (#[trigger] visited@[x] <==> seen_in(lines_of(out@), out@.len() as int).contains(x)),
                    seen_in(lines_of(out@), out@.len() as int).no_duplicates(),
                    walk_lines(tv, kv, lines_of(out@)),
                    forall|j: int| 0 <= j < out@.len() && (forall|f: int| 0 <= f < stack@.len() ==> (#[trigger] stack@[f]).1 != j)
                        ==> #[trigger] closes(lines_of(out@), kv, j),
                    forall|k: int| 0 <= k < q + 1 ==> seen_in(lines_of(out@), out@.len() as int).contains(#[trigger] tv[k]),
                    forall|f: int| 0 <= f < stack@.len() ==> (#[trigger] stack@[f]).0 < n,
                    frames_ok(stack@, lines_of(out@), kv, seen_in(lines_of(out@), out@.len() as int)),
                    stack@.len() <= lines_of(out@).last().1 + 1,
                decreases unseen(visited@), work(stack@, sizes),
            {
                let top = stack.len() - 1;
                let (e, s, k) = stack[top];
                let ghost lv = lines_of(out@);
                let ghost sn = seen_in(lv, lv.len() as int);
                proof {
                    assert(stack@[top as int] == (e, s, k));
                    assert(kids@[e as int]@.len() == kv[e as int].len());
                    assert(sizes[e as int] == kids@[e as int]@.len());
                }
                if k < kids[e].len() {
                    let c2 = kids[e][k];
                    let ghost before_stack = stack@;
                    stack.set(top, (e, s, k + 1));
                    proof {
                        lemma_work_step(before_stack, sizes, (e, s, (k + 1) as usize));
                        assert(kv[e as int][k as int] == c2 as int);
                    }
                    if !visited[c2] {
                        let d = stack.len();
                        let ghost before = lv;
                        let ghost bn = before.len() as int;
                        let ghost before_visited = visited@;
                        proof {
                            assert(parent_line(before.push((c2 as int, d as int)), s as int, bn)) by {
                                let l2 = before.push((c2 as int, d as int));
                                assert(l2[s as int] == before[s as int]);
                                assert(before[s as int] == (e as int, top as int));
                                assert forall|kk: int| s < kk < bn implies l2[kk].1 >= #[trigger] l2[bn].1 by {
                                    assert(l2[kk] == before[kk]);
                                    assert(before_stack[top as int].1 < kk < before.len());
                                    assert(before[kk].1 > top);
                                }
                            }
                            assert(first_new(kv[before[s as int].0], seen_in(before, bn), c2 as int)) by {
                                assert(before[s as int].0 == e as int);
                                assert(kv[e as int][k as int] == c2 as int);
                                assert(!sn.contains(c2 as int));
                                assert(forall|k2: int| 0 <= k2 < k ==> sn.contains(#[trigger] kv[e as int][k2]));
                            }
                            lemma_walk_push(tv, kv, before, (c2 as int, d as int));
                        }
                        out.push(TreeEntry { element: c2, depth: d });
                        visited.set(c2, true);
                        let ghost mid_stack = stack@;
                        stack.push((c2, out.len() - 1, 0));
                        proof {
                            let l2 = lines_of(out@);
                            assert(l2 =~= before.push((c2 as int, d as int)));
                            let sb = seen_in(before, bn);
                            let s2 = seen_in(l2, l2.len() as int);
                            lemma_seen_next(l2, bn);
                            lemma_seen_push(before, (c2 as int, d as int), bn);
                            assert(s2 =~= sb.push(c2 as int));
                            lemma_unseen_mark(before_visited, c2 as int);
                            assert(s2.no_duplicates()) by {
                                assert forall|a: int, b: int| 0 <= a < s2.len() && 0 <= b < s2.len() && a != b implies s2[a] != s2[b] by {
                                    if a < sb.len() && b < sb.len() {
                                        assert(sb[a] != sb[b]);
                                    } else if a < sb.len() {
                                        assert(sb.contains(s2[a]));
                                    } else {
                                        assert(sb.contains(s2[b]));
                                    }
                                }
                            }
                            assert forall|x: int| #[trigger] sb.contains(x) implies s2.contains(x) by {
                                let a = choose|a: int| 0 <= a < sb.len() && sb[a] == x;
                                assert(s2[a] == x);
                            }
                            assert forall|x: int| 0 <= x < n implies (#[trigger] visited@[x] <==> s2.contains(x)) by {
                                if x == c2 as int {
                                    assert(s2[s2.len() - 1] == x);
                                } else if s2.contains(x) {
                                    let a = choose|a: int| 0 <= a < s2.len() && s2[a] == x;
                                    assert(sb[a] == x);
                                }
                            }
                            assert forall|kk: int| 0 <= kk < q + 1 implies s2.contains(#[trigger] tv[kk]) by {
                                assert(sb.contains(tv[kk]));
                            }
                            assert forall|j: int| 0 <= j < out@.len() && (forall|f: int| 0 <= f < stack@.len() ==> (#[trigger] stack@[f]).1 != j)
                                implies #[trigger] closes(l2, kv, j) by {
                                assert(j < bn) by {
                                    assert(stack@[stack@.len() - 1].1 == bn);
                                }
                                assert forall|f: int| 0 <= f < before_stack.len() implies (#[trigger] before_stack[f]).1 != j by {
                                    assert(stack@[f].1 == mid_stack[f].1);
                                    if f == top as int {
                                        assert(mid_stack[f].1 == s);
                                    } else {
                                        assert(mid_stack[f] == before_stack[f]);
                                    }
                                }
                                assert(closes(before, kv, j));
                                let cc = choose|cc: int| #[trigger] closed_by(before, kv, j, cc);
                                lemma_seen_push(before, (c2 as int, d as int), cc);
                                assert forall|kk: int| j < kk < cc implies #[trigger] l2[kk].1 > l2[j].1 by {
                                    assert(l2[kk] == before[kk] && l2[j] == before[j]);
                                }
                                assert(l2[j] == before[j]);
                                assert(closed_by(l2, kv, j, cc));
                            }
                            assert(frames_ok(stack@, l2, kv, s2)) by {
                                assert forall|f: int| 0 <= f < stack@.len() implies (#[trigger] stack@[f]).1 < l2.len()
                                    && l2[stack@[f].1 as int] == (stack@[f].0 as int, f) && stack@[f].2 <= kv[stack@[f].0 as int].len()
                                    && (forall|kk: int| 0 <= kk < stack@[f].2 ==> s2.contains(#[trigger] kv[stack@[f].0 as int][kk])) by {
                                    if f < before_stack.len() {
                                        if f == top as int {
                                            assert(stack@[f] == (e, s, (k + 1) as usize));
                                            assert forall|kk: int| 0 <= kk < stack@[f].2 implies s2.contains(#[trigger] kv[stack@[f].0 as int][kk]) by {
                                                if kk < k {
                                                    assert(sb.contains(kv[e as int][kk]));
                                                } else {
                                                    assert(kv[e as int][kk] == c2 as int);
                                                    assert(s2[s2.len() - 1] == c2 as int);
                                                }
                                            }
                                        } else {
                                            assert(stack@[f] == before_stack[f]);
                                            assert forall|kk: int| 0 <= kk < stack@[f].2 implies s2.contains(#[trigger] kv[stack@[f].0 as int][kk]) by {
                                                assert(sb.contains(kv[stack@[f].0 as int][kk]));
                                            }
                                        }
                                        assert(l2[stack@[f].1 as int] == before[stack@[f].1 as int]);
                                    } else {
                                        assert(stack@[f] == (c2, bn as usize, 0usize));
                                        assert(f == d);
                                    }
                                }
                                assert forall|f: int, g: int| 0 <= f < g < stack@.len() implies (#[trigger] stack@[f]).1 < (#[trigger] stack@[g]).1 by {
                                    if g < before_stack.len() {
                                        assert(stack@[f].1 == before_stack[f].1);
                                        assert(stack@[g].1 == before_stack[g].1);
                                    } else {
                                        assert(stack@[f].1 == before_stack[f].1);
                                    }
                                }
                                assert forall|f: int, kk: int| 0 <= f < stack@.len() && (#[trigger] stack@[f]).1 < kk < l2.len() implies #[trigger] l2[kk].1 > f by {
                                    if f < before_stack.len() {
                                        assert(stack@[f].1 == before_stack[f].1);
                                        if kk < bn {
                                            assert(l2[kk] == before[kk]);
                                        } else {
                                            assert(l2[kk].1 == d);
                                        }
                                    }
                                }
                            }
                        }
                    } else {
                        proof {
                            assert(sn.contains(c2 as int));
                            assert(frames_ok(stack@, lv, kv, sn)) by {
                                assert forall|f: int| 0 <= f < stack@.len() implies (#[trigger] stack@[f]).1 < lv.len()
                                    && lv[stack@[f].1 as int] == (stack@[f].0 as int, f) && stack@[f].2 <= kv[stack@[f].0 as int].len()
                                    && (forall|kk: int| 0 <= kk < stack@[f].2 ==> sn.contains(#[trigger] kv[stack@[f].0 as int][kk])) by {
                                    if f == top as int {
                                        assert(stack@[f] == (e, s, (k + 1) as usize));
                                        assert forall|kk: int| 0 <= kk < stack@[f].2 implies sn.contains(#[trigger] kv[stack@[f].0 as int][kk]) by {
                                            if kk == k {
                                                assert(kv[e as int][kk] == c2 as int);
                                            }
                                        }
                                    } else {
                                        assert(stack@[f] == before_stack[f]);
                                    }
                                }
                                assert forall|f: int, g: int| 0 <= f < g < stack@.len() implies (#[trigger] stack@[f]).1 < (#[trigger] stack@[g]).1 by {
                                    assert(stack@[f].1 == before_stack[f].1);
                                    assert(stack@[g].1 == before_stack[g].1);
                                }
                                assert forall|f: int, kk: int| 0 <= f < stack@.len() && (#[trigger] stack@[f]).1 < kk < lv.len() implies #[trigger] lv[kk].1 > f by {
                                    assert(stack@[f].1 == before_stack[f].1);
                                }
                            }
                            assert forall|j: int| 0 <= j < out@.len() && (forall|f: int| 0 <= f < stack@.len() ==> (#[trigger] stack@[f]).1 != j)
                                implies #[trigger] closes(lv, kv, j) by {
                                assert forall|f: int| 0 <= f < before_stack.len() implies (#[trigger] before_stack[f]).1 != j by {
                                    assert(stack@[f].1 == before_stack[f].1);
                                }
                            }
                        }
                    }
                } else {
                    let ghost before_stack = stack@;
                    stack.pop();
                    proof {
                        assert(stack@ =~= before_stack.drop_last());
                        assert(closed_by(lv, kv, s as int, lv.len() as int)) by {
                            assert(lv[s as int] == (e as int, top as int));
                            assert forall|kk: int| s < kk < lv.len() implies #[trigger] lv[kk].1 > lv[s as int].1 by {
                                assert(before_stack[top as int].1 < kk < lv.len());
                            }
                            assert forall|x: int| #[trigger] kv[lv[s as int].0].contains(x) implies seen_in(lv, lv.len() as int).contains(x) by {
                                let kk = choose|kk: int| 0 <= kk < kv[e as int].len() && kv[e as int][kk] == x;
                                assert(sn.contains(kv[e as int][kk]));
                            }
                        }
                        assert forall|j: int| 0 <= j < out@.len() && (forall|f: int| 0 <= f < stack@.len() ==> (#[trigger] stack@[f]).1 != j)
                            implies #[trigger] closes(lv, kv, j) by {
                            if j != s as int {
                                assert forall|f: int| 0 <= f < before_stack.len() implies (#[trigger] before_stack[f]).1 != j by {
                                    if f < stack@.len() {
                                        assert(stack@[f] == before_stack[f]);
                                    }
                                }
                            }
                        }
                        assert(frames_ok(stack@, lv, kv, sn)) by {
                            assert forall|f: int| 0 <= f < stack@.len() implies #[trigger] stack@[f] == before_stack[f] by {}
                        }
                        assert(stack@.len() <= lv.last().1 + 1);
                    }
                }
            }
            proof {
                assert forall|j: int| 0 <= j < out@.len() implies #[trigger] closes(lines_of(out@), kv, j) by {
                    assert(forall|f: int| 0 <= f < stack@.len() ==> (#[trigger] stack@[f]).1 != j);
                }
            }
        } else {
            proof {
                let sn = seen_in(lines_of(out@), out@.len() as int);
                assert(tv[q as int] == c as int);
                assert forall|k: int| 0 <= k < q + 1 implies sn.contains(#[trigger] tv[k]) by {
                    if k == q {
                        assert(visited@[c as int]);
                    }
                }
            }
        }
        q = q + 1;
    }
    out
}

/// The relationships of a model, or none when it carries no graph.
pub open spec fn edges_of(graph: Option<Graph>) -> Seq<GraphEdge> {
    match graph {
        Some(g) => g.edges@,
        None => Seq::empty(),
    }
}

/// Whether `tops` and `slots` order a model's top-level elements and each element's parts.
pub open spec fn plan_of(
    ids: Seq<Seq<char>>,
    names: Seq<Seq<char>>,
    edges: Seq<GraphEdge>,
    tops: Seq<int>,
    slots: Seq<Seq<int>>,
) -> bool {
    &&& tops_of(ids, names, edges, tops)
    &&& slots.len() == ids.len()
    &&& forall|p: int| 0 <= p < ids.len() ==> slots_of(ids, names, edges, p, #[trigger] slots[p])
}

/// The parts of every element, in order.
pub open spec fn parts_of_all(ids: Seq<Seq<char>>, edges: Seq<GraphEdge>, slots: Seq<Seq<int>>) -> Seq<Seq<int>> {
    Seq::new(ids.len(), |p: int| parts_in(ids, edges, slots[p]))
}

/// Whether `lines` draw the containment forest of these structure elements and relationships:
/// the walk from the elements nothing contains, by name, then from whatever it never reached,
/// by name, each element's parts by name, an element already drawn never drawn again.
pub open spec fn forest_of(elements: Seq<Element>, edges: Seq<GraphEdge>, lines: Seq<(int, int)>) -> bool {
    let ids = element_ids(elements);
    let names = element_names(elements);
    exists|tops: Seq<int>, slots: Seq<Seq<int>>|
        #[trigger] plan_of(ids, names, edges, tops, slots) && walked(tops, parts_of_all(ids, edges, slots), lines)
}

proof fn lemma_all_once(n: int, s: Seq<int>)
    requires
        0 <= n,
        s.no_duplicates(),
        forall|i: int| 0 <= i < s.len() ==> 0 <= #[trigger] s[i] < n,
        forall|x: int| 0 <= x < n ==> #[trigger] s.contains(x),
    ensures
        s.len() == n,
{
    s.unique_seq_to_set();
    vstd::set_lib::lemma_int_range(0, n);
    assert(s.to_set() =~= vstd::set_lib::set_int_range(0, n));
}

/// Two lines drawn as the first new item of one list come in that list's order.
proof fn lemma_first_new_order(list: Seq<int>, lines: Seq<(int, int)>, i: int, j: int) -> (r: (int, int))
    requires
        0 <= i < j < lines.len(),
        first_new(list, seen_in(lines, i), lines[i].0),
        first_new(list, seen_in(lines, j), lines[j].0),
    ensures
        0 <= r.0 < r.1 < list.len(),
        list[r.0] == lines[i].0,
        list[r.1] == lines[j].0,
{
    let x = lines[i].0;
    let y = lines[j].0;
    let k = choose|k: int|
        0 <= k < list.len() && #[trigger] list[k] == x && !seen_in(lines, i).contains(x) && forall|k2: int|
            0 <= k2 < k ==> seen_in(lines, i).contains(#[trigger] list[k2]);
    let k1 = choose|k1: int|
        0 <= k1 < list.len() && #[trigger] list[k1] == y && !seen_in(lines, j).contains(y) && forall|k2: int|
            0 <= k2 < k1 ==> seen_in(lines, j).contains(#[trigger] list[k2]);
    assert(seen_in(lines, j)[i] == x);
    assert(seen_in(lines, j).contains(x));
    if k1 <= k {
        if k1 < k {
            assert(seen_in(lines, i).contains(list[k1]));
            let m = choose|m: int| 0 <= m < seen_in(lines, i).len() && seen_in(lines, i)[m] == y;
            assert(seen_in(lines, j)[m] == y);
        }
        assert(false);
    }
    (k, k1)
}

/// The line a deeper line hangs from is the one line that can be its parent.
proof fn lemma_parent_unique(lines: Seq<(int, int)>, a: int, b: int, i: int)
    requires
        parent_line(lines, a, i),
        parent_line(lines, b, i),
    ensures
        a == b,
{
    if a < b {
        assert(lines[b].1 >= lines[i].1);
    } else if b < a {
        assert(lines[a].1 >= lines[i].1);
    }
}

/// Whether every line draws an element of the list.
pub open spec fn lines_in(lines: Seq<(int, int)>, n: int) -> bool {
    forall|i: int| 0 <= i < lines.len() ==> 0 <= #[trigger] lines[i].0 < n
}

/// At the top level of the structure tree every element nothing contains comes before every
/// element something contains, and within each of the two groups the elements come by name,
/// ties in the model's order.
#[verifier::rlimit(40)]
pub proof fn lemma_tree_tops_by_name(elements: Seq<Element>, edges: Seq<GraphEdge>, lines: Seq<(int, int)>, i: int, j: int)
    requires
        forest_of(elements, edges, lines),
        0 <= i < j < lines.len(),
        lines[i].1 == 0,
        lines[j].1 == 0,
    ensures
        !(has_parent(element_ids(elements), edges, lines[i].0) && !has_parent(element_ids(elements), edges, lines[j].0)),
        has_parent(element_ids(elements), edges, lines[i].0) == has_parent(element_ids(elements), edges, lines[j].0)
            ==> keyed_before(element_names(elements), lines[i].0, lines[j].0),
{
    let ids = element_ids(elements);
    let names = element_names(elements);
    let (tops, slots) = choose|tops: Seq<int>, slots: Seq<Seq<int>>|
        #[trigger] plan_of(ids, names, edges, tops, slots) && walked(tops, parts_of_all(ids, edges, slots), lines);
    let (roots, others) = choose|roots: Seq<int>, others: Seq<int>|
        #[trigger] keyed_sorted(names, roots) && #[trigger] keyed_sorted(names, others) && tops == roots + others
            && (forall|x: int| #[trigger] roots.contains(x) <==> 0 <= x < ids.len() && !has_parent(ids, edges, x))
            && (forall|x: int| #[trigger] others.contains(x) <==> 0 <= x < ids.len() && has_parent(ids, edges, x));
    assert(first_new(tops, seen_in(lines, i), lines[i].0));
    assert(first_new(tops, seen_in(lines, j), lines[j].0));
    let (k, k1) = lemma_first_new_order(tops, lines, i, j);
    let r = roots.len() as int;
    if k < r {
        assert(tops[k] == roots[k]);
        assert(roots.contains(roots[k]));
        if k1 < r {
            assert(tops[k1] == roots[k1]);
            assert(roots.contains(roots[k1]));
            assert(keyed_before(names, roots[k], roots[k1]));
        } else {
            assert(tops[k1] == others[k1 - r]);
            assert(others.contains(others[k1 - r]));
        }
    } else {
        assert(tops[k] == others[k - r]);
        assert(others.contains(others[k - r]));
        assert(tops[k1] == others[k1 - r]);
        assert(others.contains(others[k1 - r]));
        assert(keyed_before(names, others[k - r], others[k1 - r]));
    }
}

/// The parts drawn under one line of the structure tree come by name.
#[verifier::rlimit(40)]
pub proof fn lemma_tree_parts_by_name(elements: Seq<Element>, edges: Seq<GraphEdge>, lines: Seq<(int, int)>, p: int, i: int, j: int)
    requires
        forest_of(elements, edges, lines),
        lines_in(lines, elements.len() as int),
        i < j < lines.len(),
        parent_line(lines, p, i),
        parent_line(lines, p, j),
    ensures
        !lex_lt(element_names(elements)[lines[j].0], element_names(elements)[lines[i].0]),
{
    let ids = element_ids(elements);
    let names = element_names(elements);
    let (tops, slots) = choose|tops: Seq<int>, slots: Seq<Seq<int>>|
        #[trigger] plan_of(ids, names, edges, tops, slots) && walked(tops, parts_of_all(ids, edges, slots), lines);
    let kids = parts_of_all(ids, edges, slots);
    assert(lines[i].1 > 0 && lines[j].1 > 0);
    let pi = choose|q: int| #[trigger] parent_line(lines, q, i) && first_new(kids[lines[q].0], seen_in(lines, i), lines[i].0);
    let pj = choose|q: int| #[trigger] parent_line(lines, q, j) && first_new(kids[lines[q].0], seen_in(lines, j), lines[j].0);
    lemma_parent_unique(lines, pi, p, i);
    lemma_parent_unique(lines, pj, p, j);
    let e = lines[p].0;
    assert(0 <= e < ids.len()) by {
        assert(ids.len() == elements.len());
    }
    let (k, k1) = lemma_first_new_order(kids[e], lines, i, j);
    let sl = slots[e];
    assert(slots_of(ids, names, edges, e, sl));
    assert(kids[e] == parts_in(ids, edges, sl));
    let pn = part_names(ids, names, edges);
    assert(keyed_before(pn, sl[k], sl[k1]));
    assert(sl.contains(sl[k]) && sl.contains(sl[k1]));
    assert(pn[sl[k]] == names[lines[i].0]);
    assert(pn[sl[k1]] == names[lines[j].0]);
    if lex_lt(names[lines[i].0], names[lines[j].0]) {
        lemma_lex_asymmetric(names[lines[i].0], names[lines[j].0]);
    } else {
        lemma_lex_irreflexive(names[lines[i].0]);
    }
}

/// The containment tree of the structure section, as lines of element and depth in drawing
/// order. Every element is drawn exactly once, whatever shape the relationships take.
pub fn structure_tree(elements: &Vec<Element>, graph: &Option<Graph>) -> (r: Vec<TreeEntry>)
    requires
        distinct(element_ids(elements@)),
    ensures
        forest_of(elements@, edges_of(*graph), lines_of(r@)),
        r@.len() == elements@.len(),
        lines_in(lines_of(r@), elements@.len() as int),
        seen_in(lines_of(r@), r@.len() as int).no_duplicates(),
        forall|x: int| 0 <= x < elements@.len() ==> #[trigger] seen_in(lines_of(r@), r@.len() as int).contains(x),
{
    let (ids, names) = ids_and_names(elements);
    let n = ids.len();
    let ghost iv = texts(ids@);
    let ghost nv = texts(names@);
    let ghost ev = edges_of(*graph);
    proof {
        assert(iv.len() == n && nv.len() == n);
        assert(elements@.len() == n) by {
            assert(element_ids(elements@).len() == elements@.len());
        }
    }
    let empty: Vec<GraphEdge> = Vec::new();
    let edges: &Vec<GraphEdge> = match graph {
        Some(g) => &g.edges,
        None => &empty,
    };
    proof {
        assert(edges@ == ev);
    }
    let links = part_links(&ids, edges);
    let m = edges.len();
    let flags = contained_flags(n, &links);
    proof {
        assert forall|x: int| 0 <= x < n implies (flags@[x] <==> has_parent(iv, ev, x)) by {
            if flags@[x] {
                let j = choose|j: int| 0 <= j < links@.len() && #[trigger] points_to(links@[j], x);
                assert(links@[j] matches Some(st) && st.1 == x);
                assert(part_edge(iv, ev[j]));
            }
            if has_parent(iv, ev, x) {
                let j = choose|j: int| 0 <= j < ev.len() && #[trigger] part_edge(iv, ev[j]) && iv.index_of(ev[j].target@) == x;
                assert(points_to(links@[j], x));
            }
        }
    }
    let mut keep_roots: Vec<bool> = Vec::new();
    let mut x: usize = 0;
    while x < n
        invariant
            x <= n,
            flags@.len() == n,
            keep_roots@.len() == x,
            forall|y: int| 0 <= y < x ==> keep_roots@[y] == !flags@[y],
        decreases n - x,
    {
        keep_roots.push(!flags[x]);
        x = x + 1;
    }
    let roots = sorted_where(&names, &keep_roots);
    let others = sorted_where(&names, &flags);
    let mut tops: Vec<usize> = Vec::new();
    let mut i: usize = 0;
    while i < roots.len()
        invariant
            i <= roots@.len(),
            ints(tops@) == ints(roots@).take(i as int),
        decreases roots@.len() - i,
    {
        let ghost bt = tops@;
        tops.push(roots[i]);
        proof {
            assert(ints(tops@) =~= ints(bt).push(roots@[i as int] as int));
            assert(ints(roots@).take(i + 1) =~= ints(roots@).take(i as int).push(roots@[i as int] as int));
        }
        i = i + 1;
    }
    let mut i: usize = 0;
    proof {
        assert(ints(roots@).take(roots@.len() as int) =~= ints(roots@));
        assert(ints(tops@) =~= ints(roots@) + ints(others@).take(0));
    }
    while i < others.len()
        invariant
            i <= others@.len(),
            ints(tops@) == ints(roots@) + ints(others@).take(i as int),
        decreases others@.len() - i,
    {
        let ghost bt = tops@;
        tops.push(others[i]);
        proof {
            assert(ints(tops@) =~= ints(bt).push(others@[i as int] as int));
            assert(ints(others@).take(i + 1) =~= ints(others@).take(i as int).push(others@[i as int] as int));
            assert(ints(roots@) + ints(others@).take(i + 1) =~= (ints(roots@) + ints(others@).take(i as int)).push(others@[i as int] as int));
        }
        i = i + 1;
    }
    proof {
        assert(ints(others@).take(others@.len() as int) =~= ints(others@));
        assert(tops_of(iv, nv, ev, ints(tops@))) by {
            assert forall|y: int| #[trigger] ints(roots@).contains(y) <==> 0 <= y < iv.len() && !has_parent(iv, ev, y) by {}
            assert forall|y: int| #[trigger] ints(others@).contains(y) <==> 0 <= y < iv.len() && has_parent(iv, ev, y) by {}
            assert(keyed_sorted(nv, ints(roots@)) && keyed_sorted(nv, ints(others@)));
        }
    }
    let mut plabel: Vec<String> = Vec::new();
    let mut j: usize = 0;
    while j < m
        invariant
            m == edges@.len(),
            links@.len() == m,
            iv == texts(ids@),
            nv == texts(names@),
            ev == edges@,
            j <= m,
            plabel@.len() == j,
            forall|k: int| 0 <= k < links@.len() ==> match #[trigger] links@[k] {
                Some(st) => part_edge(iv, ev[k]) && st.0 < n && st.1 < n
                    && iv.index_of(ev[k].source@) == st.0 as int
                    && iv.index_of(ev[k].target@) == st.1 as int,
                None => !part_edge(iv, ev[k]),
            },
            names@.len() == n,
            forall|k: int| 0 <= k < j ==> #[trigger] texts(plabel@)[k] == part_names(iv, nv, ev)[k],
        decreases m - j,
    {
        let ghost bp = plabel@;
        match links[j] {
            Some((_, t)) => {
                plabel.push(names[t].clone());
            },
            None => {
                plabel.push(String::new());
            },
        }
        proof {
            assert forall|k: int| 0 <= k < j + 1 implies #[trigger] texts(plabel@)[k] == part_names(iv, nv, ev)[k] by {
                if k < j {
                    assert(texts(plabel@)[k] == texts(bp)[k]);
                } else {
                    match links@[k] {
                        Some(st) => {
                            assert(texts(plabel@)[k] == nv[st.1 as int]);
                        },
                        None => {
                            assert(texts(plabel@)[k] =~= Seq::<char>::empty());
                        },
                    }
                }
            }
        }
        j = j + 1;
    }
    proof {
        assert(texts(plabel@) =~= part_names(iv, nv, ev));
    }
    let mut kids: Vec<Vec<usize>> = Vec::new();
    let ghost mut slot_lists: Seq<Seq<int>> = Seq::empty();
    let mut p: usize = 0;
    while p < n
        invariant
            m == edges@.len(),
            links@.len() == m,
            plabel@.len() == m,
            texts(plabel@) == part_names(iv, nv, ev),
            iv == texts(ids@),
            nv == texts(names@),
            ev == edges@,
            iv.len() == n,
            forall|k: int| 0 <= k < links@.len() ==> match #[trigger] links@[k] {
                Some(st) => part_edge(iv, ev[k]) && st.0 < n && st.1 < n
                    && iv.index_of(ev[k].source@) == st.0 as int
                    && iv.index_of(ev[k].target@) == st.1 as int,
                None => !part_edge(iv, ev[k]),
            },
            p <= n,
            kids@.len() == p,
            slot_lists.len() == p,
            forall|pp: int| 0 <= pp < p ==> slots_of(iv, nv, ev, pp, #[trigger] slot_lists[pp]),
            forall|pp: int| 0 <= pp < p ==> #[trigger] kid_lists(kids@)[pp] == parts_in(iv, ev, slot_lists[pp]),
            forall|pp: int, k: int| 0 <= pp < p && 0 <= k < kids@[pp]@.len() ==> #[trigger] kids@[pp]@[k] < n,
        decreases n - p,
    {
        let mut keep: Vec<bool> = Vec::new();
        let mut j: usize = 0;
        while j < m
            invariant
                m == links@.len(),
                j <= m,
                keep@.len() == j,
                forall|k: int| 0 <= k < j ==> (keep@[k] <==> (#[trigger] links@[k] matches Some(st) && st.0 == p)),
            decreases m - j,
        {
            let hit = match links[j] {
                Some((src, _)) => src == p,
                None => false,
            };
            keep.push(hit);
            j = j + 1;
        }
        let slots = sorted_where(&plabel, &keep);
        let mut list: Vec<usize> = Vec::new();
        let mut k: usize = 0;
        while k < slots.len()
            invariant
                m == links@.len(),
                forall|q: int| 0 <= q < slots@.len() ==> slots@[q] < m,
                forall|q: int| 0 <= q < links@.len() ==> (#[trigger] links@[q] matches Some(st) ==> st.1 < n),
                k <= slots@.len(),
                list@.len() == k,
                forall|q: int| 0 <= q < k ==> #[trigger] list@[q] as int == iv.index_of(ev[slots@[q] as int].target@) && list@[q] < n,
                forall|q: int| 0 <= q < links@.len() ==> match #[trigger] links@[q] {
                    Some(st) => part_edge(iv, ev[q]) && st.0 < n && st.1 < n
                        && iv.index_of(ev[q].source@) == st.0 as int
                        && iv.index_of(ev[q].target@) == st.1 as int,
                    None => !part_edge(iv, ev[q]),
                },
                forall|y: int| #[trigger] ints(slots@).contains(y) <==> (0 <= y < m && keep@[y]),
                forall|q: int| 0 <= q < m ==> (keep@[q] <==> (#[trigger] links@[q] matches Some(st) && st.0 == p)),
            decreases slots@.len() - k,
        {
            let j2 = slots[k];
            proof {
                assert(ints(slots@)[k as int] == j2 as int);
                assert(ints(slots@).contains(j2 as int));
            }
            match links[j2] {
                Some((_, t)) => {
                    list.push(t);
                },
                None => {
                    proof {
                        assert(false);
                    }
                    list.push(0);
                },
            }
            k = k + 1;
        }
        proof {
            let sl = ints(slots@);
            assert(slots_of(iv, nv, ev, p as int, sl)) by {
                assert forall|y: int| #[trigger] sl.contains(y) <==> 0 <= y < ev.len() && part_edge(iv, ev[y])
                    && iv.index_of(ev[y].source@) == p by {
                    if 0 <= y < m {
                        match links@[y] {
                            Some(st) => {},
                            None => {},
                        }
                    }
                }
            }
            assert(ints(list@) =~= parts_in(iv, ev, sl));
            slot_lists = slot_lists.push(sl);
        }
        let ghost bk = kids@;
        kids.push(list);
        proof {
            assert forall|pp: int| 0 <= pp < p + 1 implies #[trigger] kid_lists(kids@)[pp] == parts_in(iv, ev, slot_lists[pp]) by {
                if pp < p {
                    assert(kids@[pp] == bk[pp]);
                    assert(kid_lists(kids@)[pp] == kid_lists(bk)[pp]);
                }
            }
            assert forall|pp: int| 0 <= pp < p + 1 implies slots_of(iv, nv, ev, pp, #[trigger] slot_lists[pp]) by {}
            assert forall|pp: int, k2: int| 0 <= pp < p + 1 && 0 <= k2 < kids@[pp]@.len() implies #[trigger] kids@[pp]@[k2] < n by {
                if pp < p {
                    assert(kids@[pp] == bk[pp]);
                }
            }
        }
        p = p + 1;
    }
    proof {
        assert forall|i2: int| 0 <= i2 < tops@.len() implies tops@[i2] < n by {
            assert(ints(tops@)[i2] == tops@[i2] as int);
            if i2 < roots@.len() {
                assert(ints(tops@)[i2] == ints(roots@)[i2]);
            } else {
                assert(ints(tops@)[i2] == ints(others@)[i2 - roots@.len()]);
            }
        }
    }
    let r = walk_forest(n, &tops, &kids);
    proof {
        let lines = lines_of(r@);
        let tv = ints(tops@);
        assert(kid_lists(kids@) =~= parts_of_all(iv, ev, slot_lists));
        assert(plan_of(iv, nv, ev, tv, slot_lists));
        assert(element_ids(elements@) == iv && element_names(elements@) == nv);
        assert(forest_of(elements@, ev, lines));
        let sn = seen_in(lines, r@.len() as int);
        assert forall|y: int| 0 <= y < n implies #[trigger] sn.contains(y) by {
            if flags@[y] {
                assert(ints(others@).contains(y));
                let a = choose|a: int| 0 <= a < ints(others@).len() && ints(others@)[a] == y;
                assert(tv[roots@.len() + a] == y);
            } else {
                assert(ints(roots@).contains(y));
                let a = choose|a: int| 0 <= a < ints(roots@).len() && ints(roots@)[a] == y;
                assert(tv[a] == y);
            }
            assert(tv.contains(y));
        }
        assert forall|i2: int| 0 <= i2 < sn.len() implies 0 <= #[trigger] sn[i2] < n by {
            assert(sn[i2] == r@[i2].element as int);
        }
        lemma_all_once(n as int, sn);
    }
    r
}

} // verus!
