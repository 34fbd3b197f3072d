//! The diagram page's lists of a model's elements: the kinds present with their counts, for
//! the filter bar, and every element in the order the picker lists them.

use vstd::prelude::*;
use crate::diagram::{kind_rank, kind_sort_key};
use crate::form::ints;
use crate::order::{chars_less, lemma_lex_irreflexive, lemma_lex_total, lemma_lex_transitive, lex_lt};
use crate::scope::{Graph, GraphNode};
use crate::text::chars_of;

verus! {

/// Whether text key `a` comes before text key `b`: by the first texts that differ.
pub open spec fn texts_before(a: Seq<Seq<char>>, b: Seq<Seq<char>>) -> bool
    decreases a.len(),
{
    if a.len() == 0 || b.len() == 0 {
        false
    } else if a[0] != b[0] {
        lex_lt(a[0], b[0])
    } else {
        texts_before(a.drop_first(), b.drop_first())
    }
}

/// Whether key `a` comes before key `b`: by rank, then by texts, then by position.
pub open spec fn key_before(a: (int, Seq<Seq<char>>, int), b: (int, Seq<Seq<char>>, int)) -> bool {
    a.0 < b.0 || (a.0 == b.0 && texts_before(a.1, b.1)) || (a.0 == b.0 && a.1 == b.1 && a.2 < b.2)
}

proof fn lemma_texts_irreflexive(a: Seq<Seq<char>>)
    ensures
        !texts_before(a, a),
    decreases a.len(),
{
    if a.len() > 0 {
        lemma_texts_irreflexive(a.drop_first());
    }
}

proof fn lemma_texts_order(a: Seq<Seq<char>>, b: Seq<Seq<char>>, c: Seq<Seq<char>>)
    requires
        a.len() == b.len(),
        b.len() == c.len(),
    ensures
        a != b ==> (texts_before(a, b) || texts_before(b, a)),
        !(texts_before(a, b) && texts_before(b, a)),
        !texts_before(a, a),
        texts_before(a, b) && texts_before(b, c) ==> texts_before(a, c),
    decreases a.len(),
{
    lemma_texts_irreflexive(a);
    if a.len() > 0 {
        lemma_lex_irreflexive(a[0]);
        if a[0] != b[0] {
            lemma_lex_total(a[0], b[0]);
        }
        if a[0] == b[0] && b[0] == c[0] {
            lemma_texts_order(a.drop_first(), b.drop_first(), c.drop_first());
            if a != b {
                assert(a.drop_first() != b.drop_first()) by {
                    if a.drop_first() == b.drop_first() {
                        assert(a =~= seq![a[0]] + a.drop_first());
                        assert(b =~= seq![b[0]] + b.drop_first());
                    }
                }
            }
        } else if a[0] == b[0] {
            lemma_texts_order(a.drop_first(), b.drop_first(), b.drop_first());
            if a != b {
                assert(a.drop_first() != b.drop_first()) by {
                    if a.drop_first() == b.drop_first() {
                        assert(a =~= seq![a[0]] + a.drop_first());
                        assert(b =~= seq![b[0]] + b.drop_first());
                    }
                }
            }
        } else if b[0] == c[0] {
            lemma_texts_order(b.drop_first(), b.drop_first(), c.drop_first());
        } else if a[0] == c[0] {
            lemma_lex_total(a[0], b[0]);
        } else {
            lemma_lex_total(b[0], c[0]);
            if lex_lt(a[0], b[0]) && lex_lt(b[0], c[0]) {
                lemma_lex_transitive(a[0], b[0], c[0]);
            }
        }
        if texts_before(a, b) && texts_before(b, c) && a[0] != b[0] && b[0] != c[0] {
            lemma_lex_transitive(a[0], b[0], c[0]);
        }
    } else {
        assert(a =~= b);
    }
}

proof fn lemma_key_order(a: (int, Seq<Seq<char>>, int), b: (int, Seq<Seq<char>>, int), c: (int, Seq<Seq<char>>, int))
    requires
        a.1.len() == b.1.len(),
        b.1.len() == c.1.len(),
    ensures
        a != b ==> (key_before(a, b) || key_before(b, a)),
        !(key_before(a, b) && key_before(b, a)),
        !key_before(a, a),
        key_before(a, b) && key_before(b, c) ==> key_before(a, c),
{
    lemma_texts_order(a.1, b.1, c.1);
    lemma_texts_order(a.1, a.1, b.1);
    lemma_texts_order(b.1, b.1, c.1);
    lemma_texts_order(a.1, c.1, c.1);
}

/// The texts of a key.
pub open spec fn key_texts(t: Seq<Vec<char>>) -> Seq<Seq<char>> {
    t.map_values(|c: Vec<char>| c@)
}

/// A text key, compared the way `texts_before` orders them.
fn texts_less(a: &Vec<Vec<char>>, b: &Vec<Vec<char>>) -> (r: bool)
    requires
        a@.len() == b@.len(),
    ensures
        r == texts_before(key_texts(a@), key_texts(b@)),
{
    let ghost av = key_texts(a@);
    let ghost bv = key_texts(b@);
    let mut i: usize = 0;
    proof {
        assert(av.skip(0) =~= av);
        assert(bv.skip(0) =~= bv);
    }
    while i < a.len()
        invariant
            av == key_texts(a@),
            bv == key_texts(b@),
            a@.len() == b@.len(),
            i <= a@.len(),
            texts_before(av, bv) == texts_before(av.skip(i as int), bv.skip(i as int)),
        decreases a@.len() - i,
    {
        proof {
            assert(av.skip(i as int)[0] == a@[i as int]@);
            assert(bv.skip(i as int)[0] == b@[i as int]@);
            assert(av.skip(i as int).drop_first() =~= av.skip(i + 1));
            assert(bv.skip(i as int).drop_first() =~= bv.skip(i + 1));
        }
        if chars_less(&a[i], &b[i]) {
            proof {
                lemma_lex_irreflexive(a@[i as int]@);
            }
            return true;
        }
        if chars_less(&b[i], &a[i]) {
            proof {
                lemma_lex_irreflexive(a@[i as int]@);
                lemma_lex_total(a@[i as int]@, b@[i as int]@);
            }
            return false;
        }
        proof {
            if a@[i as int]@ != b@[i as int]@ {
                lemma_lex_total(a@[i as int]@, b@[i as int]@);
            }
        }
        i = i + 1;
    }
    false
}

/// Whether `keys` holds each element's rank and texts.
pub open spec fn keys_ok(keys: Seq<(usize, Vec<Vec<char>>)>, nv: Seq<GraphNode>) -> bool {
    &&& keys.len() == nv.len()
    &&& forall|k: int| 0 <= k < nv.len() ==> #[trigger] keys[k].0 == kind_rank(nv[k].kind@)
        && keys[k].1@.len() == 3 && key_texts(keys[k].1@) == seq![nv[k].kind@, nv[k].name@, nv[k].id@]
}

/// Whether every key has as many texts as every other.
pub open spec fn same_width(keys: Seq<(usize, Vec<Vec<char>>)>) -> bool {
    forall|i: int, j: int| 0 <= i < keys.len() && 0 <= j < keys.len() ==> #[trigger] keys[i].1@.len() == #[trigger] keys[j].1@.len()
}

/// The key of item `i`: its rank, its texts, and its position.
pub open spec fn key_of(keys: Seq<(usize, Vec<Vec<char>>)>, i: int) -> (int, Seq<Seq<char>>, int) {
    (keys[i].0 as int, key_texts(keys[i].1@), i)
}

/// Whether positions are in key order.
pub open spec fn in_key_order(keys: Seq<(usize, Vec<Vec<char>>)>, s: Seq<int>) -> bool {
    forall|i: int, j: int| 0 <= i < j < s.len() ==> key_before(key_of(keys, #[trigger] s[i]), key_of(keys, #[trigger] s[j]))
}

/// The positions of the items, in key order.
pub(crate) fn sort_by_keys(keys: &Vec<(usize, Vec<Vec<char>>)>) -> (r: Vec<usize>)
    requires
        same_width(keys@),
    ensures
        in_key_order(keys@, ints(r@)),
        r@.len() == keys@.len(),
        forall|x: int| #[trigger] ints(r@).contains(x) <==> 0 <= x < keys@.len(),
{
    let mut out: Vec<usize> = Vec::new();
    let mut x: usize = 0;
    proof {
        assert(ints(out@) =~= Seq::<int>::empty());
    }
    while x < keys.len()
        invariant
            same_width(keys@),
            x <= keys@.len(),
            out@.len() == x,
            in_key_order(keys@, ints(out@)),
            forall|k: int| 0 <= k < out@.len() ==> out@[k] < x,
            forall|y: int| #[trigger] ints(out@).contains(y) <==> 0 <= y < x,
        decreases keys@.len() - x,
    {
        let ghost o = ints(out@);
        let mut p: usize = 0;
        while p < out.len() && !(keys[x].0 < keys[out[p]].0 || (keys[x].0 == keys[out[p]].0 && texts_less(&keys[x].1, &keys[out[p]].1)))
            invariant
                same_width(keys@),
                x < keys@.len(),
                o == ints(out@),
                forall|k: int| 0 <= k < out@.len() ==> out@[k] < x,
                p <= out@.len(),
                forall|j: int| 0 <= j < p ==> key_before(key_of(keys@, #[trigger] o[j]), key_of(keys@, x as int)),
            decreases out@.len() - p,
        {
            proof {
                let a = key_of(keys@, x as int);
                let b = key_of(keys@, o[p as int]);
                assert(o[p as int] == out@[p as int] as int);
                assert(keys@[out@[p as int] as int].0 == b.0);
                assert(keys@[x as int].0 == a.0);
                lemma_key_order(a, b, b);
                assert(a.2 > b.2);
                if a.0 == b.0 && a.1 == b.1 {
                    assert(key_before(b, a));
                } else if a.0 == b.0 {
                    assert(!texts_before(a.1, b.1));
                    assert(texts_before(b.1, a.1));
                }
            }
            p = p + 1;
        }
        proof {
            if p < out@.len() {
                let a = key_of(keys@, x as int);
                let b = key_of(keys@, o[p as int]);
                assert(o[p as int] == out@[p as int] as int);
                assert(key_before(a, b));
            }
        }
        out.insert(p, x);
        proof {
            let n = ints(out@);
            assert(n =~= o.insert(p as int, x as int));
            assert forall|i2: int, j2: int| 0 <= i2 < j2 < n.len() implies key_before(key_of(keys@, #[trigger] n[i2]), key_of(keys@, #[trigger] n[j2])) by {
                let kx = key_of(keys@, x as int);
                if j2 < p {
                    assert(key_before(key_of(keys@, o[i2]), key_of(keys@, o[j2])));
                } else if j2 == p {
                    assert(key_before(key_of(keys@, o[i2]), kx));
                } else if i2 < p {
                    let ki = key_of(keys@, o[i2]);
                    let kp = key_of(keys@, o[p as int]);
                    lemma_key_order(ki, kx, kp);
                    if j2 - 1 > p {
                        let kj = key_of(keys@, o[j2 - 1]);
                        assert(key_before(kp, kj));
                        lemma_key_order(ki, kp, kj);
                    }
                } else if i2 == p {
                    if j2 - 1 > p {
                        let kp = key_of(keys@, o[p as int]);
                        let kj = key_of(keys@, o[j2 - 1]);
                        assert(key_before(kp, kj));
                        lemma_key_order(kx, kp, kj);
                    }
                } else {
                    assert(key_before(key_of(keys@, o[i2 - 1]), key_of(keys@, o[j2 - 1])));
                }
            }
            assert forall|y: int| #[trigger] n.contains(y) <==> 0 <= y < x + 1 by {
                if n.contains(y) {
                    let k = choose|k: int| 0 <= k < n.len() && n[k] == y;
                    if k < p {
                        assert(o[k] == y);
                    } else if k > p {
                        assert(o[k - 1] == y);
                    }
                }
                if 0 <= y < x {
                    assert(o.contains(y));
                    let k = choose|k: int| 0 <= k < o.len() && o[k] == y;
                    if k < p {
                        assert(n[k] == y);
                    } else {
                        assert(n[k + 1] == y);
                    }
                }
                if y == x {
                    assert(n[p as int] == y);
                }
            }
        }
        x = x + 1;
    }
    out
}

/// The picker's key of node `i`: the kind's rank, then the kind, name and id.
pub open spec fn picker_key(nodes: Seq<GraphNode>, i: int) -> (int, Seq<Seq<char>>, int) {
    (kind_rank(nodes[i].kind@), seq![nodes[i].kind@, nodes[i].name@, nodes[i].id@], i)
}

/// Whether positions are in the picker's order.
pub open spec fn in_picker_order(nodes: Seq<GraphNode>, s: Seq<int>) -> bool {
    forall|i: int, j: int| 0 <= i < j < s.len() ==> key_before(picker_key(nodes, #[trigger] s[i]), picker_key(nodes, #[trigger] s[j]))
}

/// Every element of a drawing, by position, ordered the way the picker lists them: the filter
/// bar's kind order first, then name, then id, so the list is stable and groups like with like.
pub fn elements_in_picker_order(graph: &Graph) -> (r: Vec<usize>)
    ensures
        in_picker_order(graph.nodes@, ints(r@)),
        r@.len() == graph.nodes@.len(),
        forall|x: int| #[trigger] ints(r@).contains(x) <==> 0 <= x < graph.nodes@.len(),
{
    let nodes = &graph.nodes;
    let ghost nv = nodes@;
    let mut keys: Vec<(usize, Vec<Vec<char>>)> = Vec::new();
    let mut i: usize = 0;
    while i < nodes.len()
        invariant
            nv == nodes@,
            i <= nodes@.len(),
            keys@.len() == i,
            forall|k: int| 0 <= k < i ==> #[trigger] keys@[k].0 == kind_rank(nv[k].kind@)
                && keys@[k].1@.len() == 3 && key_texts(keys@[k].1@) == seq![nv[k].kind@, nv[k].name@, nv[k].id@],
        decreases nodes@.len() - i,
    {
        let (rank, _) = kind_sort_key(nodes[i].kind.as_str());
        let mut texts: Vec<Vec<char>> = Vec::new();
        texts.push(chars_of(nodes[i].kind.as_str()));
        texts.push(chars_of(nodes[i].name.as_str()));
        texts.push(chars_of(nodes[i].id.as_str()));
        proof {
            assert(key_texts(texts@) =~= seq![nv[i as int].kind@, nv[i as int].name@, nv[i as int].id@]);
        }
        keys.push((rank, texts));
        i = i + 1;
    }
    proof {
        assert(i == nodes@.len());
        assert(keys_ok(keys@, nv));
        assert forall|a: int, b: int| 0 <= a < keys@.len() && 0 <= b < keys@.len() implies #[trigger] keys@[a].1@.len() == #[trigger] keys@[b].1@.len() by {
            assert(keys@[a].0 == kind_rank(nv[a].kind@));
            assert(keys@[b].0 == kind_rank(nv[b].kind@));
        }
    }
    let out = sort_by_keys(&keys);
    proof {
        assert forall|a: int, b: int| 0 <= a < b < ints(out@).len() implies key_before(picker_key(nv, #[trigger] ints(out@)[a]), picker_key(nv, #[trigger] ints(out@)[b])) by {
            let x = ints(out@)[a];
            let y = ints(out@)[b];
            assert(ints(out@).contains(x) && ints(out@).contains(y));
            assert(keys@[x].0 == kind_rank(nv[x].kind@));
            assert(keys@[y].0 == kind_rank(nv[y].kind@));
            assert(key_of(keys@, x) == picker_key(nv, x));
            assert(key_of(keys@, y) == picker_key(nv, y));
        }
    }
    out
}

/// How many elements have this kind.
pub open spec fn kind_count(nodes: Seq<GraphNode>, kind: Seq<char>) -> nat
    decreases nodes.len(),
{
    if nodes.len() == 0 {
        0
    } else {
        kind_count(nodes.drop_last(), kind) + if nodes.last().kind@ == kind {
            1nat
        } else {
            0nat
        }
    }
}

/// The filter bar's key of a kind: its rank, then the kind itself.
pub open spec fn kind_key(kind: Seq<char>) -> (int, Seq<Seq<char>>, int) {
    (kind_rank(kind), seq![kind], 0)
}

/// The kinds of the rows.
pub open spec fn kinds_of(rows: Seq<(String, usize)>) -> Seq<Seq<char>> {
    rows.map_values(|r: (String, usize)| r.0@)
}

/// Whether some element has this kind.
pub open spec fn kind_present(nodes: Seq<GraphNode>, kind: Seq<char>) -> bool {
    exists|i: int| 0 <= i < nodes.len() && #[trigger] nodes[i].kind@ == kind
}

/// Whether kind `a` comes before kind `b` in the filter bar.
fn kind_less(a: &String, b: &String) -> (r: bool)
    ensures
        r == key_before(kind_key(a@), kind_key(b@)),
{
    let (ra, _) = kind_sort_key(a.as_str());
    let (rb, _) = kind_sort_key(b.as_str());
    if ra != rb {
        return ra < rb;
    }
    let r = chars_less(&chars_of(a.as_str()), &chars_of(b.as_str()));
    proof {
        let ka = kind_key(a@);
        let kb = kind_key(b@);
        reveal_with_fuel(texts_before, 2);
        assert(seq![a@][0] == a@ && seq![b@][0] == b@);
        assert(seq![a@].drop_first() =~= Seq::<Seq<char>>::empty());
        assert(seq![b@].drop_first() =~= Seq::<Seq<char>>::empty());
        if a@ == b@ {
            lemma_lex_irreflexive(a@);
            assert(ka == kb);
        }
    }
    r
}

/// The distinct element kinds present, in the filter bar's order, each with how many elements
/// have it.
pub fn distinct_kinds(graph: &Graph) -> (r: Vec<(String, usize)>)
    ensures
        forall|i: int, j: int| 0 <= i < j < r@.len() ==> key_before(kind_key((#[trigger] r@[i]).0@), kind_key((#[trigger] r@[j]).0@)),
        forall|k: Seq<char>| #[trigger] kinds_of(r@).contains(k) <==> kind_present(graph.nodes@, k),
        forall|i: int| 0 <= i < r@.len() ==> (#[trigger] r@[i]).1 == kind_count(graph.nodes@, r@[i].0@),
{
    let nodes = &graph.nodes;
    let ghost nv = nodes@;
    let mut out: Vec<(String, usize)> = Vec::new();
    let mut i: usize = 0;
    while i < nodes.len()
        invariant
            nv == nodes@,
            i <= nodes@.len(),
            forall|a: int, b: int| 0 <= a < b < out@.len() ==> key_before(kind_key((#[trigger] out@[a]).0@), kind_key((#[trigger] out@[b]).0@)),
            forall|k: Seq<char>| #[trigger] kinds_of(out@).contains(k) <==> kind_present(nv.take(i as int), k),
            forall|a: int| 0 <= a < out@.len() ==> (#[trigger] out@[a]).1 == kind_count(nv.take(i as int), out@[a].0@),
            forall|a: int| 0 <= a < out@.len() ==> (#[trigger] out@[a]).1 <= i,
        decreases nodes@.len() - i,
    {
        let kind = &nodes[i].kind;
        let ghost before = out@;
        proof {
            assert(nv.take(i + 1).drop_last() =~= nv.take(i as int));
            assert(nv.take(i + 1).last() == nv[i as int]);
            assert forall|k: Seq<char>| kind_present(nv.take(i + 1), k) <==> (kind_present(nv.take(i as int), k) || k == kind@) by {
                if kind_present(nv.take(i + 1), k) {
                    let a = choose|a: int| 0 <= a < i + 1 && #[trigger] nv.take(i + 1)[a].kind@ == k;
                    if a < i {
                        assert(nv.take(i as int)[a].kind@ == k);
                    }
                }
                if kind_present(nv.take(i as int), k) {
                    let a = choose|a: int| 0 <= a < i && #[trigger] nv.take(i as int)[a].kind@ == k;
                    assert(nv.take(i + 1)[a].kind@ == k);
                }
                if k == kind@ {
                    assert(nv.take(i + 1)[i as int].kind@ == k);
                }
            }
        }
        let mut p: usize = 0;
        while p < out.len() && out[p].0 != *kind
            invariant
                p <= out@.len(),
                forall|j: int| 0 <= j < p ==> (#[trigger] out@[j]).0@ != kind@,
            decreases out@.len() - p,
        {
            p = p + 1;
        }
        if p < out.len() {
            let c = out[p].1;
            let name = out[p].0.clone();
            out.set(p, (name, c + 1));
            proof {
                assert forall|k: Seq<char>| #[trigger] kinds_of(out@).contains(k) <==> kind_present(nv.take(i + 1), k) by {
                    assert(kinds_of(out@) =~= kinds_of(before));
                    if k == kind@ {
                        assert(kinds_of(before)[p as int] == k);
                    }
                }
                assert forall|a: int| 0 <= a < out@.len() implies (#[trigger] out@[a]).1 == kind_count(nv.take(i + 1), out@[a].0@) by {
                    if a != p {
                        assert(out@[a] == before[a]);
                        let ka = kind_key(before[a].0@);
                        let kp = kind_key(before[p as int].0@);
                        lemma_key_order(ka, kp, kp);
                        if before[a].0@ == kind@ {
                            assert(ka == kp);
                            if a < p {
                                assert(key_before(kind_key(before[a].0@), kind_key(before[p as int].0@)));
                            } else {
                                assert(key_before(kind_key(before[p as int].0@), kind_key(before[a].0@)));
                            }
                        }
                        assert(nv.take(i + 1).last().kind@ != out@[a].0@);
                    } else {
                        assert(nv.take(i + 1).last().kind@ == out@[a].0@);
                    }
                }
            }
        } else {
            let mut q: usize = 0;
            while q < out.len() && !kind_less(kind, &out[q].0)
                invariant
                    q <= out@.len(),
                    forall|j: int| 0 <= j < q ==> !key_before(kind_key(kind@), kind_key((#[trigger] out@[j]).0@)),
                decreases out@.len() - q,
            {
                q = q + 1;
            }
            proof {
                assert(!kinds_of(before).contains(kind@)) by {
                    if kinds_of(before).contains(kind@) {
                        let a = choose|a: int| 0 <= a < kinds_of(before).len() && kinds_of(before)[a] == kind@;
                        assert(before[a].0@ == kind@);
                    }
                }
                assert(!kind_present(nv.take(i as int), kind@));
                assert(kind_count(nv.take(i as int), kind@) == 0) by {
                    lemma_count_absent(nv.take(i as int), kind@);
                }
            }
            out.insert(q, (kind.clone(), 1));
            proof {
                let kx = kind_key(kind@);
                assert(out@ =~= before.insert(q as int, out@[q as int]));
                assert forall|a: int, b: int| 0 <= a < b < out@.len() implies key_before(kind_key((#[trigger] out@[a]).0@), kind_key((#[trigger] out@[b]).0@)) by {
                    let ka = kind_key(out@[a].0@);
                    let kb = kind_key(out@[b].0@);
                    if b < q {
                        assert(out@[a] == before[a] && out@[b] == before[b]);
                    } else if b == q {
                        assert(out@[a] == before[a]);
                        assert(before[a].0@ != kind@) by {
                            assert(kinds_of(before)[a] == before[a].0@);
                        }
                        assert(ka.1[0] != kx.1[0]);
                        lemma_key_order(kx, ka, ka);
                        assert(!key_before(kx, ka));
                    } else if a < q {
                        assert(out@[a] == before[a] && out@[b] == before[b - 1]);
                        assert(before[a].0@ != kind@) by {
                            assert(kinds_of(before)[a] == before[a].0@);
                        }
                        assert(ka.1[0] != kx.1[0]);
                        lemma_key_order(kx, ka, ka);
                        assert(!key_before(kx, ka));
                        let kq = kind_key(before[q as int].0@);
                        assert(key_before(kx, kq));
                        lemma_key_order(ka, kx, kq);
                        if b - 1 > q {
                            lemma_key_order(ka, kq, kb);
                        }
                    } else if a == q {
                        assert(out@[b] == before[b - 1]);
                        let kq = kind_key(before[q as int].0@);
                        assert(key_before(kx, kq));
                        if b - 1 > q {
                            lemma_key_order(kx, kq, kb);
                        }
                    } else {
                        assert(out@[a] == before[a - 1] && out@[b] == before[b - 1]);
                    }
                }
                assert forall|k: Seq<char>| #[trigger] kinds_of(out@).contains(k) <==> kind_present(nv.take(i + 1), k) by {
                    if kinds_of(out@).contains(k) {
                        let a = choose|a: int| 0 <= a < kinds_of(out@).len() && kinds_of(out@)[a] == k;
                        if a < q {
                            assert(kinds_of(before)[a] == k);
                        } else if a > q {
                            assert(kinds_of(before)[a - 1] == k);
                        }
                    }
                    if kinds_of(before).contains(k) {
                        let a = choose|a: int| 0 <= a < kinds_of(before).len() && kinds_of(before)[a] == k;
                        if a < q {
                            assert(kinds_of(out@)[a] == k);
                        } else {
                            assert(kinds_of(out@)[a + 1] == k);
                        }
                    }
                    if k == kind@ {
                        assert(kinds_of(out@)[q as int] == k);
                    }
                }
                assert forall|a: int| 0 <= a < out@.len() implies (#[trigger] out@[a]).1 == kind_count(nv.take(i + 1), out@[a].0@) by {
                    if a < q {
                        assert(out@[a] == before[a]);
                        assert(kinds_of(before)[a] == before[a].0@);
                        assert(nv.take(i + 1).last().kind@ != out@[a].0@);
                    } else if a > q {
                        assert(out@[a] == before[a - 1]);
                        assert(kinds_of(before)[a - 1] == before[a - 1].0@);
                        assert(nv.take(i + 1).last().kind@ != out@[a].0@);
                    } else {
                        assert(nv.take(i + 1).last().kind@ == out@[a].0@);
                    }
                }
            }
        }
        i = i + 1;
    }
    proof {
        assert(nv.take(i as int) =~= nv);
    }
    out
}

proof fn lemma_count_absent(nodes: Seq<GraphNode>, kind: Seq<char>)
    requires
        !kind_present(nodes, kind),
    ensures
        kind_count(nodes, kind) == 0,
    decreases nodes.len(),
{
    if nodes.len() > 0 {
        assert(nodes[nodes.len() - 1].kind@ != kind);
        assert forall|i: int| 0 <= i < nodes.drop_last().len() implies #[trigger] nodes.drop_last()[i].kind@ != kind by {
            assert(nodes[i].kind@ != kind);
        }
        lemma_count_absent(nodes.drop_last(), kind);
    }
}

} // verus!
