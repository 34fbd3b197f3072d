//! The global find-element search: every searchable element once, matched case-insensitively
//! on id, name or kind, listed by name.

use vstd::prelude::*;
use vstd::relations::{sorted_by, total_ordering};
use crate::order::{lemma_lex_asymmetric, lemma_lex_irreflexive, lemma_lex_total, lemma_lex_transitive, lex_lt};
use crate::text::{chars_of, trim_text, trimmed};

verus! {

/// The query of the search page.
pub struct SearchQuery {
    pub q: Option<String>,
    pub branch: Option<String>,
    pub commit: Option<String>,
}

/// One element the search can return.
pub struct Hit {
    pub id: String,
    pub name: String,
    pub kind: String,
}

/// The texts of a hit: id, name and kind.
pub open spec fn hit_view(h: Hit) -> (Seq<char>, Seq<char>, Seq<char>) {
    (h.id@, h.name@, h.kind@)
}

/// The texts of a list of hits.
pub open spec fn hits_view(v: Seq<Hit>) -> Seq<(Seq<char>, Seq<char>, Seq<char>)> {
    v.map_values(|h: Hit| hit_view(h))
}

/// `str::to_lowercase` on a text: each character replaced by its Unicode lower-case mapping.
pub uninterp spec fn lowercase_of(s: Seq<char>) -> Seq<char>;

/// The Unicode lower case of a text (`str::to_lowercase`). The mapping is std's, from its
/// Unicode tables; what it is for each character is not written out here, only that the result
/// is that mapping of the text given.
#[verifier::external_body]
fn to_lowercase(s: &str) -> (r: String)
    ensures
        r@ == lowercase_of(s@),
{
    s.to_lowercase()
}

/// The search text a query carries: trimmed and lower-cased, empty when there is none.
pub open spec fn needle_of(q: Option<Seq<char>>) -> Seq<char> {
    match q {
        Some(v) => lowercase_of(trimmed(v)),
        None => lowercase_of(Seq::empty()),
    }
}

pub fn search_needle(query: &SearchQuery) -> (r: String)
    ensures
        r@ == needle_of(crate::layout::opt_text(query.q)),
{
    match &query.q {
        Some(q) => {
            let t = trim_text(q.as_str());
            to_lowercase(t.as_str())
        },
        None => {
            proof {
                assert(""@ =~= Seq::<char>::empty()) by {
                    reveal_strlit("");
                }
            }
            to_lowercase("")
        },
    }
}

/// Whether `needle` occurs in `hay`.
pub open spec fn occurs_in(hay: Seq<char>, needle: Seq<char>) -> bool {
    exists|i: int| 0 <= i && i + needle.len() <= hay.len() && #[trigger] hay.subrange(i, i + needle.len()) == needle
}

/// Whether `needle` occurs in `hay`.
fn chars_occur(hay: &Vec<char>, needle: &Vec<char>) -> (r: bool)
    ensures
        r == occurs_in(hay@, needle@),
{
    if needle.len() > hay.len() {
        proof {
            assert forall|i: int| 0 <= i && i + needle@.len() <= hay@.len() implies #[trigger] hay@.subrange(i, i + needle@.len()) != needle@ by {}
        }
        return false;
    }
    let hay_len = hay.len();
    let last = hay_len - needle.len();
    let mut i: usize = 0;
    loop
        invariant
            needle@.len() <= hay@.len(),
            hay_len == hay@.len(),
            last == hay@.len() - needle@.len(),
            i <= last,
            forall|k: int| 0 <= k < i ==> #[trigger] hay@.subrange(k, k + needle@.len()) != needle@,
        decreases last - i,
    {
        let mut j: usize = 0;
        while j < needle.len() && hay[i + j] == needle[j]
            invariant
                needle@.len() <= hay@.len(),
                i <= last,
                last == hay@.len() - needle@.len(),
                i + needle@.len() <= hay@.len(),
                hay_len == hay@.len(),
                j <= needle@.len(),
                forall|m: int| 0 <= m < j ==> hay@[i + m] == needle@[m],
            decreases needle@.len() - j,
        {
            j = j + 1;
        }
        if j == needle.len() {
            proof {
                assert(hay@.subrange(i as int, i + needle@.len()) =~= needle@);
            }
            return true;
        }
        proof {
            assert(hay@.subrange(i as int, i + needle@.len())[j as int] != needle@[j as int]);
        }
        if i == last {
            proof {
                assert forall|k: int| 0 <= k && k + needle@.len() <= hay@.len() implies #[trigger] hay@.subrange(k, k + needle@.len()) != needle@ by {
                    assert(k <= i);
                }
            }
            return false;
        }
        i = i + 1;
    }
}

/// Whether a hit matches a lower-cased search text, on its id, name or kind.
pub open spec fn matches_needle(h: (Seq<char>, Seq<char>, Seq<char>), needle: Seq<char>) -> bool {
    occurs_in(lowercase_of(h.0), needle) || occurs_in(lowercase_of(h.1), needle) || occurs_in(
        lowercase_of(h.2),
        needle,
    )
}

pub fn hit_matches(hit: &Hit, needle: &str) -> (r: bool)
    ensures
        r == matches_needle(hit_view(*hit), needle@),
{
    let n = chars_of(needle);
    let id = to_lowercase(hit.id.as_str());
    if chars_occur(&chars_of(id.as_str()), &n) {
        return true;
    }
    let name = to_lowercase(hit.name.as_str());
    if chars_occur(&chars_of(name.as_str()), &n) {
        return true;
    }
    let kind = to_lowercase(hit.kind.as_str());
    chars_occur(&chars_of(kind.as_str()), &n)
}

/// Whether id `id` is among the first `k` entries of `hits`.
pub open spec fn id_among(hits: Seq<(Seq<char>, Seq<char>, Seq<char>)>, id: Seq<char>) -> bool {
    exists|j: int| 0 <= j < hits.len() && #[trigger] hits[j].0 == id
}

/// Every searchable element once: the first with each id, in listing order; an element with no
/// id is not searchable.
pub open spec fn distinct_hits(candidates: Seq<(Seq<char>, Seq<char>, Seq<char>)>) -> Seq<(Seq<char>, Seq<char>, Seq<char>)>
    decreases candidates.len(),
{
    if candidates.len() == 0 {
        Seq::empty()
    } else {
        let rest = distinct_hits(candidates.drop_last());
        let h = candidates.last();
        if h.0.len() == 0 || id_among(rest, h.0) {
            rest
        } else {
            rest.push(h)
        }
    }
}

/// Whether a list of hits holds a hit with id `id`.
fn has_id(hits: &Vec<Hit>, id: &String) -> (r: bool)
    ensures
        r == id_among(hits_view(hits@), id@),
{
    let mut i: usize = 0;
    while i < hits.len()
        invariant
            i <= hits@.len(),
            forall|j: int| 0 <= j < i ==> hits@[j].id@ != id@,
        decreases hits@.len() - i,
    {
        if hits[i].id == *id {
            proof {
                assert(hits_view(hits@)[i as int].0 == id@);
            }
            return true;
        }
        i = i + 1;
    }
    proof {
        if id_among(hits_view(hits@), id@) {
            let j = choose|j: int| 0 <= j < hits_view(hits@).len() && #[trigger] hits_view(hits@)[j].0 == id@;
            assert(hits@[j].id@ == id@);
        }
    }
    false
}

/// Every searchable element once: graph nodes first, then the structure, requirement,
/// interface and signal lists (as the caller lists them), so an element the graph names by id
/// still resolves to its human name and kind.
pub fn collect_hits(candidates: Vec<Hit>) -> (r: Vec<Hit>)
    ensures
        hits_view(r@) == distinct_hits(hits_view(candidates@)),
{
    let ghost all = hits_view(candidates@);
    let mut hits: Vec<Hit> = Vec::new();
    let mut rest = candidates;
    let mut reversed: Vec<Hit> = Vec::new();
    while rest.len() > 0
        invariant
            hits_view(rest@) + hits_view(reversed@.reverse()) == all,
        decreases rest@.len(),
    {
        let ghost before_rest = rest@;
        let ghost before_rev = reversed@;
        let h = rest.pop().unwrap();
        reversed.push(h);
        proof {
            assert(before_rest =~= rest@.push(h));
            assert(reversed@.reverse() =~= seq![h] + before_rev.reverse());
            assert(hits_view(rest@) + hits_view(reversed@.reverse()) =~= hits_view(before_rest) + hits_view(before_rev.reverse()));
        }
    }
    let ghost mut taken: int = 0;
    proof {
        assert(all =~= hits_view(reversed@.reverse()));
        assert(all.take(0) =~= Seq::<(Seq<char>, Seq<char>, Seq<char>)>::empty());
        assert(hits_view(hits@) =~= distinct_hits(all.take(0)));
    }
    while reversed.len() > 0
        invariant
            0 <= taken <= all.len(),
            all.skip(taken) == hits_view(reversed@.reverse()),
            hits_view(hits@) == distinct_hits(all.take(taken)),
        decreases reversed@.len(),
    {
        let ghost before = reversed@;
        let h = reversed.pop().unwrap();
        proof {
            assert(before.reverse()[0] == h);
            assert(all.skip(taken).len() == before.len());
            assert(hits_view(before.reverse())[0] == hit_view(h));
            assert(all.skip(taken)[0] == all[taken]);
            assert(all[taken] == hit_view(h));
            assert(all.take(taken + 1).drop_last() =~= all.take(taken));
            assert(reversed@ =~= before.drop_last());
            assert(before.drop_last().reverse() =~= before.reverse().drop_first());
            assert(all.skip(taken + 1) =~= all.skip(taken).drop_first());
            assert(hits_view(reversed@.reverse()) =~= hits_view(before.reverse()).drop_first());
        }
        if !h.id.as_str().is_empty() && !has_id(&hits, &h.id) {
            let ghost prior = hits@;
            hits.push(h);
            proof {
                assert(hits_view(hits@) =~= hits_view(prior).push(all[taken]));
            }
        }
        proof {
            taken = taken + 1;
        }
    }
    proof {
        assert(all.take(taken) =~= all);
    }
    hits
}

// ---------------------------------------------------------------------------
// The order of the results.

/// The order the results are listed in: by name, then by id (then by kind, which never decides
/// between two hits of one search: their ids differ).
pub open spec fn hit_before(a: (Seq<char>, Seq<char>, Seq<char>), b: (Seq<char>, Seq<char>, Seq<char>)) -> bool {
    lex_lt(a.1, b.1) || (a.1 == b.1 && (lex_lt(a.0, b.0) || (a.0 == b.0 && lex_lt(a.2, b.2))))
}

/// The listing order as a relation: `a` does not come after `b`.
pub open spec fn hit_order() -> spec_fn((Seq<char>, Seq<char>, Seq<char>), (Seq<char>, Seq<char>, Seq<char>)) -> bool {
    |a: (Seq<char>, Seq<char>, Seq<char>), b: (Seq<char>, Seq<char>, Seq<char>)| !hit_before(b, a)
}

proof fn lemma_hit_before_total(a: (Seq<char>, Seq<char>, Seq<char>), b: (Seq<char>, Seq<char>, Seq<char>))
    ensures
        a != b ==> hit_before(a, b) || hit_before(b, a),
        !(hit_before(a, b) && hit_before(b, a)),
        !hit_before(a, a),
{
    lemma_lex_irreflexive(a.0);
    lemma_lex_irreflexive(a.1);
    lemma_lex_irreflexive(a.2);
    if a.1 != b.1 {
        lemma_lex_total(a.1, b.1);
    }
    if a.0 != b.0 {
        lemma_lex_total(a.0, b.0);
    }
    if a.2 != b.2 {
        lemma_lex_total(a.2, b.2);
    }
    if a != b {
        if a.0 == b.0 && a.1 == b.1 && a.2 == b.2 {
            assert(a == b);
        }
    }
}

proof fn lemma_hit_before_transitive(
    a: (Seq<char>, Seq<char>, Seq<char>),
    b: (Seq<char>, Seq<char>, Seq<char>),
    c: (Seq<char>, Seq<char>, Seq<char>),
)
    requires
        hit_before(a, b),
        hit_before(b, c),
    ensures
        hit_before(a, c),
{
    if lex_lt(a.1, b.1) && lex_lt(b.1, c.1) {
        lemma_lex_transitive(a.1, b.1, c.1);
    }
    if a.1 == b.1 && b.1 == c.1 {
        if lex_lt(a.0, b.0) && lex_lt(b.0, c.0) {
            lemma_lex_transitive(a.0, b.0, c.0);
        }
        if a.0 == b.0 && b.0 == c.0 && lex_lt(a.2, b.2) && lex_lt(b.2, c.2) {
            lemma_lex_transitive(a.2, b.2, c.2);
        }
    }
}

proof fn lemma_hit_order_total()
    ensures
        total_ordering(hit_order()),
{
    let leq = hit_order();
    assert forall|a: (Seq<char>, Seq<char>, Seq<char>)| #[trigger] leq(a, a) by {
        lemma_hit_before_total(a, a);
    }
    assert forall|a: (Seq<char>, Seq<char>, Seq<char>), b: (Seq<char>, Seq<char>, Seq<char>)| #[trigger] leq(a, b) && #[trigger] leq(b, a) implies a == b by {
        lemma_hit_before_total(a, b);
    }
    assert forall|a: (Seq<char>, Seq<char>, Seq<char>), b: (Seq<char>, Seq<char>, Seq<char>), c: (Seq<char>, Seq<char>, Seq<char>)| #[trigger] leq(a, b) && #[trigger] leq(b, c) implies leq(a, c) by {
        if hit_before(c, a) {
            lemma_hit_before_total(a, b);
            lemma_hit_before_total(b, c);
            if a != b && b != c {
                lemma_hit_before_transitive(c, a, b);
            }
        }
    }
    assert forall|a: (Seq<char>, Seq<char>, Seq<char>), b: (Seq<char>, Seq<char>, Seq<char>)| #[trigger] leq(a, b) || #[trigger] leq(b, a) by {
        lemma_hit_before_total(a, b);
    }
    assert(vstd::relations::reflexive(leq));
    assert(vstd::relations::antisymmetric(leq));
    assert(vstd::relations::transitive(leq));
    assert(vstd::relations::strongly_connected(leq));
}

/// Whether hit `a` is listed before hit `b`.
fn before(a: &Hit, b: &Hit) -> (r: bool)
    ensures
        r == hit_before(hit_view(*a), hit_view(*b)),
{
    let an = chars_of(a.name.as_str());
    let bn = chars_of(b.name.as_str());
    if crate::order::chars_less(&an, &bn) {
        return true;
    }
    if a.name != b.name {
        return false;
    }
    let ai = chars_of(a.id.as_str());
    let bi = chars_of(b.id.as_str());
    if crate::order::chars_less(&ai, &bi) {
        return true;
    }
    if a.id != b.id {
        return false;
    }
    crate::order::chars_less(&chars_of(a.kind.as_str()), &chars_of(b.kind.as_str()))
}

/// The hits in listing order.
#[verifier::rlimit(40)]
#[verifier::spinoff_prover]
pub fn sort_hits(v: Vec<Hit>) -> (r: Vec<Hit>)
    ensures
        hits_view(r@) == hits_view(v@).sort_by(hit_order()),
{
    let ghost leq = hit_order();
    let ghost all = hits_view(v@);
    let mut rest = v;
    let mut r: Vec<Hit> = Vec::new();
    let ghost mut taken: int = 0;
    proof {
        lemma_hit_order_total();
        assert(hits_view(r@) =~= Seq::<(Seq<char>, Seq<char>, Seq<char>)>::empty());
        assert(all.take(0) =~= Seq::<(Seq<char>, Seq<char>, Seq<char>)>::empty());
    }
    let mut reversed: Vec<Hit> = Vec::new();
    while rest.len() > 0
        invariant
            hits_view(rest@) + hits_view(reversed@.reverse()) == all,
        decreases rest@.len(),
    {
        let ghost before_rest = rest@;
        let ghost before_rev = reversed@;
        let h = rest.pop().unwrap();
        reversed.push(h);
        proof {
            assert(before_rest =~= rest@.push(h));
            assert(reversed@.reverse() =~= seq![h] + before_rev.reverse());
            assert(hits_view(rest@) + hits_view(reversed@.reverse()) =~= hits_view(before_rest) + hits_view(before_rev.reverse()));
        }
    }
    proof {
        assert(all =~= hits_view(reversed@.reverse()));
    }
    while reversed.len() > 0
        invariant
            leq == hit_order(),
            total_ordering(leq),
            0 <= taken <= all.len(),
            all.skip(taken) == hits_view(reversed@.reverse()),
            sorted_by(hits_view(r@), leq),
            hits_view(r@).to_multiset() == all.take(taken).to_multiset(),
        decreases reversed@.len(),
    {
        let ghost before_rev = reversed@;
        let x = reversed.pop().unwrap();
        let ghost xv = hit_view(x);
        proof {
            assert(before_rev.reverse()[0] == x);
            assert(all.skip(taken).len() == before_rev.len());
            assert(hits_view(before_rev.reverse())[0] == xv);
            assert(all.skip(taken)[0] == all[taken]);
            assert(reversed@ =~= before_rev.drop_last());
            assert(before_rev.drop_last().reverse() =~= before_rev.reverse().drop_first());
            assert(all.skip(taken + 1) =~= all.skip(taken).drop_first());
            assert(hits_view(reversed@.reverse()) =~= hits_view(before_rev.reverse()).drop_first());
        }
        let mut p: usize = 0;
        let mut stop = false;
        while p < r.len() && !stop
            invariant
                xv == hit_view(x),
                p <= r@.len(),
                stop ==> p < r@.len() && hit_before(xv, hits_view(r@)[p as int]),
                forall|j: int| 0 <= j < p ==> !hit_before(xv, #[trigger] hits_view(r@)[j]),
            decreases r@.len() - p, if stop { 0int } else { 1int },
        {
            proof {
                assert(hits_view(r@)[p as int] == hit_view(r@[p as int]));
            }
            if before(&x, &r[p]) {
                stop = true;
            } else {
                p = p + 1;
            }
        }
        let ghost old_r = r@;
        let ghost o = hits_view(old_r);
        r.insert(p, x);
        proof {
            broadcast use vstd::seq_lib::group_to_multiset_ensures;
            if p < old_r.len() {
                assert(o[p as int] == hit_view(old_r[p as int]));
                assert(hit_before(xv, o[p as int]));
            }
            assert(hits_view(r@) =~= o.insert(p as int, xv));
            assert forall|a: int, b: int| 0 <= a < b < hits_view(r@).len() implies #[trigger] leq(hits_view(r@)[a], hits_view(r@)[b]) by {
                if b < p {
                    assert(leq(o[a], o[b]));
                } else if b == p {
                    assert(!hit_before(xv, o[a]));
                } else if a < p {
                    assert(!hit_before(xv, o[a]));
                    lemma_hit_before_total(xv, o[p as int]);
                    assert(leq(o[a], xv));
                    assert(leq(xv, o[p as int]));
                    if p < b - 1 {
                        assert(leq(o[p as int], o[b - 1]));
                    }
                } else if a == p {
                    lemma_hit_before_total(xv, o[p as int]);
                    assert(leq(xv, o[p as int]));
                    if p < b - 1 {
                        assert(leq(o[p as int], o[b - 1]));
                    }
                } else {
                    assert(leq(o[a - 1], o[b - 1]));
                }
            }
            assert(o.insert(p as int, xv) =~= o.take(p as int) + seq![xv] + o.skip(p as int));
            assert(o =~= o.take(p as int) + o.skip(p as int));
            vstd::seq_lib::lemma_multiset_commutative(o.take(p as int), seq![xv]);
            vstd::seq_lib::lemma_multiset_commutative(o.take(p as int) + seq![xv], o.skip(p as int));
            vstd::seq_lib::lemma_multiset_commutative(o.take(p as int), o.skip(p as int));
            assert(all.take(taken + 1) =~= all.take(taken).push(xv));
            assert(seq![xv].to_multiset() =~= Seq::<(Seq<char>, Seq<char>, Seq<char>)>::empty().push(xv).to_multiset()) by {
                assert(seq![xv] =~= Seq::<(Seq<char>, Seq<char>, Seq<char>)>::empty().push(xv));
            }
            assert(Seq::<(Seq<char>, Seq<char>, Seq<char>)>::empty().to_multiset() =~= vstd::multiset::Multiset::<(Seq<char>, Seq<char>, Seq<char>)>::empty()) by {
                broadcast use vstd::multiset::group_multiset_axioms;
                assert(Seq::<(Seq<char>, Seq<char>, Seq<char>)>::empty().to_multiset().len() == 0);
            }
            assert(hits_view(r@).to_multiset() =~= all.take(taken + 1).to_multiset()) by {
                broadcast use vstd::multiset::group_multiset_axioms;
            }
            taken = taken + 1;
        }
    }
    proof {
        assert(all.take(taken) =~= all);
        all.lemma_sort_by_ensures(leq);
        vstd::seq_lib::lemma_sorted_unique(hits_view(r@), all.sort_by(leq), leq);
    }
    r
}

/// The hits a search shows: every searchable element once, those matching the search text when
/// there is one, by name then id.
pub open spec fn search_results(candidates: Seq<(Seq<char>, Seq<char>, Seq<char>)>, needle: Seq<char>) -> Seq<(Seq<char>, Seq<char>, Seq<char>)> {
    let all = distinct_hits(candidates);
    let kept = if needle.len() == 0 {
        all
    } else {
        all.filter(|h: (Seq<char>, Seq<char>, Seq<char>)| matches_needle(h, needle))
    };
    kept.sort_by(hit_order())
}

pub fn search_hits(candidates: Vec<Hit>, needle: &str) -> (r: Vec<Hit>)
    ensures
        hits_view(r@) == search_results(hits_view(candidates@), needle@),
{
    let all = collect_hits(candidates);
    let ghost allv = hits_view(all@);
    let ghost keep = |h: (Seq<char>, Seq<char>, Seq<char>)| matches_needle(h, needle@);
    if needle.is_empty() {
        return sort_hits(all);
    }
    let mut rest = all;
    let mut reversed: Vec<Hit> = Vec::new();
    while rest.len() > 0
        invariant
            hits_view(rest@) + hits_view(reversed@.reverse()) == allv,
        decreases rest@.len(),
    {
        let ghost before_rest = rest@;
        let ghost before_rev = reversed@;
        let h = rest.pop().unwrap();
        reversed.push(h);
        proof {
            assert(before_rest =~= rest@.push(h));
            assert(reversed@.reverse() =~= seq![h] + before_rev.reverse());
            assert(hits_view(rest@) + hits_view(reversed@.reverse()) =~= hits_view(before_rest) + hits_view(before_rev.reverse()));
        }
    }
    let mut kept: Vec<Hit> = Vec::new();
    let ghost mut taken: int = 0;
    proof {
        assert(allv =~= hits_view(reversed@.reverse()));
        assert(hits_view(kept@) =~= allv.take(0).filter(keep));
    }
    while reversed.len() > 0
        invariant
            keep == (|h: (Seq<char>, Seq<char>, Seq<char>)| matches_needle(h, needle@)),
            0 <= taken <= allv.len(),
            allv.skip(taken) == hits_view(reversed@.reverse()),
            hits_view(kept@) == allv.take(taken).filter(keep),
        decreases reversed@.len(),
    {
        let ghost before_rev = reversed@;
        let h = reversed.pop().unwrap();
        proof {
            assert(before_rev.reverse()[0] == h);
            assert(allv.skip(taken).len() == before_rev.len());
            assert(hits_view(before_rev.reverse())[0] == hit_view(h));
            assert(allv.skip(taken)[0] == allv[taken]);
            assert(reversed@ =~= before_rev.drop_last());
            assert(before_rev.drop_last().reverse() =~= before_rev.reverse().drop_first());
            assert(allv.skip(taken + 1) =~= allv.skip(taken).drop_first());
            assert(hits_view(reversed@.reverse()) =~= hits_view(before_rev.reverse()).drop_first());
            assert(allv.take(taken + 1) =~= allv.take(taken).push(allv[taken]));
            allv.take(taken).lemma_filter_push(allv[taken], keep);
        }
        if hit_matches(&h, needle) {
            let ghost prior = kept@;
            kept.push(h);
            proof {
                assert(hits_view(kept@) =~= hits_view(prior).push(allv[taken]));
            }
        }
        proof {
            taken = taken + 1;
        }
    }
    proof {
        assert(allv.take(taken) =~= allv);
    }
    sort_hits(kept)
}

/// Every element is found once: no two results share an id, and no result lacks one.
pub proof fn lemma_distinct_hits_unique(candidates: Seq<(Seq<char>, Seq<char>, Seq<char>)>)
    ensures
        forall|i: int, j: int| 0 <= i < j < distinct_hits(candidates).len() ==> #[trigger] distinct_hits(candidates)[i].0
            != #[trigger] distinct_hits(candidates)[j].0,
        forall|i: int| 0 <= i < distinct_hits(candidates).len() ==> #[trigger] distinct_hits(candidates)[i].0.len() > 0,
    decreases candidates.len(),
{
    if candidates.len() > 0 {
        let rest = distinct_hits(candidates.drop_last());
        lemma_distinct_hits_unique(candidates.drop_last());
        let h = candidates.last();
        if !(h.0.len() == 0 || id_among(rest, h.0)) {
            let r = rest.push(h);
            assert forall|i: int, j: int| 0 <= i < j < r.len() implies #[trigger] r[i].0 != #[trigger] r[j].0 by {
                if j == r.len() - 1 {
                    assert(r[i] == rest[i]);
                    if rest[i].0 == h.0 {
                        assert(id_among(rest, h.0));
                    }
                } else {
                    assert(r[i] == rest[i] && r[j] == rest[j]);
                }
            }
            assert forall|i: int| 0 <= i < r.len() implies #[trigger] r[i].0.len() > 0 by {
                if i < rest.len() {
                    assert(r[i] == rest[i]);
                }
            }
        }
    }
}

/// A search lists its results by name, then id: each result comes no later than the next.
pub proof fn lemma_search_results_ordered(candidates: Seq<(Seq<char>, Seq<char>, Seq<char>)>, needle: Seq<char>)
    ensures
        forall|i: int, j: int| 0 <= i < j < search_results(candidates, needle).len() ==> !hit_before(
            #[trigger] search_results(candidates, needle)[j],
            #[trigger] search_results(candidates, needle)[i],
        ),
{
    lemma_hit_order_total();
    let all = distinct_hits(candidates);
    let kept = if needle.len() == 0 {
        all
    } else {
        all.filter(|h: (Seq<char>, Seq<char>, Seq<char>)| matches_needle(h, needle))
    };
    kept.lemma_sort_by_ensures(hit_order());
    assert forall|i: int, j: int| 0 <= i < j < search_results(candidates, needle).len() implies !hit_before(
        #[trigger] search_results(candidates, needle)[j],
        #[trigger] search_results(candidates, needle)[i],
    ) by {
        assert(hit_order()(search_results(candidates, needle)[i], search_results(candidates, needle)[j]));
    }
}

/// A hit matches a search text exactly when its lower-cased id, its lower-cased name or its
/// lower-cased kind contains the text; and with a search text, every element the search
/// lists once (the first of each id) appears among the results exactly when it matches so.
pub proof fn lemma_search_finds_exactly_the_matches(
    candidates: Seq<(Seq<char>, Seq<char>, Seq<char>)>,
    needle: Seq<char>,
    h: (Seq<char>, Seq<char>, Seq<char>),
)
    ensures
        matches_needle(h, needle) <==> (occurs_in(lowercase_of(h.0), needle) || occurs_in(lowercase_of(h.1), needle)
            || occurs_in(lowercase_of(h.2), needle)),
        needle.len() > 0 && distinct_hits(candidates).contains(h) ==> (search_results(candidates, needle).contains(h) <==> (
        occurs_in(lowercase_of(h.0), needle) || occurs_in(lowercase_of(h.1), needle) || occurs_in(lowercase_of(h.2), needle))),
{
    broadcast use vstd::seq_lib::group_to_multiset_ensures;
    if needle.len() > 0 && distinct_hits(candidates).contains(h) {
        let all = distinct_hits(candidates);
        let pred = |x: (Seq<char>, Seq<char>, Seq<char>)| matches_needle(x, needle);
        let kept = all.filter(pred);
        all.filter_lemma(pred);
        lemma_hit_order_total();
        kept.lemma_sort_by_ensures(hit_order());
        let k = choose|k: int| 0 <= k < all.len() && all[k] == h;
        if matches_needle(h, needle) {
            assert(pred(all[k]));
            assert(kept.contains(h));
            assert(kept.to_multiset().count(h) > 0);
            assert(kept.sort_by(hit_order()).to_multiset().count(h) > 0);
        }
        if search_results(candidates, needle).contains(h) {
            assert(kept.contains(h));
            let m = choose|m: int| 0 <= m < kept.len() && kept[m] == h;
            assert(pred(kept[m]));
        }
    }
}

} // verus!
