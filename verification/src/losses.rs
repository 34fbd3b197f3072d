//! Classes of loss: the biggest kinds of thing a reader could not carry, counted from the
//! binding's own loss report.
//!
//! A class is named by the engine's own word for the construct, the front of each blocking
//! entry's subject (for the XMI reader that is the XMI element name: uml:Class, uml:Property),
//! so nothing is re-categorised here. The classes partition the blocking entries exactly.

use vstd::prelude::*;
use crate::facts::LossClass;
use crate::order::{chars_less, lex_lt, lemma_lex_asymmetric, lemma_lex_irreflexive, lemma_lex_total, lemma_lex_transitive};
use crate::text::{chars_of, is_white_space, string_of, white_space};

verus! {

/// The characters of `s` up to its first white space.
pub open spec fn word_prefix(s: Seq<char>) -> Seq<char>
    decreases s.len(),
{
    if s.len() == 0 || is_white_space(s[0]) {
        Seq::empty()
    } else {
        seq![s[0]] + word_prefix(s.drop_first())
    }
}

/// The first white-space-separated word of `s`, or nothing.
pub open spec fn first_word(s: Seq<char>) -> Seq<char>
    decreases s.len(),
{
    if s.len() > 0 && is_white_space(s[0]) {
        first_word(s.drop_first())
    } else {
        word_prefix(s)
    }
}

/// The first word of a text.
pub fn first_word_of(s: &str) -> (r: Vec<char>)
    ensures
        r@ == first_word(s@),
{
    let cs = chars_of(s);
    let mut i: usize = 0;
    proof {
        assert(cs@.skip(0) =~= cs@);
    }
    while i < cs.len() && white_space(cs[i])
        invariant
            cs@ == s@,
            i <= cs@.len(),
            first_word(s@) == first_word(cs@.skip(i as int)),
        decreases cs@.len() - i,
    {
        proof {
            assert(cs@.skip(i as int).drop_first() =~= cs@.skip(i + 1));
        }
        i = i + 1;
    }
    proof {
        if i < cs@.len() {
            assert(cs@.skip(i as int)[0] == cs@[i as int]);
        }
    }
    let ghost start = i;
    let mut word: Vec<char> = Vec::new();
    while i < cs.len() && !white_space(cs[i])
        invariant
            cs@ == s@,
            start <= i <= cs@.len(),
            word_prefix(cs@.skip(start as int)) == word@ + word_prefix(cs@.skip(i as int)),
        decreases cs@.len() - i,
    {
        proof {
            assert(cs@.skip(i as int).drop_first() =~= cs@.skip(i + 1));
            assert(cs@.skip(i as int)[0] == cs@[i as int]);
        }
        word.push(cs[i]);
        proof {
            assert(word_prefix(cs@.skip(start as int)) =~= word@ + word_prefix(cs@.skip(i + 1)));
        }
        i = i + 1;
    }
    proof {
        if i < cs@.len() {
            assert(cs@.skip(i as int)[0] == cs@[i as int]);
        }
        assert(word_prefix(cs@.skip(i as int)) =~= Seq::<char>::empty());
        assert(word_prefix(cs@.skip(start as int)) =~= word@);
    }
    word
}


/// The texts held by a list of character vectors.
pub open spec fn views(v: Seq<Vec<char>>) -> Seq<Seq<char>> {
    v.map_values(|w: Vec<char>| w@)
}

/// How many entries of `names` are `name`.
pub open spec fn count_in(names: Seq<Seq<char>>, name: Seq<char>) -> nat
    decreases names.len(),
{
    if names.len() == 0 {
        0
    } else {
        count_in(names.drop_last(), name) + if names.last() == name {
            1nat
        } else {
            0nat
        }
    }
}

/// The sum of a list of counts.
pub open spec fn total(counts: Seq<u64>) -> nat
    decreases counts.len(),
{
    if counts.len() == 0 {
        0
    } else {
        total(counts.drop_last()) + (counts.last() as nat)
    }
}

proof fn lemma_total_update(counts: Seq<u64>, g: int, v: u64)
    requires
        0 <= g < counts.len(),
    ensures
        total(counts.update(g, v)) + counts[g] == total(counts) + v,
    decreases counts.len(),
{
    if g < counts.len() - 1 {
        lemma_total_update(counts.drop_last(), g, v);
        assert(counts.update(g, v).drop_last() =~= counts.drop_last().update(g, v));
    } else {
        assert(counts.update(g, v).drop_last() =~= counts.drop_last());
    }
}

fn chars_eq(a: &Vec<char>, b: &Vec<char>) -> (r: bool)
    ensures
        r == (a@ == b@),
{
    if a.len() != b.len() {
        return false;
    }
    let mut i: usize = 0;
    while i < a.len()
        invariant
            a@.len() == b@.len(),
            i <= a@.len(),
            forall|j: int| 0 <= j < i ==> a@[j] == b@[j],
        decreases a@.len() - i,
    {
        if a[i] != b[i] {
            return false;
        }
        i = i + 1;
    }
    proof {
        assert(a@ =~= b@);
    }
    true
}

/// What grouping the names by class produced: each group's name, count and the position of
/// its first entry, for the first `upto` names.
pub open spec fn groups_wf(
    names: Seq<Seq<char>>,
    upto: int,
    gnames: Seq<Seq<char>>,
    gcounts: Seq<u64>,
    gfirst: Seq<usize>,
) -> bool {
    &&& 0 <= upto <= names.len()
    &&& gnames.len() == gcounts.len() == gfirst.len()
    &&& forall|g: int| 0 <= g < gnames.len() ==> #[trigger] gfirst[g] < upto && names[gfirst[g] as int] == gnames[g]
    &&& forall|g: int, j: int| 0 <= g < gnames.len() && 0 <= j < gfirst[g] ==> #[trigger] names[j] != #[trigger] gnames[g]
    &&& forall|g: int| 0 <= g < gnames.len() ==> #[trigger] gcounts[g] == count_in(names.take(upto), gnames[g])
    &&& forall|g1: int, g2: int| 0 <= g1 < g2 < gnames.len() ==> #[trigger] gnames[g1] != #[trigger] gnames[g2]
    &&& forall|j: int| 0 <= j < upto ==> exists|g: int| 0 <= g < gnames.len() && gnames[g] == #[trigger] names[j]
    &&& total(gcounts) == upto
}

proof fn lemma_count_take_step(names: Seq<Seq<char>>, i: int, name: Seq<char>)
    requires
        0 <= i < names.len(),
    ensures
        count_in(names.take(i + 1), name) == count_in(names.take(i), name) + if names[i] == name {
            1nat
        } else {
            0nat
        },
{
    assert(names.take(i + 1).drop_last() =~= names.take(i));
}

proof fn lemma_count_absent(names: Seq<Seq<char>>, name: Seq<char>)
    requires
        forall|j: int| 0 <= j < names.len() ==> names[j] != name,
    ensures
        count_in(names, name) == 0,
    decreases names.len(),
{
    if names.len() > 0 {
        lemma_count_absent(names.drop_last(), name);
    }
}

/// Group the class names: one group per distinct name, in order of first appearance.
#[verifier::rlimit(60)]
fn group_names(names: &Vec<Vec<char>>) -> (r: (Vec<Vec<char>>, Vec<u64>, Vec<usize>))
    requires
        names@.len() < u64::MAX,
    ensures
        groups_wf(views(names@), names@.len() as int, views(r.0@), r.1@, r.2@),
{
    let ghost ns = views(names@);
    let mut gnames: Vec<Vec<char>> = Vec::new();
    let mut gcounts: Vec<u64> = Vec::new();
    let mut gfirst: Vec<usize> = Vec::new();
    let mut i: usize = 0;
    proof {
        assert(gcounts@ =~= Seq::<u64>::empty());
    }
    while i < names.len()
        invariant
            ns == views(names@),
            names@.len() < u64::MAX,
            i <= names@.len(),
            groups_wf(ns, i as int, views(gnames@), gcounts@, gfirst@),
        decreases names@.len() - i,
    {
        let ghost gn = views(gnames@);
        let mut found: Option<usize> = None;
        let mut g: usize = 0;
        while g < gnames.len() && found.is_none()
            invariant
                ns == views(names@),
                i < names@.len(),
                gn == views(gnames@),
                g <= gnames@.len(),
                found is None ==> forall|h: int| 0 <= h < g ==> gn[h] != ns[i as int],
                found matches Some(h) ==> h < gnames@.len() && gn[h as int] == ns[i as int],
            decreases gnames@.len() - g + if found is None { 1int } else { 0int },
        {
            if chars_eq(&gnames[g], &names[i]) {
                found = Some(g);
            } else {
                g = g + 1;
            }
        }
        let ghost before_counts = gcounts@;
        let ghost before_first = gfirst@;
        match found {
            Some(h) => {
                let c = gcounts[h];
                proof {
                    lemma_count_take_step(ns, i as int, gn[h as int]);
                    assert(c <= i) by {
                        lemma_count_le(ns.take(i as int), gn[h as int]);
                    }
                }
                gcounts.set(h, c + 1);
                proof {
                    lemma_total_update(before_counts, h as int, (c + 1) as u64);
                    assert forall|g2: int| 0 <= g2 < gn.len() implies #[trigger] gcounts@[g2] == count_in(ns.take(i + 1), gn[g2]) by {
                        lemma_count_take_step(ns, i as int, gn[g2]);
                    }
                    assert forall|j: int| 0 <= j < i + 1 implies exists|g3: int| 0 <= g3 < gn.len() && gn[g3] == #[trigger] ns[j] by {
                        if j == i {
                            assert(gn[h as int] == ns[j]);
                        }
                    }
                }
            },
            None => {
                let name = names[i].clone();
                proof {
                    assert(name@ == names@[i as int]@);
                }
                gnames.push(name);
                gcounts.push(1);
                gfirst.push(i);
                proof {
                    assert(views(gnames@) =~= gn.push(ns[i as int]));
                    assert(total(gcounts@) == total(before_counts) + 1) by {
                        assert(gcounts@.drop_last() =~= before_counts);
                    }
                    assert forall|g2: int| 0 <= g2 < gn.len() + 1 implies #[trigger] gcounts@[g2] == count_in(ns.take(i + 1), views(gnames@)[g2]) by {
                        lemma_count_take_step(ns, i as int, views(gnames@)[g2]);
                        if g2 == gn.len() {
                            assert forall|j: int| 0 <= j < i implies ns.take(i as int)[j] != ns[i as int] by {
                                let g4 = choose|g4: int| 0 <= g4 < gn.len() && gn[g4] == ns[j];
                            }
                            lemma_count_absent(ns.take(i as int), ns[i as int]);
                        }
                    }
                    assert forall|g2: int, j: int| 0 <= g2 < gn.len() + 1 && 0 <= j < gfirst@[g2] implies #[trigger] ns[j] != #[trigger] views(gnames@)[g2] by {
                        if g2 == gn.len() {
                            let g4 = choose|g4: int| 0 <= g4 < gn.len() && gn[g4] == ns[j];
                        }
                    }
                    assert forall|j: int| 0 <= j < i + 1 implies exists|g3: int| 0 <= g3 < gn.len() + 1 && views(gnames@)[g3] == #[trigger] ns[j] by {
                        if j == i {
                            assert(views(gnames@)[gn.len() as int] == ns[j]);
                        } else {
                            let g4 = choose|g4: int| 0 <= g4 < gn.len() && gn[g4] == ns[j];
                            assert(views(gnames@)[g4] == ns[j]);
                        }
                    }
                }
            },
        }
        i = i + 1;
    }
    proof {
        assert(ns.take(i as int) =~= ns);
    }
    (gnames, gcounts, gfirst)
}

proof fn lemma_count_le(names: Seq<Seq<char>>, name: Seq<char>)
    ensures
        count_in(names, name) <= names.len(),
    decreases names.len(),
{
    if names.len() > 0 {
        lemma_count_le(names.drop_last(), name);
    }
}


/// Whether a class of `c1` entries named `n1` is listed before one of `c2` entries named `n2`:
/// bigger first, ties broken by name so the same report always produces the same list.
pub open spec fn outranks(c1: int, n1: Seq<char>, c2: int, n2: Seq<char>) -> bool {
    c1 > c2 || (c1 == c2 && lex_lt(n1, n2))
}

proof fn lemma_outranks_transitive(c1: int, n1: Seq<char>, c2: int, n2: Seq<char>, c3: int, n3: Seq<char>)
    requires
        outranks(c1, n1, c2, n2),
        outranks(c2, n2, c3, n3),
    ensures
        outranks(c1, n1, c3, n3),
{
    if c1 == c2 && c2 == c3 {
        lemma_lex_transitive(n1, n2, n3);
    }
}

proof fn lemma_outranks_total(c1: int, n1: Seq<char>, c2: int, n2: Seq<char>)
    requires
        n1 != n2,
    ensures
        outranks(c1, n1, c2, n2) || outranks(c2, n2, c1, n1),
        !(outranks(c1, n1, c2, n2) && outranks(c2, n2, c1, n1)),
{
    lemma_lex_total(n1, n2);
}

/// The sum of the counts of the groups not yet used.
pub open spec fn unused_total(counts: Seq<u64>, used: Seq<bool>) -> nat
    decreases counts.len(),
{
    if counts.len() == 0 || used.len() == 0 {
        0
    } else {
        unused_total(counts.drop_last(), used.drop_last()) + if used.last() {
            0nat
        } else {
            counts.last() as nat
        }
    }
}

/// How many groups are not yet used.
pub open spec fn unused_count(used: Seq<bool>) -> nat
    decreases used.len(),
{
    if used.len() == 0 {
        0
    } else {
        unused_count(used.drop_last()) + if used.last() {
            0nat
        } else {
            1nat
        }
    }
}

/// The sum of the counts of the chosen groups.
pub open spec fn chosen_total(counts: Seq<u64>, chosen: Seq<usize>) -> nat
    decreases chosen.len(),
{
    if chosen.len() == 0 {
        0
    } else {
        chosen_total(counts, chosen.drop_last()) + counts[chosen.last() as int] as nat
    }
}

proof fn lemma_use_one(counts: Seq<u64>, used: Seq<bool>, g: int)
    requires
        counts.len() == used.len(),
        0 <= g < used.len(),
        !used[g],
    ensures
        unused_total(counts, used.update(g, true)) + counts[g] == unused_total(counts, used),
        unused_count(used.update(g, true)) + 1 == unused_count(used),
    decreases used.len(),
{
    if g < used.len() - 1 {
        lemma_use_one(counts.drop_last(), used.drop_last(), g);
        assert(used.update(g, true).drop_last() =~= used.drop_last().update(g, true));
    } else {
        assert(used.update(g, true).drop_last() =~= used.drop_last());
    }
}

proof fn lemma_none_used(counts: Seq<u64>, used: Seq<bool>)
    requires
        counts.len() == used.len(),
        forall|g: int| 0 <= g < used.len() ==> !used[g],
    ensures
        unused_total(counts, used) == total(counts),
        unused_count(used) == used.len(),
    decreases used.len(),
{
    if used.len() > 0 {
        lemma_none_used(counts.drop_last(), used.drop_last());
    }
}

proof fn lemma_all_used(counts: Seq<u64>, used: Seq<bool>)
    requires
        counts.len() == used.len(),
        unused_count(used) == 0,
    ensures
        unused_total(counts, used) == 0,
        forall|g: int| 0 <= g < used.len() ==> used[g],
    decreases used.len(),
{
    if used.len() > 0 {
        lemma_all_used(counts.drop_last(), used.drop_last());
        assert forall|g: int| 0 <= g < used.len() implies used[g] by {
            if g < used.len() - 1 {
                assert(used.drop_last()[g] == used[g]);
            }
        }
    }
}

proof fn lemma_unused_exists(used: Seq<bool>)
    requires
        unused_count(used) > 0,
    ensures
        exists|g: int| 0 <= g < used.len() && !used[g],
    decreases used.len(),
{
    if used.len() > 0 && used.last() {
        lemma_unused_exists(used.drop_last());
        let g = choose|g: int| 0 <= g < used.drop_last().len() && !used.drop_last()[g];
        assert(!used[g]);
    }
}

/// Whether group `g` is among the chosen.
pub open spec fn picks(chosen: Seq<usize>, g: int) -> bool {
    exists|b: int| 0 <= b < chosen.len() && #[trigger] chosen[b] == g
}

/// The first `limit` groups in rank order (fewer when there are fewer groups).
fn select_top(gnames: &Vec<Vec<char>>, gcounts: &Vec<u64>, limit: usize) -> (chosen: Vec<usize>)
    requires
        gnames@.len() == gcounts@.len(),
        forall|g1: int, g2: int| 0 <= g1 < g2 < gnames@.len() ==> #[trigger] views(gnames@)[g1] != #[trigger] views(gnames@)[g2],
    ensures
        chosen@.len() == if limit < gnames@.len() { limit as int } else { gnames@.len() as int },
        forall|a: int| 0 <= a < chosen@.len() ==> #[trigger] chosen@[a] < gnames@.len(),
        forall|a: int, b: int| 0 <= a < b < chosen@.len() ==> outranks(
            gcounts@[chosen@[a] as int] as int,
            gnames@[chosen@[a] as int]@,
            gcounts@[#[trigger] chosen@[b] as int] as int,
            gnames@[chosen@[b] as int]@,
        ) && #[trigger] chosen@[a] != chosen@[b],
        forall|a: int, g: int| 0 <= a < chosen@.len() && 0 <= g < gnames@.len() && (forall|b: int|
            0 <= b < chosen@.len() ==> chosen@[b] != g) ==> outranks(
            gcounts@[#[trigger] chosen@[a] as int] as int,
            gnames@[chosen@[a] as int]@,
            gcounts@[g] as int,
            #[trigger] gnames@[g]@,
        ),
        chosen@.len() == gnames@.len() ==> chosen_total(gcounts@, chosen@) == total(gcounts@),
        chosen@.len() == gnames@.len() ==> forall|g: int| 0 <= g < gnames@.len() ==> #[trigger] picks(chosen@, g),
        chosen@.len() < gnames@.len() ==> exists|g: int| 0 <= g < gnames@.len() && !#[trigger] picks(chosen@, g),
{
    let count = gnames.len();
    let ghost ns = views(gnames@);
    let ghost cs = gcounts@;
    let mut used: Vec<bool> = Vec::new();
    let mut u: usize = 0;
    while u < count
        invariant
            u <= count,
            used@.len() == u,
            forall|g: int| 0 <= g < u ==> !used@[g],
        decreases count - u,
    {
        used.push(false);
        u = u + 1;
    }
    proof {
        lemma_none_used(cs, used@);
    }
    let mut chosen: Vec<usize> = Vec::new();
    while chosen.len() < limit && chosen.len() < count
        invariant
            count == gnames@.len() == gcounts@.len() == used@.len(),
            ns == views(gnames@),
            cs == gcounts@,
            forall|g1: int, g2: int| 0 <= g1 < g2 < count ==> #[trigger] ns[g1] != #[trigger] ns[g2],
            chosen@.len() <= count,
            chosen@.len() <= limit,
            unused_count(used@) == count - chosen@.len(),
            chosen_total(cs, chosen@) + unused_total(cs, used@) == total(cs),
            forall|a: int| 0 <= a < chosen@.len() ==> #[trigger] chosen@[a] < count && used@[chosen@[a] as int],
            forall|g: int| 0 <= g < count && #[trigger] used@[g] ==> exists|a: int| 0 <= a < chosen@.len() && chosen@[a] == g,
            forall|a: int, b: int| 0 <= a < b < chosen@.len() ==> outranks(
                cs[chosen@[a] as int] as int,
                ns[chosen@[a] as int],
                cs[#[trigger] chosen@[b] as int] as int,
                ns[chosen@[b] as int],
            ) && #[trigger] chosen@[a] != chosen@[b],
            forall|a: int, g: int| 0 <= a < chosen@.len() && 0 <= g < count && !used@[g] ==> outranks(
                cs[#[trigger] chosen@[a] as int] as int,
                ns[chosen@[a] as int],
                cs[g] as int,
                #[trigger] ns[g],
            ),
        decreases count - chosen@.len(),
    {
        proof {
            lemma_unused_exists(used@);
        }
        let mut best: Option<usize> = None;
        let mut g: usize = 0;
        while g < count
            invariant
                count == gnames@.len() == gcounts@.len() == used@.len(),
                ns == views(gnames@),
                cs == gcounts@,
                forall|g1: int, g2: int| 0 <= g1 < g2 < count ==> #[trigger] ns[g1] != #[trigger] ns[g2],
                g <= count,
                best matches Some(b) ==> b < g && !used@[b as int] && forall|h: int| 0 <= h < g && !used@[h] && h != b ==> outranks(
                    cs[b as int] as int,
                    ns[b as int],
                    cs[h] as int,
                    #[trigger] ns[h],
                ),
                best is None ==> forall|h: int| 0 <= h < g ==> #[trigger] used@[h],
            decreases count - g,
        {
            if !used[g] {
                let better = match best {
                    None => true,
                    Some(b) => gcounts[g] > gcounts[b] || (gcounts[g] == gcounts[b] && chars_less(&gnames[g], &gnames[b])),
                };
                if better {
                    proof {
                        if let Some(b) = best {
                            assert forall|h: int| 0 <= h < g + 1 && !used@[h] && h != g implies outranks(
                                cs[g as int] as int,
                                ns[g as int],
                                cs[h] as int,
                                #[trigger] ns[h],
                            ) by {
                                if h != b {
                                    lemma_outranks_transitive(cs[g as int] as int, ns[g as int], cs[b as int] as int, ns[b as int], cs[h] as int, ns[h]);
                                }
                            }
                        }
                    }
                    best = Some(g);
                } else {
                    proof {
                        if let Some(b) = best {
                            assert(ns[g as int] != ns[b as int]);
                            lemma_outranks_total(cs[g as int] as int, ns[g as int], cs[b as int] as int, ns[b as int]);
                        }
                    }
                }
            }
            g = g + 1;
        }
        let b = match best {
            Some(b) => b,
            None => {
                proof {
                    let h = choose|h: int| 0 <= h < used@.len() && !used@[h];
                    assert(used@[h]);
                }
                0
            },
        };
        let ghost old_used = used@;
        let ghost old_chosen = chosen@;
        proof {
            lemma_use_one(cs, used@, b as int);
        }
        used.set(b, true);
        chosen.push(b);
        proof {
            assert(chosen@.drop_last() =~= old_chosen);
            assert forall|g2: int| 0 <= g2 < count && #[trigger] used@[g2] implies exists|a: int| 0 <= a < chosen@.len() && chosen@[a] == g2 by {
                if g2 == b {
                    assert(chosen@[old_chosen.len() as int] == g2);
                } else {
                    assert(old_used[g2]);
                    let a = choose|a: int| 0 <= a < old_chosen.len() && old_chosen[a] == g2;
                    assert(chosen@[a] == g2);
                }
            }
            assert forall|a: int, c: int| 0 <= a < c < chosen@.len() implies outranks(
                cs[chosen@[a] as int] as int,
                ns[chosen@[a] as int],
                cs[#[trigger] chosen@[c] as int] as int,
                ns[chosen@[c] as int],
            ) && #[trigger] chosen@[a] != chosen@[c] by {
                if c == old_chosen.len() {
                    assert(chosen@[a] == old_chosen[a]);
                    assert(!old_used[b as int]);
                    assert(old_used[old_chosen[a] as int]);
                } else {
                    assert(chosen@[a] == old_chosen[a] && chosen@[c] == old_chosen[c]);
                }
            }
            assert forall|a: int, g2: int| 0 <= a < chosen@.len() && 0 <= g2 < count && !used@[g2] implies outranks(
                cs[#[trigger] chosen@[a] as int] as int,
                ns[chosen@[a] as int],
                cs[g2] as int,
                #[trigger] ns[g2],
            ) by {
                assert(g2 != b);
                assert(!old_used[g2]);
                if a < old_chosen.len() {
                    assert(chosen@[a] == old_chosen[a]);
                }
            }
        }
    }
    proof {
        if chosen@.len() == count {
            lemma_all_used(cs, used@);
            assert forall|g: int| 0 <= g < gnames@.len() implies #[trigger] picks(chosen@, g) by {
                assert(used@[g]);
            }
        } else {
            lemma_unused_exists(used@);
            let g = choose|g: int| 0 <= g < used@.len() && !used@[g];
            assert forall|b: int| 0 <= b < chosen@.len() implies #[trigger] chosen@[b] != g by {
                assert(used@[chosen@[b] as int]);
            }
            assert(!picks(chosen@, g));
        }
        assert forall|a: int, g: int| 0 <= a < chosen@.len() && 0 <= g < gnames@.len() && (forall|c: int|
            0 <= c < chosen@.len() ==> chosen@[c] != g) implies outranks(
            gcounts@[#[trigger] chosen@[a] as int] as int,
            gnames@[chosen@[a] as int]@,
            gcounts@[g] as int,
            #[trigger] gnames@[g]@,
        ) by {
            if used@[g] {
                let c = choose|c: int| 0 <= c < chosen@.len() && chosen@[c] == g;
            }
            assert(ns[g] == gnames@[g]@);
            assert(ns[chosen@[a] as int] == gnames@[chosen@[a] as int]@);
        }
        assert forall|a: int, c: int| 0 <= a < c < chosen@.len() implies outranks(
            gcounts@[chosen@[a] as int] as int,
            gnames@[chosen@[a] as int]@,
            gcounts@[#[trigger] chosen@[c] as int] as int,
            gnames@[chosen@[c] as int]@,
        ) && #[trigger] chosen@[a] != chosen@[c] by {
            assert(ns[chosen@[a] as int] == gnames@[chosen@[a] as int]@);
            assert(ns[chosen@[c] as int] == gnames@[chosen@[c] as int]@);
        }
    }
    chosen
}


/// The class name of each blocking entry.
pub open spec fn class_names(blocking: Seq<String>) -> Seq<Seq<char>> {
    blocking.map_values(|s: String| first_word(s@))
}

/// `k` is the first entry whose class is `name`.
pub open spec fn first_of_class(names: Seq<Seq<char>>, name: Seq<char>, k: int) -> bool {
    &&& 0 <= k < names.len()
    &&& names[k] == name
    &&& forall|j: int| 0 <= j < k ==> #[trigger] names[j] != name
}

/// `c` is a class of the report: its name occurs, its count is how many entries it names,
/// and its example is the first of them.
pub open spec fn is_class_of(blocking: Seq<String>, c: LossClass) -> bool {
    let names = class_names(blocking);
    &&& c.count == count_in(names, c.name@)
    &&& exists|k: int| first_of_class(names, c.name@, k) && c.example@ == #[trigger] blocking[k]@
}

/// The sum of the counts of a list of classes.
pub open spec fn class_total(classes: Seq<LossClass>) -> nat
    decreases classes.len(),
{
    if classes.len() == 0 {
        0
    } else {
        class_total(classes.drop_last()) + classes.last().count as nat
    }
}

/// Whether the class named `name` is listed.
pub open spec fn lists(classes: Seq<LossClass>, name: Seq<char>) -> bool {
    exists|i: int| 0 <= i < classes.len() && #[trigger] classes[i].name@ == name
}

/// How many distinct classes a report's blocking entries fall into.
pub open spec fn class_count(blocking: Seq<String>) -> nat {
    class_names(blocking).to_set().len()
}

/// The names of a list of classes.
pub open spec fn listed_names(classes: Seq<LossClass>) -> Seq<Seq<char>> {
    classes.map_values(|c: LossClass| c.name@)
}

/// Classes of a report with distinct names are no more than the report's classes; exactly as
/// many when every class is listed, and fewer when one is left out.
proof fn lemma_listed_count(blocking: Seq<String>, r: Seq<LossClass>)
    requires
        forall|i: int| 0 <= i < r.len() ==> is_class_of(blocking, #[trigger] r[i]),
        forall|i: int, j: int| 0 <= i < j < r.len() ==> #[trigger] r[i].name@ != #[trigger] r[j].name@,
    ensures
        r.len() <= class_count(blocking),
        (forall|k: int| 0 <= k < blocking.len() ==> lists(r, #[trigger] class_names(blocking)[k])) ==> r.len()
            == class_count(blocking),
        (exists|k: int| 0 <= k < blocking.len() && !lists(r, #[trigger] class_names(blocking)[k])) ==> r.len()
            < class_count(blocking),
{
    broadcast use vstd::seq_lib::seq_to_set_is_finite;
    let names = class_names(blocking);
    let rn = listed_names(r);
    assert(rn.no_duplicates()) by {
        assert forall|i: int, j: int| 0 <= i < rn.len() && 0 <= j < rn.len() && i != j implies rn[i] != rn[j] by {
            if i < j {
                assert(r[i].name@ != r[j].name@);
            } else {
                assert(r[j].name@ != r[i].name@);
            }
        }
    }
    rn.unique_seq_to_set();
    let all = names.to_set();
    let mine = rn.to_set();
    assert(mine.subset_of(all)) by {
        assert forall|x: Seq<char>| mine.contains(x) implies all.contains(x) by {
            let i = choose|i: int| 0 <= i < rn.len() && rn[i] == x;
            assert(is_class_of(blocking, r[i]));
            let k = choose|k: int| first_of_class(names, r[i].name@, k) && r[i].example@ == #[trigger] blocking[k]@;
            assert(names[k] == x);
        }
    }
    vstd::set_lib::lemma_len_subset(mine, all);
    if forall|k: int| 0 <= k < blocking.len() ==> lists(r, #[trigger] class_names(blocking)[k]) {
        assert(all.subset_of(mine)) by {
            assert forall|x: Seq<char>| all.contains(x) implies mine.contains(x) by {
                let k = choose|k: int| 0 <= k < names.len() && names[k] == x;
                assert(lists(r, names[k]));
                let i = choose|i: int| 0 <= i < r.len() && #[trigger] r[i].name@ == names[k];
                assert(rn[i] == x);
            }
        }
        vstd::set_lib::lemma_len_subset(all, mine);
    }
    if exists|k: int| 0 <= k < blocking.len() && !lists(r, #[trigger] class_names(blocking)[k]) {
        let k = choose|k: int| 0 <= k < blocking.len() && !lists(r, #[trigger] class_names(blocking)[k]);
        let u = names[k];
        assert(all.contains(u));
        assert(mine.subset_of(all.remove(u))) by {
            assert forall|x: Seq<char>| mine.contains(x) implies all.remove(u).contains(x) by {
                let i = choose|i: int| 0 <= i < rn.len() && rn[i] == x;
                if x == u {
                    assert(r[i].name@ == u);
                    assert(lists(r, u));
                }
            }
        }
        vstd::set_lib::lemma_len_subset(mine, all.remove(u));
    }
}

/// Whether `r` is the list of the `limit` biggest loss classes of a report, bigger first and
/// ties by name: as many as there are classes, up to `limit`; each a class of the report; in
/// strict rank order; and every class left out ranked below every class listed.
pub open spec fn ranked_classes(blocking: Seq<String>, limit: nat, r: Seq<LossClass>) -> bool {
    &&& r.len() == (if limit < class_count(blocking) { limit } else { class_count(blocking) })
    &&& forall|i: int| 0 <= i < r.len() ==> is_class_of(blocking, #[trigger] r[i])
    &&& forall|i: int, j: int| 0 <= i < j < r.len() ==> outranks(
        r[i].count as int,
        r[i].name@,
        #[trigger] r[j].count as int,
        r[j].name@,
    ) && #[trigger] r[i].name@ != r[j].name@
    &&& forall|k: int| 0 <= k < blocking.len() && !lists(r, #[trigger] class_names(blocking)[k]) ==> forall|i: int|
        0 <= i < r.len() ==> outranks(
        #[trigger] r[i].count as int,
        r[i].name@,
        count_in(class_names(blocking), class_names(blocking)[k]) as int,
        class_names(blocking)[k],
    )
}

/// A class as texts and a count: its name, how many entries it names, and its example.
pub open spec fn class_view(c: LossClass) -> (Seq<char>, u64, Seq<char>) {
    (c.name@, c.count, c.example@)
}

proof fn lemma_outranks_asymmetric(c1: int, n1: Seq<char>, c2: int, n2: Seq<char>)
    requires
        outranks(c1, n1, c2, n2),
    ensures
        !outranks(c2, n2, c1, n1),
{
    if c1 == c2 {
        lemma_lex_asymmetric(n1, n2);
    }
}

/// A name one ranked list lists, the other lists too.
proof fn lemma_ranked_lists_same(blocking: Seq<String>, limit: nat, a: Seq<LossClass>, b: Seq<LossClass>, i: int)
    requires
        ranked_classes(blocking, limit, a),
        ranked_classes(blocking, limit, b),
        0 <= i < a.len(),
    ensures
        lists(b, a[i].name@),
{
    broadcast use vstd::seq_lib::seq_to_set_is_finite;
    let names = class_names(blocking);
    let x = a[i].name@;
    if !lists(b, x) {
        assert(is_class_of(blocking, a[i]));
        let k = choose|k: int| first_of_class(names, x, k) && a[i].example@ == #[trigger] blocking[k]@;
        assert(names[k] == x);
        assert(!lists(b, class_names(blocking)[k]));
        let an = listed_names(a);
        let bn = listed_names(b);
        assert(an.no_duplicates()) by {
            assert forall|p: int, q: int| 0 <= p < an.len() && 0 <= q < an.len() && p != q implies an[p] != an[q] by {
                if p < q {
                    assert(a[p].name@ != a[q].name@);
                } else {
                    assert(a[q].name@ != a[p].name@);
                }
            }
        }
        assert(bn.no_duplicates()) by {
            assert forall|p: int, q: int| 0 <= p < bn.len() && 0 <= q < bn.len() && p != q implies bn[p] != bn[q] by {
                if p < q {
                    assert(b[p].name@ != b[q].name@);
                } else {
                    assert(b[q].name@ != b[p].name@);
                }
            }
        }
        an.unique_seq_to_set();
        bn.unique_seq_to_set();
        assert(bn.to_set().subset_of(an.to_set().remove(x))) by {
            assert forall|y: Seq<char>| bn.to_set().contains(y) implies an.to_set().remove(x).contains(y) by {
                let j = choose|j: int| 0 <= j < bn.len() && bn[j] == y;
                assert(b[j].name@ == y);
                assert(outranks(b[j].count as int, y, count_in(names, x) as int, x));
                if y == x {
                    assert(lists(b, x));
                }
                if !lists(a, y) {
                    assert(is_class_of(blocking, b[j]));
                    let kb = choose|kb: int| first_of_class(names, y, kb) && b[j].example@ == #[trigger] blocking[kb]@;
                    assert(names[kb] == y);
                    assert(!lists(a, class_names(blocking)[kb]));
                    assert(outranks(a[i].count as int, x, count_in(names, y) as int, y));
                    assert(b[j].count == count_in(names, y));
                    assert(a[i].count == count_in(names, x));
                    lemma_outranks_asymmetric(count_in(names, x) as int, x, count_in(names, y) as int, y);
                }
                let m = choose|m: int| 0 <= m < a.len() && #[trigger] a[m].name@ == y;
                assert(an[m] == y);
            }
        }
        assert(an.to_set().contains(x)) by {
            assert(an[i] == x);
        }
        vstd::set_lib::lemma_len_subset(bn.to_set(), an.to_set().remove(x));
    }
}

/// Two ranked lists of the same report agree on their first `n` names.
proof fn lemma_ranked_prefix(blocking: Seq<String>, limit: nat, a: Seq<LossClass>, b: Seq<LossClass>, n: int)
    requires
        ranked_classes(blocking, limit, a),
        ranked_classes(blocking, limit, b),
        0 <= n <= a.len(),
    ensures
        forall|m: int| 0 <= m < n ==> #[trigger] a[m].name@ == b[m].name@,
    decreases n,
{
    if n > 0 {
        let i = n - 1;
        lemma_ranked_prefix(blocking, limit, a, b, i);
        lemma_ranked_lists_same(blocking, limit, a, b, i);
        let j = choose|j: int| 0 <= j < b.len() && #[trigger] b[j].name@ == a[i].name@;
        if j < i {
            assert(a[j].name@ == b[j].name@);
            assert(a[j].name@ != a[i].name@);
        }
        if j > i {
            lemma_ranked_lists_same(blocking, limit, b, a, i);
            let m = choose|m: int| 0 <= m < a.len() && #[trigger] a[m].name@ == b[i].name@;
            if m < i {
                assert(a[m].name@ == b[m].name@);
                assert(b[m].name@ != b[i].name@);
            } else if m > i {
                assert(outranks(a[i].count as int, a[i].name@, a[m].count as int, a[m].name@));
                assert(outranks(b[i].count as int, b[i].name@, b[j].count as int, b[j].name@));
                assert(is_class_of(blocking, a[i]) && is_class_of(blocking, b[j]));
                assert(is_class_of(blocking, a[m]) && is_class_of(blocking, b[i]));
                lemma_outranks_asymmetric(a[i].count as int, a[i].name@, a[m].count as int, a[m].name@);
            } else {
                assert(b[i].name@ == a[i].name@);
                assert(b[i].name@ != b[j].name@);
            }
        }
    }
}

/// The same report always produces the same list: two lists that are each the `limit`
/// biggest classes of a report, in rank order, are the same list.
pub proof fn lemma_ranked_classes_unique(blocking: Seq<String>, limit: nat, a: Seq<LossClass>, b: Seq<LossClass>)
    requires
        ranked_classes(blocking, limit, a),
        ranked_classes(blocking, limit, b),
    ensures
        a.map_values(|c: LossClass| class_view(c)) == b.map_values(|c: LossClass| class_view(c)),
{
    let names = class_names(blocking);
    lemma_ranked_prefix(blocking, limit, a, b, a.len() as int);
    assert forall|i: int| 0 <= i < a.len() implies #[trigger] class_view(a[i]) == class_view(b[i]) by {
        assert(a[i].name@ == b[i].name@);
        assert(is_class_of(blocking, a[i]) && is_class_of(blocking, b[i]));
        let ka = choose|k: int| first_of_class(names, a[i].name@, k) && a[i].example@ == #[trigger] blocking[k]@;
        let kb = choose|k: int| first_of_class(names, b[i].name@, k) && b[i].example@ == #[trigger] blocking[k]@;
        if ka < kb {
            assert(names[ka] == b[i].name@);
        } else if kb < ka {
            assert(names[kb] == a[i].name@);
        }
    }
    assert(a.map_values(|c: LossClass| class_view(c)) =~= b.map_values(|c: LossClass| class_view(c)));
}

/// The biggest classes of loss, counted from the subjects of the binding's blocking entries:
/// each class named by the first word of its entries' subjects, with how many entries it
/// names and the first of them as its example; bigger classes first, ties broken by name so
/// the same report always produces the same list; at most `limit` of them.
#[verifier::rlimit(80)]
#[verifier::spinoff_prover]
pub fn loss_classes(blocking: &[String], limit: usize) -> (r: Vec<LossClass>)
    requires
        blocking@.len() < u64::MAX,
    ensures
        r@.len() <= limit,
        forall|i: int| 0 <= i < r@.len() ==> is_class_of(blocking@, #[trigger] r@[i]),
        forall|i: int, j: int| 0 <= i < j < r@.len() ==> outranks(
            r@[i].count as int,
            r@[i].name@,
            #[trigger] r@[j].count as int,
            r@[j].name@,
        ) && #[trigger] r@[i].name@ != r@[j].name@,
        forall|k: int| 0 <= k < blocking@.len() && !lists(r@, #[trigger] class_names(blocking@)[k]) ==> r@.len()
            == limit && forall|i: int| 0 <= i < r@.len() ==> outranks(
            #[trigger] r@[i].count as int,
            r@[i].name@,
            count_in(class_names(blocking@), class_names(blocking@)[k]) as int,
            class_names(blocking@)[k],
        ),
        (forall|k: int| 0 <= k < blocking@.len() ==> lists(r@, #[trigger] class_names(blocking@)[k]))
            ==> class_total(r@) == blocking@.len(),
        r@.len() == if limit < class_count(blocking@) { limit as nat } else { class_count(blocking@) },
        class_count(blocking@) <= limit ==> (forall|k: int| 0 <= k < blocking@.len() ==> lists(r@, #[trigger] class_names(blocking@)[k]))
            && class_total(r@) == blocking@.len(),
        ranked_classes(blocking@, limit as nat, r@),
{
    let ghost names = class_names(blocking@);
    let mut words: Vec<Vec<char>> = Vec::new();
    let mut i: usize = 0;
    while i < blocking.len()
        invariant
            names == class_names(blocking@),
            i <= blocking@.len(),
            views(words@) == names.take(i as int),
        decreases blocking@.len() - i,
    {
        let w = first_word_of(blocking[i].as_str());
        let ghost wv = w@;
        let ghost before = words@;
        words.push(w);
        proof {
            assert(names[i as int] == first_word(blocking@[i as int]@));
            assert(wv == names[i as int]);
            assert(words@ == before.push(w));
            assert(views(words@) =~= views(before).push(wv));
            assert(views(words@) =~= names.take(i + 1));
        }
        i = i + 1;
    }
    proof {
        assert(names.take(i as int) =~= names);
    }
    let (gnames, gcounts, gfirst) = group_names(&words);
    let ghost ns = views(gnames@);
    let chosen = select_top(&gnames, &gcounts, limit);
    let mut out: Vec<LossClass> = Vec::new();
    let mut a: usize = 0;
    while a < chosen.len()
        invariant
            names == class_names(blocking@),
            groups_wf(names, names.len() as int, ns, gcounts@, gfirst@),
            ns == views(gnames@),
            a <= chosen@.len(),
            out@.len() == a,
            forall|b: int| 0 <= b < chosen@.len() ==> #[trigger] chosen@[b] < gnames@.len(),
            forall|b: int| 0 <= b < a ==> (#[trigger] out@[b]).name@ == ns[chosen@[b] as int] && out@[b].count
                == gcounts@[chosen@[b] as int] && out@[b].example@ == blocking@[gfirst@[chosen@[b] as int] as int]@,
            class_total(out@) == chosen_total(gcounts@, chosen@.take(a as int)),
        decreases chosen@.len() - a,
    {
        let c = chosen[a];
        let name = string_of(&gnames[c], 0, gnames[c].len());
        let example = blocking[gfirst[c]].clone();
        let ghost before = out@;
        out.push(LossClass { name, count: gcounts[c], example });
        proof {
            assert(gnames@[c as int]@.subrange(0, gnames@[c as int]@.len() as int) =~= gnames@[c as int]@);
            assert(out@.drop_last() =~= before);
            assert(chosen@.take(a + 1).drop_last() =~= chosen@.take(a as int));
        }
        a = a + 1;
    }
    proof {
        assert(chosen@.take(a as int) =~= chosen@);
        assert forall|b: int| 0 <= b < out@.len() implies is_class_of(blocking@, #[trigger] out@[b]) by {
            let g = chosen@[b] as int;
            let k = gfirst@[g] as int;
            assert(first_of_class(names, out@[b].name@, k));
            assert(names.take(names.len() as int) =~= names);
        }
        assert forall|b: int, c: int| 0 <= b < c < out@.len() implies outranks(
            out@[b].count as int,
            out@[b].name@,
            #[trigger] out@[c].count as int,
            out@[c].name@,
        ) && #[trigger] out@[b].name@ != out@[c].name@ by {
            let gb = chosen@[b];
            let gc = chosen@[c];
            assert(gb != gc);
            if gb < gc {
                assert(ns[gb as int] != ns[gc as int]);
            } else {
                assert(ns[gc as int] != ns[gb as int]);
            }
        }
        assert forall|k: int| 0 <= k < blocking@.len() && !lists(out@, #[trigger] class_names(blocking@)[k]) implies out@.len()
            == limit && forall|i: int| 0 <= i < out@.len() ==> outranks(
            #[trigger] out@[i].count as int,
            out@[i].name@,
            count_in(class_names(blocking@), class_names(blocking@)[k]) as int,
            class_names(blocking@)[k],
        ) by {
            let g = choose|g: int| 0 <= g < ns.len() && ns[g] == #[trigger] names[k];
            assert forall|b: int| 0 <= b < chosen@.len() implies #[trigger] chosen@[b] != g by {
                if chosen@[b] == g {
                    assert(out@[b].name@ == names[k]);
                }
            }
            if out@.len() < limit {
                assert(chosen@.len() == gnames@.len());
                assert(picks(chosen@, g));
                let b = choose|b: int| 0 <= b < chosen@.len() && #[trigger] chosen@[b] == g;
                assert(chosen@[b] != g);
            }
            assert(names.take(names.len() as int) =~= names);
        }
        if forall|k: int| 0 <= k < blocking@.len() ==> lists(out@, #[trigger] class_names(blocking@)[k]) {
            if chosen@.len() < gnames@.len() {
                let g = choose|g: int| 0 <= g < gnames@.len() && !#[trigger] picks(chosen@, g);
                let k = gfirst@[g] as int;
                assert(lists(out@, names[k]));
                let b = choose|b: int| 0 <= b < out@.len() && #[trigger] out@[b].name@ == names[k];
                let gb = chosen@[b] as int;
                if gb < g {
                    assert(ns[gb] != ns[g]);
                } else if g < gb {
                    assert(ns[g] != ns[gb]);
                }
                assert(chosen@[b] != g);
            }
        }
    }
    proof {
        lemma_listed_count(blocking@, out@);
    }
    out
}

} // verus!
