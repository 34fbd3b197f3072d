//! The rows of the variant impact panel, for comparing two versions of a platform model: the
//! subsystem references of the two sides, keyed by role, and each platform requirement's
//! coverage on each side.
//!
//! Coverage itself is the engine's verdict over each version's own graph; the panel lines the
//! two verdicts up and never recomputes them.

use vstd::prelude::*;
use crate::composition::last_requirement;
use crate::order::{chars_less, lemma_lex_asymmetric, lemma_lex_irreflexive, lemma_lex_total, lemma_lex_transitive, lex_lt};
use crate::compare::{ImpactRequirement, ImpactState};
use crate::sections::{is_requirement, Requirement};
use crate::text::{chars_of, texts, trim_text, trimmed};

verus! {

/// A subsystem a platform model integrates: which project, at which pinned revision, in
/// which role.
pub struct SubsystemReference {
    pub project: String,
    pub revision: String,
    pub role: String,
}

/// One role's row of the references table.
pub struct ImpactRef {
    pub role: String,
    /// The project and revision the from side pins for the role, if it has one.
    pub from: Option<(String, String)>,
    /// The project and revision the to side pins for the role, if it has one.
    pub to: Option<(String, String)>,
    /// Whether the two sides differ for the role, an added or removed role included.
    pub changed: bool,
}

/// The pin a list of references gives a role: the last reference in that role, as a map keyed
/// by role keeps it.
pub open spec fn pin_of(refs: Seq<SubsystemReference>, role: Seq<char>) -> Option<(Seq<char>, Seq<char>)>
    decreases refs.len(),
{
    if refs.len() == 0 {
        None
    } else if refs.last().role@ == role {
        Some((refs.last().project@, refs.last().revision@))
    } else {
        pin_of(refs.drop_last(), role)
    }
}

/// Whether some reference is in this role.
pub open spec fn has_role(refs: Seq<SubsystemReference>, role: Seq<char>) -> bool {
    exists|i: int| 0 <= i < refs.len() && #[trigger] refs[i].role@ == role
}

/// A pin's texts.
pub open spec fn pin_view(p: Option<(String, String)>) -> Option<(Seq<char>, Seq<char>)> {
    match p {
        Some(x) => Some((x.0@, x.1@)),
        None => None,
    }
}

/// A row's texts: role, the two pins, and whether it changed.
pub open spec fn impact_ref_view(r: ImpactRef) -> (Seq<char>, Option<(Seq<char>, Seq<char>)>, Option<(Seq<char>, Seq<char>)>, bool) {
    (r.role@, pin_view(r.from), pin_view(r.to), r.changed)
}

/// The row for a role.
pub open spec fn ref_row(from: Seq<SubsystemReference>, to: Seq<SubsystemReference>, role: Seq<char>) -> (
    Seq<char>,
    Option<(Seq<char>, Seq<char>)>,
    Option<(Seq<char>, Seq<char>)>,
    bool,
) {
    (role, pin_of(from, role), pin_of(to, role), pin_of(from, role) != pin_of(to, role))
}

proof fn lemma_pin_of(refs: Seq<SubsystemReference>, role: Seq<char>)
    ensures
        pin_of(refs, role) is Some <==> has_role(refs, role),
    decreases refs.len(),
{
    if refs.len() > 0 {
        lemma_pin_of(refs.drop_last(), role);
        if has_role(refs, role) && refs.last().role@ != role {
            let i = choose|i: int| 0 <= i < refs.len() && #[trigger] refs[i].role@ == role;
            assert(refs.drop_last()[i].role@ == role);
        }
        if has_role(refs.drop_last(), role) {
            let i = choose|i: int| 0 <= i < refs.len() - 1 && #[trigger] refs.drop_last()[i].role@ == role;
            assert(refs[i].role@ == role);
        }
    }
}

/// The pin for a role.
fn find_pin(refs: &Vec<SubsystemReference>, role: &String) -> (r: Option<(String, String)>)
    ensures
        pin_view(r) == pin_of(refs@, role@),
{
    let mut i = refs.len();
    proof {
        assert(refs@.take(i as int) =~= refs@);
    }
    while i > 0
        invariant
            i <= refs@.len(),
            pin_of(refs@, role@) == pin_of(refs@.take(i as int), role@),
        decreases i,
    {
        proof {
            assert(refs@.take(i as int).drop_last() =~= refs@.take(i - 1));
            assert(refs@.take(i as int).last() == refs@[i - 1]);
        }
        if refs[i - 1].role == *role {
            return Some((refs[i - 1].project.clone(), refs[i - 1].revision.clone()));
        }
        i = i - 1;
    }
    None
}

/// Whether two pins are the same.
fn same_pin(a: &Option<(String, String)>, b: &Option<(String, String)>) -> (r: bool)
    ensures
        r == (pin_view(*a) == pin_view(*b)),
{
    match (a, b) {
        (Some(x), Some(y)) => x.0 == y.0 && x.1 == y.1,
        (None, None) => true,
        _ => false,
    }
}

/// The roles of the rows.
pub open spec fn roles_of(rows: Seq<ImpactRef>) -> Seq<Seq<char>> {
    rows.map_values(|x: ImpactRef| x.role@)
}

/// Whether texts are strictly increasing.
pub open spec fn increasing(s: Seq<Seq<char>>) -> bool {
    forall|i: int, j: int| 0 <= i < j < s.len() ==> lex_lt(s[i], s[j])
}

/// Adds a text to a strictly increasing list unless it is there already.
fn insert_sorted(list: &mut Vec<String>, x: &String)
    requires
        increasing(texts(old(list)@)),
    ensures
        increasing(texts(final(list)@)),
        forall|y: Seq<char>| #[trigger] texts(final(list)@).contains(y) <==> (texts(old(list)@).contains(y) || y == x@),
{
    let ghost o = texts(old(list)@);
    let xs = chars_of(x.as_str());
    let mut p: usize = 0;
    while p < list.len() && chars_less(&chars_of(list[p].as_str()), &xs)
        invariant
            list@ == old(list)@,
            o == texts(old(list)@),
            xs@ == x@,
            p <= list@.len(),
            forall|j: int| 0 <= j < p ==> lex_lt(#[trigger] o[j], x@),
        decreases list@.len() - p,
    {
        p = p + 1;
    }
    if p < list.len() && list[p] == *x {
        proof {
            assert(o[p as int] == x@);
        }
        return;
    }
    proof {
        if p < o.len() {
            lemma_lex_total(o[p as int], x@);
            assert(lex_lt(x@, o[p as int]));
        }
    }
    list.insert(p, x.clone());
    proof {
        let n = texts(list@);
        assert(n =~= o.insert(p as int, x@));
        assert forall|i: int, j: int| 0 <= i < j < n.len() implies lex_lt(n[i], n[j]) by {
            if j < p {
                assert(lex_lt(o[i], o[j]));
            } else if j == p {
                assert(lex_lt(o[i], x@));
            } else if i < p {
                assert(lex_lt(o[i], x@));
                if j - 1 == p {
                    lemma_lex_transitive(o[i], x@, o[p as int]);
                } else {
                    assert(lex_lt(x@, o[p as int]));
                    assert(lex_lt(o[p as int], o[j - 1]));
                    lemma_lex_transitive(x@, o[p as int], o[j - 1]);
                    lemma_lex_transitive(o[i], x@, o[j - 1]);
                }
            } else if i == p {
                if j - 1 > p {
                    assert(lex_lt(o[p as int], o[j - 1]));
                    lemma_lex_transitive(x@, o[p as int], o[j - 1]);
                }
            } else {
                assert(lex_lt(o[i - 1], o[j - 1]));
            }
        }
        assert forall|y: Seq<char>| #[trigger] n.contains(y) <==> (o.contains(y) || y == x@) by {
            if n.contains(y) {
                let k = choose|k: int| 0 <= k < n.len() && n[k] == y;
                if k < p {
                    assert(o[k] == y);
                } else if k > p {
                    assert(o[k - 1] == y);
                }
            }
            if o.contains(y) {
                let k = choose|k: int| 0 <= k < o.len() && o[k] == y;
                if k < p {
                    assert(n[k] == y);
                } else {
                    assert(n[k + 1] == y);
                }
            }
            if y == x@ {
                assert(n[p as int] == y);
            }
        }
    }
}

/// The roles of a list of references, added to a strictly increasing list.
fn add_roles(list: &mut Vec<String>, refs: &Vec<SubsystemReference>)
    requires
        increasing(texts(old(list)@)),
    ensures
        increasing(texts(final(list)@)),
        forall|y: Seq<char>| #[trigger] texts(final(list)@).contains(y) <==> (texts(old(list)@).contains(y) || has_role(refs@, y)),
{
    let ghost o = texts(old(list)@);
    let mut i: usize = 0;
    while i < refs.len()
        invariant
            o == texts(old(list)@),
            i <= refs@.len(),
            increasing(texts(list@)),
            forall|y: Seq<char>| #[trigger] texts(list@).contains(y) <==> (o.contains(y) || exists|k: int| 0 <= k < i && #[trigger] refs@[k].role@ == y),
        decreases refs@.len() - i,
    {
        insert_sorted(list, &refs[i].role);
        proof {
            assert forall|y: Seq<char>| #[trigger] texts(list@).contains(y) <==> (o.contains(y) || exists|k: int| 0 <= k < i + 1 && #[trigger] refs@[k].role@ == y) by {
                if y == refs@[i as int].role@ {
                    assert(exists|k: int| 0 <= k < i + 1 && #[trigger] refs@[k].role@ == y);
                }
                if exists|k: int| 0 <= k < i + 1 && #[trigger] refs@[k].role@ == y {
                    let k = choose|k: int| 0 <= k < i + 1 && #[trigger] refs@[k].role@ == y;
                    if k < i {
                        assert(exists|k2: int| 0 <= k2 < i && #[trigger] refs@[k2].role@ == y);
                    }
                }
            }
        }
        i = i + 1;
    }
}

/// The two sides' references as rows keyed by role, in role order. A role whose project or
/// revision differs is marked changed; a role present on only one side reads as a change too
/// (added or removed).
pub fn reference_rows(from: &Vec<SubsystemReference>, to: &Vec<SubsystemReference>) -> (r: Vec<ImpactRef>)
    ensures
        increasing(roles_of(r@)),
        forall|role: Seq<char>| #[trigger] roles_of(r@).contains(role) <==> (has_role(from@, role) || has_role(to@, role)),
        forall|i: int| 0 <= i < r@.len() ==> impact_ref_view(#[trigger] r@[i]) == ref_row(from@, to@, r@[i].role@),
{
    let mut roles: Vec<String> = Vec::new();
    add_roles(&mut roles, from);
    add_roles(&mut roles, to);
    let ghost rv = texts(roles@);
    let mut out: Vec<ImpactRef> = Vec::new();
    let mut i: usize = 0;
    while i < roles.len()
        invariant
            rv == texts(roles@),
            i <= roles@.len(),
            roles_of(out@) == rv.take(i as int),
            forall|k: int| 0 <= k < out@.len() ==> impact_ref_view(#[trigger] out@[k]) == ref_row(from@, to@, out@[k].role@),
        decreases roles@.len() - i,
    {
        let role = &roles[i];
        let f = find_pin(from, role);
        let t = find_pin(to, role);
        let changed = !same_pin(&f, &t);
        let ghost before = out@;
        out.push(ImpactRef { role: role.clone(), from: f, to: t, changed });
        proof {
            assert(rv.take(i + 1) =~= rv.take(i as int).push(rv[i as int]));
            assert(roles_of(out@) =~= roles_of(before).push(role@));
        }
        i = i + 1;
    }
    proof {
        assert(rv.take(i as int) =~= rv);
    }
    out
}

/// Each id's first occurrence, in order.
pub open spec fn first_ids(ids: Seq<Seq<char>>) -> Seq<Seq<char>>
    decreases ids.len(),
{
    if ids.len() == 0 {
        Seq::empty()
    } else if ids.drop_last().contains(ids.last()) {
        first_ids(ids.drop_last())
    } else {
        first_ids(ids.drop_last()).push(ids.last())
    }
}

/// A requirement's ids across both sides, from side first.
pub open spec fn requirement_ids(from: Seq<Requirement>, to: Seq<Requirement>) -> Seq<Seq<char>> {
    (from + to).map_values(|r: Requirement| r.id@)
}

/// The coverage state from whether each side satisfies the requirement.
pub open spec fn state_of(from_satisfied: bool, to_satisfied: bool) -> ImpactState {
    if from_satisfied && to_satisfied {
        ImpactState::Both
    } else if from_satisfied {
        ImpactState::FromOnly
    } else if to_satisfied {
        ImpactState::ToOnly
    } else {
        ImpactState::Neither
    }
}

/// The requirement a row shows: the to side's, else the from side's.
pub open spec fn shown_requirement(from: Seq<Requirement>, to: Seq<Requirement>, id: Seq<char>) -> Requirement {
    match last_requirement(to, id) {
        Some(r) => r,
        None => last_requirement(from, id).unwrap(),
    }
}

/// A requirement row's texts and state: the requirement's own id stands in for an empty or
/// blank requirement id. A requirement absent on one side is not satisfied there.
pub open spec fn requirement_row(
    from: Seq<Requirement>,
    from_uncovered: Seq<Seq<char>>,
    to: Seq<Requirement>,
    to_uncovered: Seq<Seq<char>>,
    id: Seq<char>,
) -> (Seq<char>, Seq<char>, ImpactState) {
    let shown = shown_requirement(from, to, id);
    (
        if trimmed(shown.req_id@).len() == 0 {
            shown.id@
        } else {
            shown.req_id@
        },
        shown.name@,
        state_of(
            is_requirement(from, id) && !from_uncovered.contains(id),
            is_requirement(to, id) && !to_uncovered.contains(id),
        ),
    )
}

/// A requirement row's texts and state.
pub open spec fn impact_requirement_view(r: ImpactRequirement) -> (Seq<char>, Seq<char>, ImpactState) {
    (r.req_id@, r.name@, r.state)
}

proof fn lemma_last_requirement(reqs: Seq<Requirement>, id: Seq<char>)
    ensures
        last_requirement(reqs, id) is Some <==> is_requirement(reqs, id),
        last_requirement(reqs, id) matches Some(r) ==> r.id@ == id,
    decreases reqs.len(),
{
    if reqs.len() > 0 {
        lemma_last_requirement(reqs.drop_last(), id);
        if is_requirement(reqs, id) && reqs.last().id@ != id {
            let i = choose|i: int| 0 <= i < reqs.len() && #[trigger] reqs[i].id@ == id;
            assert(reqs.drop_last()[i].id@ == id);
        }
        if is_requirement(reqs.drop_last(), id) {
            let i = choose|i: int| 0 <= i < reqs.len() - 1 && #[trigger] reqs.drop_last()[i].id@ == id;
            assert(reqs[i].id@ == id);
        }
    }
}

/// Whether a requirement with this id is on a side.
fn present(reqs: &Vec<Requirement>, id: &String) -> (r: Option<usize>)
    ensures
        match r {
            Some(i) => i < reqs@.len() && last_requirement(reqs@, id@) == Some(reqs@[i as int]),
            None => last_requirement(reqs@, id@) is None,
        },
{
    let mut i = reqs.len();
    proof {
        assert(reqs@.take(i as int) =~= reqs@);
    }
    while i > 0
        invariant
            i <= reqs@.len(),
            last_requirement(reqs@, id@) == last_requirement(reqs@.take(i as int), id@),
        decreases i,
    {
        proof {
            assert(reqs@.take(i as int).drop_last() =~= reqs@.take(i - 1));
            assert(reqs@.take(i as int).last() == reqs@[i - 1]);
        }
        if reqs[i - 1].id == *id {
            return Some(i - 1);
        }
        i = i - 1;
    }
    None
}

/// Whether a text is listed.
fn listed(v: &Vec<String>, x: &String) -> (r: bool)
    ensures
        r == texts(v@).contains(x@),
{
    let mut i: usize = 0;
    while i < v.len()
        invariant
            i <= v@.len(),
            forall|k: int| 0 <= k < i ==> v@[k]@ != x@,
        decreases v@.len() - i,
    {
        if v[i] == *x {
            proof {
                assert(texts(v@)[i as int] == x@);
            }
            return true;
        }
        i = i + 1;
    }
    proof {
        if texts(v@).contains(x@) {
            let k = choose|k: int| 0 <= k < v@.len() && texts(v@)[k] == x@;
            assert(v@[k]@ == x@);
        }
    }
    false
}

/// The row for one requirement id, on at least one side.
fn requirement_row_for(
    from: &Vec<Requirement>,
    from_uncovered: &Vec<String>,
    to: &Vec<Requirement>,
    to_uncovered: &Vec<String>,
    id: &String,
) -> (r: ImpactRequirement)
    requires
        is_requirement(from@, id@) || is_requirement(to@, id@),
    ensures
        impact_requirement_view(r) == requirement_row(
            from@,
            texts(from_uncovered@),
            to@,
            texts(to_uncovered@),
            id@,
        ),
{
    proof {
        lemma_last_requirement(from@, id@);
        lemma_last_requirement(to@, id@);
    }
    let in_from = present(from, id);
    let in_to = present(to, id);
    let from_satisfied = in_from.is_some() && !listed(from_uncovered, id);
    let to_satisfied = in_to.is_some() && !listed(to_uncovered, id);
    let state = if from_satisfied && to_satisfied {
        ImpactState::Both
    } else if from_satisfied {
        ImpactState::FromOnly
    } else if to_satisfied {
        ImpactState::ToOnly
    } else {
        ImpactState::Neither
    };
    let shown: &Requirement = match in_to {
        Some(k) => &to[k],
        None => match in_from {
            Some(k) => &from[k],
            None => {
                proof {
                    assert(false);
                }
                &to[0]
            },
        },
    };
    let blank = trim_text(shown.req_id.as_str()).as_str().is_empty();
    let req_id = if blank {
        shown.id.clone()
    } else {
        shown.req_id.clone()
    };
    ImpactRequirement { req_id, name: shown.name.clone(), state }
}

/// Each platform requirement, across both sides and each once, from side first, with its
/// coverage state on each side: satisfied there when the side has it and the engine does not
/// report it uncovered. The row shows the to side's requirement where it has one.
pub fn requirement_rows(
    from: &Vec<Requirement>,
    from_uncovered: &Vec<String>,
    to: &Vec<Requirement>,
    to_uncovered: &Vec<String>,
) -> (r: Vec<ImpactRequirement>)
    ensures
        r@.map_values(|x: ImpactRequirement| impact_requirement_view(x)) == first_ids(requirement_ids(from@, to@)).map_values(
            |id: Seq<char>| requirement_row(
                from@,
                texts(from_uncovered@),
                to@,
                texts(to_uncovered@),
                id,
            ),
        ),
{
    let ghost all = requirement_ids(from@, to@);
    let ghost fu = texts(from_uncovered@);
    let ghost tu = texts(to_uncovered@);
    let ghost row = |id: Seq<char>| requirement_row(from@, fu, to@, tu, id);
    let mut seen: Vec<String> = Vec::new();
    let mut out: Vec<ImpactRequirement> = Vec::new();
    let mut side: usize = 0;
    proof {
        assert(all.take(0) =~= Seq::<Seq<char>>::empty());
        assert(out@.map_values(|x: ImpactRequirement| impact_requirement_view(x)) =~= first_ids(all.take(0)).map_values(row));
    }
    while side < 2
        invariant
            all == requirement_ids(from@, to@),
            fu == texts(from_uncovered@),
            tu == texts(to_uncovered@),
            row == (|id: Seq<char>| requirement_row(from@, fu, to@, tu, id)),
            side <= 2,
            texts(seen@) == first_ids(all.take(if side == 0 { 0 } else if side == 1 { from@.len() as int } else { all.len() as int })),
            out@.map_values(|x: ImpactRequirement| impact_requirement_view(x)) == first_ids(all.take(if side == 0 { 0 } else if side == 1 { from@.len() as int } else { all.len() as int })).map_values(row),
        decreases 2 - side,
    {
        let list = if side == 0 { from } else { to };
        let ghost base: int = if side == 0 { 0 } else { from@.len() as int };
        let mut i: usize = 0;
        proof {
            assert(all.len() == from@.len() + to@.len());
        }
        while i < list.len()
            invariant
                all == requirement_ids(from@, to@),
                all.len() == from@.len() + to@.len(),
                fu == texts(from_uncovered@),
                tu == texts(to_uncovered@),
                row == (|id: Seq<char>| requirement_row(from@, fu, to@, tu, id)),
                side < 2,
                list@ == if side == 0 { from@ } else { to@ },
                base == if side == 0 { 0 } else { from@.len() as int },
                i <= list@.len(),
                texts(seen@) == first_ids(all.take(base + i)),
                out@.map_values(|x: ImpactRequirement| impact_requirement_view(x)) == first_ids(all.take(base + i)).map_values(row),
            decreases list@.len() - i,
        {
            let id = &list[i].id;
            let ghost prefix = all.take(base + i);
            proof {
                assert(all[base + i] == id@);
                assert(all.take(base + i + 1).drop_last() =~= prefix);
                assert(all.take(base + i + 1).last() == id@);
                lemma_first_ids_contains(prefix, id@);
            }
            if !listed(&seen, id) {
                proof {
                    if side == 0 {
                        assert(from@[i as int].id@ == id@);
                        assert(is_requirement(from@, id@));
                    } else {
                        assert(to@[i as int].id@ == id@);
                        assert(is_requirement(to@, id@));
                    }
                }
                let r = requirement_row_for(from, from_uncovered, to, to_uncovered, id);
                let ghost before_out = out@;
                let ghost before_seen = seen@;
                out.push(r);
                seen.push(id.clone());
                proof {
                    assert(out@.map_values(|x: ImpactRequirement| impact_requirement_view(x)) =~= before_out.map_values(
                        |x: ImpactRequirement| impact_requirement_view(x),
                    ).push(row(id@)));
                    assert(texts(seen@) =~= texts(before_seen).push(id@));
                    assert(first_ids(all.take(base + i + 1)) == first_ids(prefix).push(id@));
                    assert(first_ids(all.take(base + i + 1)).map_values(row) =~= first_ids(prefix).map_values(row).push(row(id@)));
                }
            }
            i = i + 1;
        }
        proof {
            assert(base + i == if side + 1 == 1 { from@.len() as int } else { all.len() as int });
        }
        side = side + 1;
    }
    proof {
        assert(all.take(all.len() as int) =~= all);
    }
    out
}

proof fn lemma_first_ids_contains(ids: Seq<Seq<char>>, x: Seq<char>)
    ensures
        first_ids(ids).contains(x) <==> ids.contains(x),
    decreases ids.len(),
{
    if ids.len() > 0 {
        let rest = ids.drop_last();
        lemma_first_ids_contains(rest, x);
        if ids.contains(x) && x != ids.last() {
            let k = choose|k: int| 0 <= k < ids.len() && ids[k] == x;
            assert(rest[k] == x);
        }
        if rest.contains(x) {
            let k = choose|k: int| 0 <= k < rest.len() && rest[k] == x;
            assert(ids[k] == x);
        }
        if !rest.contains(ids.last()) {
            let f = first_ids(rest).push(ids.last());
            if x == ids.last() {
                assert(f[f.len() - 1] == x);
            }
            if first_ids(rest).contains(x) {
                let k = choose|k: int| 0 <= k < first_ids(rest).len() && first_ids(rest)[k] == x;
                assert(f[k] == x);
            }
            if f.contains(x) && x != ids.last() {
                let k = choose|k: int| 0 <= k < f.len() && f[k] == x;
                assert(first_ids(rest)[k] == x);
            }
        } else if x == ids.last() {
            assert(ids[ids.len() - 1] == x);
        }
    }
}

proof fn lemma_first_ids_distinct(ids: Seq<Seq<char>>)
    ensures
        first_ids(ids).no_duplicates(),
    decreases ids.len(),
{
    if ids.len() > 0 {
        let rest = ids.drop_last();
        lemma_first_ids_distinct(rest);
        if !rest.contains(ids.last()) {
            lemma_first_ids_contains(rest, ids.last());
            let f = first_ids(rest).push(ids.last());
            assert forall|a: int, b: int| 0 <= a < f.len() && 0 <= b < f.len() && a != b implies f[a] != f[b] by {
                if a == f.len() - 1 {
                    assert(!first_ids(rest).contains(f[a]));
                    assert(first_ids(rest)[b] == f[b]);
                } else if b == f.len() - 1 {
                    assert(!first_ids(rest).contains(f[b]));
                    assert(first_ids(rest)[a] == f[a]);
                } else {
                    assert(first_ids(rest)[a] == f[a] && first_ids(rest)[b] == f[b]);
                }
            }
        }
    }
}

/// The impact panel lists every platform requirement of either side exactly once: a
/// requirement id has a row if and only if one of the two versions defines it, and no id has
/// two.
pub proof fn lemma_each_requirement_listed_once(from: Seq<Requirement>, to: Seq<Requirement>)
    ensures
        first_ids(requirement_ids(from, to)).no_duplicates(),
        forall|id: Seq<char>| #[trigger] first_ids(requirement_ids(from, to)).contains(id)
            <==> (is_requirement(from, id) || is_requirement(to, id)),
{
    let all = requirement_ids(from, to);
    lemma_first_ids_distinct(all);
    assert forall|id: Seq<char>| #[trigger] first_ids(all).contains(id) <==> (is_requirement(from, id) || is_requirement(to, id)) by {
        lemma_first_ids_contains(all, id);
        if all.contains(id) {
            let k = choose|k: int| 0 <= k < all.len() && all[k] == id;
            if k < from.len() {
                assert(from[k].id@ == id);
            } else {
                assert(to[k - from.len()].id@ == id);
            }
        }
        if is_requirement(from, id) {
            let k = choose|k: int| 0 <= k < from.len() && #[trigger] from[k].id@ == id;
            assert(all[k] == id);
        }
        if is_requirement(to, id) {
            let k = choose|k: int| 0 <= k < to.len() && #[trigger] to[k].id@ == id;
            assert(all[k + from.len()] == id);
        }
    }
}

} // verus!
