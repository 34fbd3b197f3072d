//! Applying an edit: the checks an edit must pass before anything is read, which element it
//! names, and the element as the edit leaves it.

use vstd::prelude::*;
use crate::access::Refusal;
use crate::edit::{attributes_texts, split_stereotypes, stereotype_list, Attribute, EditInput, Element};
use crate::text::{first_at, is_white_space, joined, lemma_first_at, split_on, texts, trim_end, trim_start, trim_text, trimmed};

verus! {

/// What an edit is answered with before any model is read, in this order: refused when the
/// caller may not write or reach the project, when the element id or the branch name fails the
/// name rule (`name_refusal`, the rule's own refusal), or when the commit message is blank.
pub open spec fn edit_gate_outcome(may_write: bool, may_reach: bool, name_refusal: Option<Refusal>, message: Seq<char>) -> Option<Seq<char>> {
    if !may_write {
        Some("write permission required"@)
    } else if !may_reach {
        Some("project not in scope"@)
    } else if name_refusal is Some {
        Some(crate::access::refusal_text(name_refusal->0))
    } else if trimmed(message).len() == 0 {
        Some("commit message must not be empty"@)
    } else {
        None
    }
}

/// The checks an edit passes before any model is read. Permission refusals are forbidden; a
/// name the rule refuses is refused as the rule refuses it (`name_refusal`, `None` when the
/// element id and the branch name both pass); a blank message is a bad request.
pub fn edit_gate(may_write: bool, may_reach: bool, name_refusal: Option<Refusal>, input: &EditInput) -> (r: Result<(), Refusal>)
    ensures
        match edit_gate_outcome(may_write, may_reach, name_refusal, input.message@) {
            None => r is Ok,
            Some(m) => r matches Err(refusal) && crate::access::refusal_text(refusal) == m,
        },
        !may_write || !may_reach ==> r matches Err(Refusal::Forbidden(_)),
        may_write && may_reach && name_refusal is Some ==> r == Err::<(), Refusal>(name_refusal->0),
        may_write && may_reach && name_refusal is None && trimmed(input.message@).len() == 0
            ==> r matches Err(Refusal::BadRequest(_)),
{
    if !may_write {
        return Err(Refusal::Forbidden(String::from_str("write permission required")));
    }
    if !may_reach {
        return Err(Refusal::Forbidden(String::from_str("project not in scope")));
    }
    match name_refusal {
        Some(refusal) => {
            return Err(refusal);
        },
        None => {},
    }
    if trim_text(input.message.as_str()).as_str().is_empty() {
        return Err(Refusal::BadRequest(String::from_str("commit message must not be empty")));
    }
    Ok(())
}

/// The position of the first element with this id.
pub open spec fn first_with_id(elements: Seq<Element>, id: Seq<char>) -> Option<int>
    decreases elements.len(),
{
    if elements.len() == 0 {
        None
    } else if elements[0].id@ == id {
        Some(0)
    } else {
        match first_with_id(elements.drop_first(), id) {
            Some(i) => Some(i + 1),
            None => None,
        }
    }
}

/// The element an edit names: the first with its id, across the lists that hold elements
/// (structure, then interfaces, then signals, given here as one list in that order).
pub fn find_element(elements: &Vec<Element>, id: &str) -> (r: Option<usize>)
    ensures
        match r {
            Some(i) => first_with_id(elements@, id@) == Some(i as int),
            None => first_with_id(elements@, id@) is None,
        },
{
    let target = String::from_str(id);
    let mut i: usize = 0;
    proof {
        assert(elements@.skip(0) =~= elements@);
    }
    while i < elements.len()
        invariant
            target@ == id@,
            i <= elements@.len(),
            forall|j: int| 0 <= j < i ==> elements@[j].id@ != id@,
            first_with_id(elements@, id@) == match first_with_id(elements@.skip(i as int), id@) {
                Some(k) => Some(k + i),
                None => None::<int>,
            },
        decreases elements@.len() - i,
    {
        proof {
            assert(elements@.skip(i as int)[0] == elements@[i as int]);
            assert(elements@.skip(i as int).drop_first() =~= elements@.skip(i + 1));
        }
        if elements[i].id == target {
            return Some(i);
        }
        i = i + 1;
    }
    proof {
        assert(elements@.skip(i as int) =~= Seq::<Element>::empty());
    }
    None
}

/// A copy of attribute rows.
fn copy_attributes(v: &Vec<Attribute>) -> (r: Vec<Attribute>)
    ensures
        attributes_texts(r@) == attributes_texts(v@),
{
    let mut out: Vec<Attribute> = Vec::new();
    let mut i: usize = 0;
    while i < v.len()
        invariant
            i <= v@.len(),
            attributes_texts(out@) == attributes_texts(v@).take(i as int),
        decreases v@.len() - i,
    {
        let a = &v[i];
        let ghost before = out@;
        out.push(Attribute { name: a.name.clone(), attr_type: a.attr_type.clone(), aggregation: a.aggregation.clone(), default: a.default.clone() });
        proof {
            assert(attributes_texts(out@) =~= attributes_texts(before).push(crate::edit::attribute_texts(v@[i as int])));
            assert(attributes_texts(v@).take(i + 1) =~= attributes_texts(v@).take(i as int).push(crate::edit::attribute_texts(v@[i as int])));
        }
        i = i + 1;
    }
    proof {
        assert(attributes_texts(v@).take(i as int) =~= attributes_texts(v@));
    }
    out
}

/// The element as the edit leaves it: its id, name, documentation and attributes as
/// submitted, and its stereotypes split from the submitted list.
pub fn apply_edit(element: &mut Element, input: &EditInput)
    ensures
        final(element).id@ == input.id@,
        final(element).name@ == input.name@,
        final(element).documentation@ == input.documentation@,
        texts(final(element).stereotypes@) == stereotype_list(input.stereotypes@),
        attributes_texts(final(element).attributes@) == attributes_texts(input.attributes@),
{
    element.id = input.id.clone();
    element.name = input.name.clone();
    element.documentation = input.documentation.clone();
    element.stereotypes = split_stereotypes(input.stereotypes.as_str());
    element.attributes = copy_attributes(&input.attributes);
}

/// Whether a stereotype survives the form as it is: not blank, no comma, no white space at
/// either end.
pub open spec fn plain_stereotype(s: Seq<char>) -> bool {
    &&& s.len() > 0
    &&& !s.contains(',')
    &&& trimmed(s) == s
}

proof fn lemma_split_no_sep(b: Seq<char>)
    requires
        !b.contains(','),
    ensures
        split_on(b, ',') == seq![b],
{
    lemma_first_at(b, ',', b.len() as int);
}

proof fn lemma_split_append(a: Seq<char>, b: Seq<char>)
    requires
        !b.contains(','),
    ensures
        split_on(a + seq![','] + b, ',') == split_on(a, ',').push(b),
    decreases a.len(),
{
    let whole = a + seq![','] + b;
    match first_at(a, ',') {
        Some(i) => {
            lemma_first_at_is(a, i);
            assert forall|j: int| 0 <= j < i implies whole[j] != ',' by {
                assert(whole[j] == a[j]);
            }
            assert(whole[i] == a[i]);
            lemma_first_at(whole, ',', i);
            assert(whole.take(i) =~= a.take(i));
            assert(whole.skip(i + 1) =~= a.skip(i + 1) + seq![','] + b);
            lemma_split_append(a.skip(i + 1), b);
            assert(split_on(a, ',') == seq![a.take(i)] + split_on(a.skip(i + 1), ','));
            assert(split_on(whole, ',') =~= split_on(a, ',').push(b));
        },
        None => {
            lemma_first_at_none(a);
            assert forall|j: int| 0 <= j < a.len() implies whole[j] != ',' by {
                assert(whole[j] == a[j]);
            }
            assert(whole[a.len() as int] == ',');
            lemma_first_at(whole, ',', a.len() as int);
            assert(whole.take(a.len() as int) =~= a);
            assert(whole.skip(a.len() as int + 1) =~= b);
            lemma_split_no_sep(b);
            assert(split_on(a, ',') == seq![a]);
            assert(split_on(whole, ',') =~= split_on(a, ',').push(b));
        },
    }
}

proof fn lemma_first_at_is(s: Seq<char>, i: int)
    requires
        first_at(s, ',') == Some(i),
    ensures
        0 <= i < s.len(),
        s[i] == ',',
        forall|j: int| 0 <= j < i ==> s[j] != ',',
    decreases s.len(),
{
    if s.len() > 0 && s[0] != ',' {
        lemma_first_at_is(s.drop_first(), i - 1);
        assert forall|j: int| 0 <= j < i implies s[j] != ',' by {
            if j > 0 {
                assert(s[j] == s.drop_first()[j - 1]);
            }
        }
    }
}

proof fn lemma_first_at_none(s: Seq<char>)
    requires
        first_at(s, ',') is None,
    ensures
        !s.contains(','),
    decreases s.len(),
{
    if s.len() > 0 {
        lemma_first_at_none(s.drop_first());
        assert forall|j: int| 0 <= j < s.len() implies s[j] != ',' by {
            if j > 0 {
                assert(s[j] == s.drop_first()[j - 1]);
            }
        }
    }
}

/// The pieces the form's list splits into: the first stereotype, then each other after the
/// space of the separator.
pub open spec fn form_pieces(list: Seq<Seq<char>>) -> Seq<Seq<char>> {
    Seq::new(list.len(), |i: int| if i == 0 { list[0] } else { seq![' '] + list[i] })
}

proof fn lemma_split_joined(list: Seq<Seq<char>>)
    requires
        list.len() >= 1,
        forall|i: int| 0 <= i < list.len() ==> !(#[trigger] list[i]).contains(','),
    ensures
        split_on(joined(list, ", "@), ',') == form_pieces(list),
    decreases list.len(),
{
    reveal_strlit(", ");
    if list.len() == 1 {
        lemma_split_no_sep(list[0]);
        assert(form_pieces(list) =~= seq![list[0]]);
    } else {
        let rest = list.drop_last();
        let x = list.last();
        lemma_split_joined(rest);
        let tail = seq![' '] + x;
        assert(!tail.contains(',')) by {
            if tail.contains(',') {
                let k = choose|k: int| 0 <= k < tail.len() && tail[k] == ',';
                assert(x[k - 1] == ',');
                assert(list[list.len() - 1].contains(','));
            }
        }
        assert(joined(list, ", "@) == joined(rest, ", "@) + ", "@ + x);
        assert(joined(rest, ", "@) + ", "@ + x =~= joined(rest, ", "@) + seq![','] + tail);
        lemma_split_append(joined(rest, ", "@), tail);
        assert(form_pieces(list) =~= form_pieces(rest).push(tail));
    }
}

proof fn lemma_trim_space(x: Seq<char>)
    requires
        trimmed(x) == x,
    ensures
        trimmed(seq![' '] + x) == x,
{
    let t = seq![' '] + x;
    assert(is_white_space(' '));
    assert(t.drop_first() =~= x);
    assert(trim_start(t) == trim_start(x));
}

proof fn lemma_keep_all(s: Seq<Seq<char>>)
    requires
        forall|i: int| 0 <= i < s.len() ==> (#[trigger] s[i]).len() > 0,
    ensures
        s.filter(|piece: Seq<char>| piece.len() > 0) == s,
    decreases s.len(),
{
    reveal(Seq::filter);
    if s.len() > 0 {
        lemma_keep_all(s.drop_last());
        assert(s.drop_last().push(s.last()) =~= s);
    } else {
        assert(s.filter(|piece: Seq<char>| piece.len() > 0) =~= s);
    }
}

/// Stereotypes come back unchanged through the edit form: the form shows a stored element's
/// stereotypes joined by ", ", and a submission splits them again; a list of stereotypes that
/// are not blank, hold no comma and carry no white space at either end is the same list
/// after the round trip.
pub proof fn lemma_stereotypes_round_trip(list: Seq<Seq<char>>)
    requires
        forall|i: int| 0 <= i < list.len() ==> plain_stereotype(#[trigger] list[i]),
    ensures
        stereotype_list(joined(list, ", "@)) == list,
{
    if list.len() == 0 {
        assert(joined(list, ", "@) =~= Seq::<char>::empty());
        lemma_split_no_sep(Seq::<char>::empty());
        let pieces = split_on(Seq::<char>::empty(), ',').map_values(|piece: Seq<char>| trimmed(piece));
        assert(trimmed(Seq::<char>::empty()) =~= Seq::<char>::empty());
        assert(pieces =~= seq![Seq::<char>::empty()]);
        reveal(Seq::filter);
        let keep = |piece: Seq<char>| piece.len() > 0;
        assert(pieces.drop_last() =~= Seq::<Seq<char>>::empty());
        assert(pieces.drop_last().filter(keep) =~= Seq::<Seq<char>>::empty());
        assert(!keep(pieces.last()));
        assert(pieces.filter(keep) =~= list);
    } else {
        assert forall|i: int| 0 <= i < list.len() implies !(#[trigger] list[i]).contains(',') by {
            assert(plain_stereotype(list[i]));
        }
        lemma_split_joined(list);
        let mapped = form_pieces(list).map_values(|piece: Seq<char>| trimmed(piece));
        assert forall|i: int| 0 <= i < list.len() implies #[trigger] mapped[i] == list[i] by {
            assert(plain_stereotype(list[i]));
            if i > 0 {
                lemma_trim_space(list[i]);
            }
        }
        assert(mapped =~= list);
        assert forall|i: int| 0 <= i < list.len() implies (#[trigger] list[i]).len() > 0 by {
            assert(plain_stereotype(list[i]));
        }
        lemma_keep_all(list);
    }
}

// ---------------------------------------------------------------------------
// The exchange with the store that commits an edit.

/// How an edit ends.
pub enum EditResult {
    /// Committed: the new commit's hash.
    Committed(String),
    /// Refused because another editor holds the element: the refusal the page shows.
    Locked(String),
    /// The store failed: its message.
    Failed(String),
}

/// Where an edit's exchange with the store stands, once the edit has passed its checks.
pub enum EditPhase {
    /// Nothing asked of the store yet.
    Start,
    /// The element's lock has been asked for.
    Locking,
    /// A lock refusal is being recorded in the log.
    Recording(String),
    /// The lock is held (these lock ids) and the commit has been asked for.
    Committing(Vec<String>),
    /// The lock is being released; the edit then ends as given.
    Releasing(EditResult),
    /// The edit has ended.
    Done,
}

/// What the store answered.
pub enum EditEvent {
    /// The edit may start.
    Begin,
    /// The lock was granted under these lock ids.
    LockGranted(Vec<String>),
    /// Another editor holds the element: the refusal's words.
    LockRefused(String),
    /// The refusal has been recorded, or recording it failed, which the edit does not wait on.
    Recorded,
    /// The commit was made: its hash.
    Committed(String),
    /// The commit was refused by a lock taken in between: the refusal's words.
    CommitLocked(String),
    /// The store failed: its message.
    Failed(String),
    /// The lock has been released, or releasing it failed, which the edit does not wait on.
    Released,
}

/// What to ask of the store next, or how the edit ends.
pub enum EditAction {
    AcquireLock,
    RecordRefusal(String),
    Commit,
    Release(Vec<String>),
    Finish(EditResult),
}

/// The next phase and action of an edit's exchange with the store. A lock refused up front is
/// recorded and answered as locked; a lock that was granted is released whatever the commit
/// did, and only then does the edit end, as committed, locked or failed. An answer the phase
/// does not expect changes nothing.
pub open spec fn edit_next(phase: EditPhase, event: EditEvent) -> (EditPhase, Option<EditAction>) {
    match (phase, event) {
        (EditPhase::Start, EditEvent::Begin) => (EditPhase::Locking, Some(EditAction::AcquireLock)),
        (EditPhase::Locking, EditEvent::LockGranted(ids)) => (EditPhase::Committing(ids), Some(EditAction::Commit)),
        (EditPhase::Locking, EditEvent::LockRefused(m)) => (EditPhase::Recording(m), Some(EditAction::RecordRefusal(m))),
        (EditPhase::Locking, EditEvent::Failed(m)) => (EditPhase::Done, Some(EditAction::Finish(EditResult::Failed(m)))),
        (EditPhase::Recording(m), EditEvent::Recorded) => (EditPhase::Done, Some(EditAction::Finish(EditResult::Locked(m)))),
        (EditPhase::Committing(ids), EditEvent::Committed(h)) => (
            EditPhase::Releasing(EditResult::Committed(h)),
            Some(EditAction::Release(ids)),
        ),
        (EditPhase::Committing(ids), EditEvent::CommitLocked(m)) => (
            EditPhase::Releasing(EditResult::Locked(m)),
            Some(EditAction::Release(ids)),
        ),
        (EditPhase::Committing(ids), EditEvent::Failed(m)) => (
            EditPhase::Releasing(EditResult::Failed(m)),
            Some(EditAction::Release(ids)),
        ),
        (EditPhase::Releasing(r), EditEvent::Released) => (EditPhase::Done, Some(EditAction::Finish(r))),
        (p, _) => (p, None),
    }
}

/// One step of an edit's exchange with the store: the caller performs the action and hands
/// back what the store answered.
pub fn edit_step(phase: EditPhase, event: EditEvent) -> (r: (EditPhase, Option<EditAction>))
    ensures
        r == edit_next(phase, event),
{
    match (phase, event) {
        (EditPhase::Start, EditEvent::Begin) => (EditPhase::Locking, Some(EditAction::AcquireLock)),
        (EditPhase::Locking, EditEvent::LockGranted(ids)) => (EditPhase::Committing(ids), Some(EditAction::Commit)),
        (EditPhase::Locking, EditEvent::LockRefused(m)) => {
            let words = m.clone();
            (EditPhase::Recording(m), Some(EditAction::RecordRefusal(words)))
        },
        (EditPhase::Locking, EditEvent::Failed(m)) => (EditPhase::Done, Some(EditAction::Finish(EditResult::Failed(m)))),
        (EditPhase::Recording(m), EditEvent::Recorded) => (EditPhase::Done, Some(EditAction::Finish(EditResult::Locked(m)))),
        (EditPhase::Committing(ids), EditEvent::Committed(h)) => (
            EditPhase::Releasing(EditResult::Committed(h)),
            Some(EditAction::Release(ids)),
        ),
        (EditPhase::Committing(ids), EditEvent::CommitLocked(m)) => (
            EditPhase::Releasing(EditResult::Locked(m)),
            Some(EditAction::Release(ids)),
        ),
        (EditPhase::Committing(ids), EditEvent::Failed(m)) => (
            EditPhase::Releasing(EditResult::Failed(m)),
            Some(EditAction::Release(ids)),
        ),
        (EditPhase::Releasing(r), EditEvent::Released) => (EditPhase::Done, Some(EditAction::Finish(r))),
        (p, _) => (p, None),
    }
}

/// A lock once granted is released before the edit ends: while the lock is held no step ends
/// the edit, and the step that leaves the held phase asks for exactly the held locks to be
/// released.
pub proof fn lemma_lock_released_before_finish(ids: Vec<String>, event: EditEvent)
    ensures
        !(edit_next(EditPhase::Committing(ids), event).1 matches Some(EditAction::Finish(_))),
        !(edit_next(EditPhase::Committing(ids), event).0 is Committing) ==> edit_next(EditPhase::Committing(ids), event).1
            == Some(EditAction::Release(ids)),
        edit_next(EditPhase::Committing(ids), event).0 is Committing ==> edit_next(EditPhase::Committing(ids), event)
            == (EditPhase::Committing(ids), None::<EditAction>),
{
}

} // verus!
