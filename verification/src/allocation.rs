//! What the composition page reads out of stored JSON: the role each activity step is
//! allocated to, from the raw model document (the typed model drops an activity's
//! attributes), and the measured and asserted lists of the compositional check's evidence.

use vstd::prelude::*;
use crate::composition::roles_view;
use crate::json::{
    items_view, json_of, lemma_items_view, member, member_at, member_of, opt_view, parse_json, texts_at, texts_in,
    JsonValue, JsonView,
};
use crate::gate::section_field;
use crate::text::texts;

verus! {

/// The text a member holds, when it holds one.
pub open spec fn text_member(v: JsonView, key: Seq<char>) -> Option<Seq<char>> {
    match member_of(v, key) {
        Some(JsonView::Text(t)) => Some(t),
        _ => None,
    }
}

/// The role an attribute allocates to: an attribute named `allocatedTo` names its role in its
/// `type`; an empty role is not a role.
pub open spec fn attribute_role(attr: JsonView) -> Option<Seq<char>> {
    if text_member(attr, "name"@) == Some("allocatedTo"@) {
        match text_member(attr, "type"@) {
            Some(role) => if role.len() > 0 {
                Some(role)
            } else {
                None
            },
            None => None,
        }
    } else {
        None
    }
}

/// The (activity id, role) pairs the attributes of one activity give, in order.
pub open spec fn attribute_roles(id: Seq<char>, attrs: Seq<JsonView>) -> Seq<(Seq<char>, Seq<char>)>
    decreases attrs.len(),
{
    if attrs.len() == 0 {
        Seq::empty()
    } else {
        (match attribute_role(attrs[0]) {
            Some(role) => seq![(id, role)],
            None => Seq::empty(),
        }) + attribute_roles(id, attrs.drop_first())
    }
}

/// The pairs one activity gives: none unless it has a text `id` and an `attributes` array.
pub open spec fn activity_roles(a: JsonView) -> Seq<(Seq<char>, Seq<char>)> {
    match text_member(a, "id"@) {
        Some(id) => match member_of(a, "attributes"@) {
            Some(JsonView::Array(attrs)) => attribute_roles(id, attrs),
            _ => Seq::empty(),
        },
        None => Seq::empty(),
    }
}

/// The pairs a list of activities gives, activity by activity.
pub open spec fn activities_roles(acts: Seq<JsonView>) -> Seq<(Seq<char>, Seq<char>)>
    decreases acts.len(),
{
    if acts.len() == 0 {
        Seq::empty()
    } else {
        activity_roles(acts[0]) + activities_roles(acts.drop_first())
    }
}

/// Every (activity id, role) pair a model document gives, in document order: from its
/// `activities` array, and none when it has none.
pub open spec fn roles_in(doc: JsonView) -> Seq<(Seq<char>, Seq<char>)> {
    match member_of(doc, "activities"@) {
        Some(JsonView::Array(acts)) => activities_roles(acts),
        _ => Seq::empty(),
    }
}

/// The text a member holds.
fn text_at(v: &JsonValue, key: &str) -> (r: Option<String>)
    ensures
        match r {
            Some(t) => text_member(v@, key@) == Some(t@),
            None => text_member(v@, key@) is None,
        },
{
    match member(v, key) {
        Some(JsonValue::Text(t)) => Some(t.clone()),
        _ => None,
    }
}

/// The role an attribute allocates to.
fn role_of_attribute(attr: &JsonValue) -> (r: Option<String>)
    ensures
        match r {
            Some(t) => attribute_role(attr@) == Some(t@),
            None => attribute_role(attr@) is None,
        },
{
    let name = match text_at(attr, "name") {
        Some(n) => n,
        None => {
            return None;
        },
    };
    let allocated = String::from_str("allocatedTo");
    if name != allocated {
        return None;
    }
    match text_at(attr, "type") {
        Some(role) => {
            if role.as_str().is_empty() {
                None
            } else {
                Some(role)
            }
        },
        None => None,
    }
}

/// Append the pairs one activity gives.
fn push_activity_roles(a: &JsonValue, out: &mut Vec<(String, String)>)
    ensures
        roles_view(final(out)@) == roles_view(old(out)@) + activity_roles(a@),
{
    let id = match text_at(a, "id") {
        Some(id) => id,
        None => {
            proof {
                assert(roles_view(out@) =~= roles_view(out@) + Seq::<(Seq<char>, Seq<char>)>::empty());
            }
            return;
        },
    };
    let attrs = match member(a, "attributes") {
        Some(JsonValue::Array(attrs)) => attrs,
        _ => {
            proof {
                assert(roles_view(out@) =~= roles_view(out@) + Seq::<(Seq<char>, Seq<char>)>::empty());
            }
            return;
        },
    };
    proof {
        lemma_items_view(attrs@);
    }
    let ghost av = items_view(attrs@);
    let ghost start = roles_view(out@);
    let mut i: usize = 0;
    proof {
        assert(av.skip(0) =~= av);
        assert(roles_view(out@) + attribute_roles(id@, av.skip(0)) =~= start + attribute_roles(id@, av));
    }
    while i < attrs.len()
        invariant
            av == items_view(attrs@),
            av.len() == attrs@.len(),
            forall|j: int| 0 <= j < attrs@.len() ==> #[trigger] av[j] == crate::json::json_view(attrs@[j]),
            i <= attrs@.len(),
            roles_view(out@) + attribute_roles(id@, av.skip(i as int)) == start + attribute_roles(id@, av),
        decreases attrs@.len() - i,
    {
        proof {
            assert(av.skip(i as int)[0] == av[i as int]);
            assert(av.skip(i as int).drop_first() =~= av.skip(i + 1));
        }
        let ghost before = roles_view(out@);
        match role_of_attribute(&attrs[i]) {
            Some(role) => {
                let ghost rv = role@;
                out.push((id.clone(), role));
                proof {
                    assert(roles_view(out@) =~= before.push((id@, rv)));
                    assert(roles_view(out@) + attribute_roles(id@, av.skip(i + 1)) =~= before + attribute_roles(id@, av.skip(i as int)));
                }
            },
            None => {
                proof {
                    assert(attribute_roles(id@, av.skip(i as int)) =~= attribute_roles(id@, av.skip(i + 1)));
                }
            },
        }
        i = i + 1;
    }
    proof {
        assert(av.skip(i as int) =~= Seq::<JsonView>::empty());
        assert(roles_view(out@) + attribute_roles(id@, av.skip(i as int)) =~= roles_view(out@));
    }
}

/// Each activity's role, as (activity id, role) pairs in document order, read from the model
/// document's activities and their `allocatedTo` attributes. When an activity is given two
/// roles the later pair is the one that counts, as the layout reads the list.
pub fn allocated_roles(doc: &JsonValue) -> (r: Vec<(String, String)>)
    ensures
        roles_view(r@) == roles_in(doc@),
{
    let mut out: Vec<(String, String)> = Vec::new();
    let acts = match member(doc, "activities") {
        Some(JsonValue::Array(acts)) => acts,
        _ => {
            proof {
                assert(roles_view(out@) =~= Seq::<(Seq<char>, Seq<char>)>::empty());
            }
            return out;
        },
    };
    proof {
        lemma_items_view(acts@);
    }
    let ghost av = items_view(acts@);
    let mut i: usize = 0;
    proof {
        assert(av.skip(0) =~= av);
        assert(roles_view(out@) + activities_roles(av.skip(0)) =~= activities_roles(av));
    }
    while i < acts.len()
        invariant
            av == items_view(acts@),
            av.len() == acts@.len(),
            forall|j: int| 0 <= j < acts@.len() ==> #[trigger] av[j] == crate::json::json_view(acts@[j]),
            i <= acts@.len(),
            roles_view(out@) + activities_roles(av.skip(i as int)) == activities_roles(av),
        decreases acts@.len() - i,
    {
        proof {
            assert(av.skip(i as int)[0] == av[i as int]);
            assert(av.skip(i as int).drop_first() =~= av.skip(i + 1));
        }
        let ghost before = roles_view(out@);
        push_activity_roles(&acts[i], &mut out);
        proof {
            assert(roles_view(out@) + activities_roles(av.skip(i + 1)) =~= before + activities_roles(av.skip(i as int)));
        }
        i = i + 1;
    }
    proof {
        assert(av.skip(i as int) =~= Seq::<JsonView>::empty());
        assert(roles_view(out@) + activities_roles(av.skip(i as int)) =~= roles_view(out@));
    }
    out
}

/// The roles a stored model document allocates its activity steps to, or nothing when the
/// stored text is not JSON (the page then says the stored model could not be read).
pub fn document_roles(text: &str) -> (r: Option<Vec<(String, String)>>)
    ensures
        match json_of(text@) {
            Some(doc) => r matches Some(v) && roles_view(v@) == roles_in(doc),
            None => r is None,
        },
{
    match parse_json(text) {
        Some(doc) => Some(allocated_roles(&doc)),
        None => None,
    }
}

/// The measured and asserted lists of the compositional check's evidence, verbatim: the
/// strings of its `boundary.measured` and `boundary.asserted` arrays.
pub fn boundary_lists(evidence: &JsonValue) -> (r: (Vec<String>, Vec<String>))
    ensures
        texts(r.0@) == texts_in(section_field(Some(evidence@), "boundary"@, "measured"@)),
        texts(r.1@) == texts_in(section_field(Some(evidence@), "boundary"@, "asserted"@)),
{
    let boundary = member(evidence, "boundary");
    let measured = texts_at(member_at(boundary, "measured"));
    let asserted = texts_at(member_at(boundary, "asserted"));
    proof {
        assert(opt_view(Some(evidence)) == Some(evidence@));
    }
    (measured, asserted)
}

/// The measured and asserted lists of the compositional check's evidence, read from the JSON
/// text it is stored or handed on as; nothing when the text is not JSON.
pub fn evidence_boundary(text: &str) -> (r: Option<(Vec<String>, Vec<String>)>)
    ensures
        match json_of(text@) {
            Some(v) => r matches Some(p) && texts(p.0@) == texts_in(section_field(Some(v), "boundary"@, "measured"@))
                && texts(p.1@) == texts_in(section_field(Some(v), "boundary"@, "asserted"@)),
            None => r is None,
        },
{
    match parse_json(text) {
        Some(v) => Some(boundary_lists(&v)),
        None => None,
    }
}

} // verus!
