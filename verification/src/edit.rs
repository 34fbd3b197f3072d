//! The element editor's form: what it carries, read from a stored element or from a submission.

use vstd::prelude::*;
use crate::form::{branch_field, branch_of, field, field_or_empty, lookup, FormFields};
use crate::number::{parse_usize, parse_usize_from};
use crate::text::{append_number, chars_of, decimal, join_texts, joined, split_on, split_text, texts, trim_text, trimmed};

verus! {

/// One attribute row of an element.
pub struct Attribute {
    pub name: String,
    pub attr_type: String,
    pub aggregation: String,
    pub default: String,
}

/// What the editor reads of a stored element.
pub struct Element {
    pub id: String,
    pub name: String,
    pub documentation: String,
    pub stereotypes: Vec<String>,
    pub attributes: Vec<Attribute>,
}

/// The values the edit form carries. On a first load it is filled from the stored element; on
/// a submission from the submitted fields, so a refused edit re-renders with what was typed.
pub struct EditInput {
    pub id: String,
    pub name: String,
    pub documentation: String,
    pub stereotypes: String,
    pub attributes: Vec<Attribute>,
    pub branch: String,
    pub message: String,
}

/// The texts of an attribute row: name, type, aggregation and default.
pub open spec fn attribute_texts(a: Attribute) -> (Seq<char>, Seq<char>, Seq<char>, Seq<char>) {
    (a.name@, a.attr_type@, a.aggregation@, a.default@)
}

/// The texts of a list of attribute rows.
pub open spec fn attributes_texts(v: Seq<Attribute>) -> Seq<(Seq<char>, Seq<char>, Seq<char>, Seq<char>)> {
    v.map_values(|a: Attribute| attribute_texts(a))
}

/// The name of the form field `prefix` numbered `i`.
pub open spec fn numbered(prefix: Seq<char>, i: int) -> Seq<char> {
    prefix + decimal(i as nat)
}

/// How many attribute rows the form says it carries; none when it does not say.
pub open spec fn attr_count(fields: Seq<(Seq<char>, Seq<char>)>) -> nat {
    match lookup(fields, "attr_count"@) {
        Some(v) => match parse_usize(v) {
            Some(n) => n,
            None => 0,
        },
        None => 0,
    }
}

/// The attribute row `i` of the form, when its name is not blank.
pub open spec fn attribute_row(fields: Seq<(Seq<char>, Seq<char>)>, i: int) -> Option<(Seq<char>, Seq<char>, Seq<char>, Seq<char>)> {
    let name = field_or_empty(fields, numbered("attr_name_"@, i));
    if trimmed(name).len() == 0 {
        None
    } else {
        Some(
            (
                name,
                field_or_empty(fields, numbered("attr_type_"@, i)),
                field_or_empty(fields, numbered("attr_aggregation_"@, i)),
                field_or_empty(fields, numbered("attr_default_"@, i)),
            ),
        )
    }
}

/// The attribute rows numbered below `n` whose names are not blank, in row order.
pub open spec fn attribute_rows(fields: Seq<(Seq<char>, Seq<char>)>, n: nat) -> Seq<(Seq<char>, Seq<char>, Seq<char>, Seq<char>)>
    decreases n,
{
    if n == 0 {
        Seq::empty()
    } else {
        let rest = attribute_rows(fields, (n - 1) as nat);
        match attribute_row(fields, n - 1) {
            Some(row) => rest.push(row),
            None => rest,
        }
    }
}

/// The name of the numbered form field.
fn numbered_name(prefix: &str, i: usize) -> (r: String)
    ensures
        r@ == numbered(prefix@, i as int),
{
    let mut s = String::from_str(prefix);
    append_number(&mut s, i as u64);
    s
}

/// The parsed attributes from the submitted form: every numbered row whose name is not blank.
/// An emptied name drops the attribute rather than storing a nameless row.
pub fn parse_attributes(form: &FormFields) -> (r: Vec<Attribute>)
    ensures
        attributes_texts(r@) == attribute_rows(form@, attr_count(form@)),
{
    let count: usize = match form.get("attr_count") {
        Some(v) => match parse_usize_from(&chars_of(v.as_str()), 0) {
            Some(n) => n,
            None => 0,
        },
        None => 0,
    };
    proof {
        match lookup(form@, "attr_count"@) {
            Some(v) => {
                assert(v.skip(0) =~= v);
            },
            None => {},
        }
    }
    let mut out: Vec<Attribute> = Vec::new();
    let mut index: usize = 0;
    proof {
        assert(attributes_texts(out@) =~= attribute_rows(form@, 0));
    }
    while index < count
        invariant
            index <= count,
            count == attr_count(form@),
            attributes_texts(out@) == attribute_rows(form@, index as nat),
        decreases count - index,
    {
        let name = field(form, numbered_name("attr_name_", index).as_str());
        let blank = trim_text(name.as_str());
        if !blank.as_str().is_empty() {
            let attr_type = field(form, numbered_name("attr_type_", index).as_str());
            let aggregation = field(form, numbered_name("attr_aggregation_", index).as_str());
            let default = field(form, numbered_name("attr_default_", index).as_str());
            let ghost row = (name@, attr_type@, aggregation@, default@);
            let ghost before = out@;
            out.push(Attribute { name, attr_type, aggregation, default });
            proof {
                assert(attribute_row(form@, index as int) == Some(row));
                assert(attributes_texts(out@) =~= attributes_texts(before).push(row));
            }
        } else {
            proof {
                assert(attribute_row(form@, index as int) is None);
            }
        }
        index = index + 1;
    }
    out
}

/// The stereotypes of a comma-separated list: each piece trimmed, blank pieces dropped.
pub open spec fn stereotype_list(text: Seq<char>) -> Seq<Seq<char>> {
    split_on(text, ',').map_values(|piece: Seq<char>| trimmed(piece)).filter(|piece: Seq<char>| piece.len() > 0)
}

/// Split a comma-separated stereotype list, trimming blanks, so an empty field round-trips to
/// no stereotypes and `Block, Signal` round-trips to two.
pub fn split_stereotypes(text: &str) -> (r: Vec<String>)
    ensures
        texts(r@) == stereotype_list(text@),
{
    let pieces = split_text(text, ',');
    let ghost all = split_on(text@, ',').map_values(|piece: Seq<char>| trimmed(piece));
    let ghost keep = |piece: Seq<char>| piece.len() > 0;
    let mut out: Vec<String> = Vec::new();
    let mut i: usize = 0;
    proof {
        assert(texts(out@) =~= all.take(0).filter(keep));
    }
    while i < pieces.len()
        invariant
            texts(pieces@) == split_on(text@, ','),
            all == split_on(text@, ',').map_values(|piece: Seq<char>| trimmed(piece)),
            keep == (|piece: Seq<char>| piece.len() > 0),
            i <= pieces@.len(),
            texts(out@) == all.take(i as int).filter(keep),
        decreases pieces@.len() - i,
    {
        let t = trim_text(pieces[i].as_str());
        proof {
            assert(all[i as int] == t@);
            assert(all.take(i + 1) =~= all.take(i as int).push(t@));
            all.take(i as int).lemma_filter_push(t@, keep);
        }
        if !t.as_str().is_empty() {
            let ghost before = out@;
            out.push(t);
            proof {
                assert(texts(out@) =~= texts(before).push(all[i as int]));
            }
        }
        i = i + 1;
    }
    proof {
        assert(all.take(i as int) =~= all);
    }
    out
}

/// The attribute rows of an element, copied.
fn copy_attributes(v: &Vec<Attribute>) -> (r: Vec<Attribute>)
    ensures
        attributes_texts(r@) == attributes_texts(v@),
{
    let mut out: Vec<Attribute> = Vec::new();
    let mut i: usize = 0;
    while i < v.len()
        invariant
            i <= v@.len(),
            attributes_texts(out@) == attributes_texts(v@).take(i as int),
        decreases v@.len() - i,
    {
        let a = &v[i];
        let ghost before = out@;
        out.push(
            Attribute {
                name: a.name.clone(),
                attr_type: a.attr_type.clone(),
                aggregation: a.aggregation.clone(),
                default: a.default.clone(),
            },
        );
        proof {
            assert(attributes_texts(out@) =~= attributes_texts(before).push(attribute_texts(v@[i as int])));
            assert(attributes_texts(v@).take(i + 1) =~= attributes_texts(v@).take(i as int).push(
                attribute_texts(v@[i as int]),
            ));
        }
        i = i + 1;
    }
    proof {
        assert(attributes_texts(v@).take(i as int) =~= attributes_texts(v@));
    }
    out
}

impl EditInput {
    /// The form filled from the stored element: its stereotypes joined by ", ", no message.
    pub fn from_element(branch: &str, element: &Element) -> (r: EditInput)
        ensures
            r.id@ == element.id@,
            r.name@ == element.name@,
            r.documentation@ == element.documentation@,
            r.stereotypes@ == joined(texts(element.stereotypes@), ", "@),
            attributes_texts(r.attributes@) == attributes_texts(element.attributes@),
            r.branch@ == branch@,
            r.message@.len() == 0,
    {
        EditInput {
            id: element.id.clone(),
            name: element.name.clone(),
            documentation: element.documentation.clone(),
            stereotypes: join_texts(&element.stereotypes, ", "),
            attributes: copy_attributes(&element.attributes),
            branch: String::from_str(branch),
            message: String::new(),
        }
    }

    /// The form read from a submission. An absent id keeps the element's existing id (the one
    /// in the URL); a present but empty id is an explicit request to empty it, which the
    /// validator then refuses.
    pub fn from_form(form: &FormFields, fallback_id: &str) -> (r: EditInput)
        ensures
            r.id@ == match lookup(form@, "id"@) {
                Some(v) => v,
                None => fallback_id@,
            },
            r.name@ == field_or_empty(form@, "name"@),
            r.documentation@ == field_or_empty(form@, "documentation"@),
            r.stereotypes@ == field_or_empty(form@, "stereotypes"@),
            attributes_texts(r.attributes@) == attribute_rows(form@, attr_count(form@)),
            r.branch@ == branch_of(form@),
            r.message@ == field_or_empty(form@, "message"@),
    {
        let id = match form.get("id") {
            Some(v) => v.clone(),
            None => String::from_str(fallback_id),
        };
        EditInput {
            id,
            name: field(form, "name"),
            documentation: field(form, "documentation"),
            stereotypes: field(form, "stereotypes"),
            attributes: parse_attributes(form),
            branch: branch_field(form),
            message: field(form, "message"),
        }
    }
}

} // verus!
