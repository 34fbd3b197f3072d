//! Stored JSON records read as values: the evidence a check recorded, and the raw model
//! document behind a commit. The text is parsed by `serde_json`; what the pages read out of the
//! parsed value is read here.

use vstd::prelude::*;
use crate::text::texts;

verus! {

/// A parsed JSON value. A number is kept as what it is as an unsigned 64-bit integer, which is
/// all the records here ever count with; `None` stands for any other number.
pub enum JsonValue {
    Null,
    Bool(bool),
    Number(Option<u64>),
    Text(String),
    Array(Vec<JsonValue>),
    Object(Vec<(String, JsonValue)>),
}

/// A JSON value as the contracts read it.
pub enum JsonView {
    Null,
    Bool(bool),
    Number(Option<u64>),
    Text(Seq<char>),
    Array(Seq<JsonView>),
    Object(Seq<(Seq<char>, JsonView)>),
}

/// The view of a value.
pub open spec fn json_view(j: JsonValue) -> JsonView
    decreases j, 0int,
{
    match j {
        JsonValue::Null => JsonView::Null,
        JsonValue::Bool(b) => JsonView::Bool(b),
        JsonValue::Number(n) => JsonView::Number(n),
        JsonValue::Text(s) => JsonView::Text(s@),
        JsonValue::Array(items) => JsonView::Array(items_view(items@)),
        JsonValue::Object(fields) => JsonView::Object(fields_view(fields@)),
    }
}

/// The views of the items of an array.
pub open spec fn items_view(items: Seq<JsonValue>) -> Seq<JsonView>
    decreases items, 1int,
{
    if items.len() == 0 {
        Seq::empty()
    } else {
        seq![json_view(items[0])] + items_view(items.subrange(1, items.len() as int))
    }
}

/// The views of the members of an object.
pub open spec fn fields_view(fields: Seq<(String, JsonValue)>) -> Seq<(Seq<char>, JsonView)>
    decreases fields, 1int,
{
    if fields.len() == 0 {
        Seq::empty()
    } else {
        seq![(fields[0].0@, json_view(fields[0].1))] + fields_view(fields.subrange(1, fields.len() as int))
    }
}

impl View for JsonValue {
    type V = JsonView;

    open spec fn view(&self) -> JsonView {
        json_view(*self)
    }
}

/// The items of an array are viewed one by one, in order.
pub proof fn lemma_items_view(items: Seq<JsonValue>)
    ensures
        items_view(items).len() == items.len(),
        forall|i: int| 0 <= i < items.len() ==> #[trigger] items_view(items)[i] == json_view(items[i]),
    decreases items.len(),
{
    if items.len() > 0 {
        let rest = items.subrange(1, items.len() as int);
        lemma_items_view(rest);
        assert forall|i: int| 0 <= i < items.len() implies #[trigger] items_view(items)[i] == json_view(items[i]) by {
            if i > 0 {
                assert(rest[i - 1] == items[i]);
            }
        }
    }
}

/// The members of an object are viewed one by one, in order.
pub proof fn lemma_fields_view(fields: Seq<(String, JsonValue)>)
    ensures
        fields_view(fields).len() == fields.len(),
        forall|i: int| 0 <= i < fields.len() ==> #[trigger] fields_view(fields)[i] == (fields[i].0@, json_view(fields[i].1)),
    decreases fields.len(),
{
    if fields.len() > 0 {
        let rest = fields.subrange(1, fields.len() as int);
        lemma_fields_view(rest);
        assert forall|i: int| 0 <= i < fields.len() implies #[trigger] fields_view(fields)[i] == (fields[i].0@, json_view(fields[i].1)) by {
            if i > 0 {
                assert(rest[i - 1] == fields[i]);
            }
        }
    }
}

#[verifier::external_type_specification]
#[verifier::external_body]
pub struct ExJsonValue(serde_json::Value);

/// What `serde_json` reads from a text, as a value, when the text is JSON; nothing when it is
/// not.
pub uninterp spec fn json_of(text: Seq<char>) -> Option<JsonView>;

/// A `serde_json::Value` carried over as a [JsonValue], one variant for one variant; a number
/// is carried as what `Number::as_u64` gives. It states nothing: the one caller, [parse_json],
/// states what the pair gives.
#[verifier::external_body]
fn converted(v: &serde_json::Value) -> JsonValue {
    match v {
        serde_json::Value::Null => JsonValue::Null,
        serde_json::Value::Bool(b) => JsonValue::Bool(*b),
        serde_json::Value::Number(n) => JsonValue::Number(n.as_u64()),
        serde_json::Value::String(s) => JsonValue::Text(s.clone()),
        serde_json::Value::Array(items) => JsonValue::Array(items.iter().map(converted).collect()),
        serde_json::Value::Object(map) => JsonValue::Object(map.iter().map(|(k, x)| (k.clone(), converted(x))).collect()),
    }
}

/// Parse a text as JSON (`serde_json::from_str::<serde_json::Value>`): the value, or nothing
/// when the text is not JSON. The grammar is serde_json's; the result is a function of the
/// text alone, and only that is stated here.
#[verifier::external_body]
pub(crate) fn parse_json(text: &str) -> (r: Option<JsonValue>)
    ensures
        match json_of(text@) {
            Some(v) => r matches Some(j) && j@ == v,
            None => r is None,
        },
{
    match serde_json::from_str::<serde_json::Value>(text) {
        Ok(v) => Some(converted(&v)),
        Err(_) => None,
    }
}

/// The first member of an object's list of members called `key`.
pub open spec fn first_member(fields: Seq<(Seq<char>, JsonView)>, key: Seq<char>) -> Option<JsonView>
    decreases fields.len(),
{
    if fields.len() == 0 {
        None
    } else if fields[0].0 == key {
        Some(fields[0].1)
    } else {
        first_member(fields.drop_first(), key)
    }
}

/// The member `key` of a value, as `Value::get` reads it: nothing when the value is not an
/// object or has no such member.
pub open spec fn member_of(v: JsonView, key: Seq<char>) -> Option<JsonView> {
    match v {
        JsonView::Object(fields) => first_member(fields, key),
        _ => None,
    }
}

/// The member `key` of a value that may be absent.
pub open spec fn member_in(v: Option<JsonView>, key: Seq<char>) -> Option<JsonView> {
    match v {
        Some(x) => member_of(x, key),
        None => None,
    }
}

/// The strings among the items of an array, in order.
pub open spec fn item_texts(items: Seq<JsonView>) -> Seq<Seq<char>>
    decreases items.len(),
{
    if items.len() == 0 {
        Seq::empty()
    } else {
        (match items[0] {
            JsonView::Text(t) => seq![t],
            _ => Seq::empty(),
        }) + item_texts(items.drop_first())
    }
}

/// The unsigned integers among the items of an array, in order.
pub open spec fn item_numbers(items: Seq<JsonView>) -> Seq<u64>
    decreases items.len(),
{
    if items.len() == 0 {
        Seq::empty()
    } else {
        (match items[0] {
            JsonView::Number(Some(n)) => seq![n],
            _ => Seq::empty(),
        }) + item_numbers(items.drop_first())
    }
}

/// A string-list field: the strings of the array it holds, and none when it holds no array.
pub open spec fn texts_in(v: Option<JsonView>) -> Seq<Seq<char>> {
    match v {
        Some(JsonView::Array(items)) => item_texts(items),
        _ => Seq::empty(),
    }
}

/// A number-list field: the unsigned integers of the array it holds.
pub open spec fn numbers_in(v: Option<JsonView>) -> Seq<u64> {
    match v {
        Some(JsonView::Array(items)) => item_numbers(items),
        _ => Seq::empty(),
    }
}

/// A count field: the unsigned integer it holds, if it holds one.
pub open spec fn count_in(v: Option<JsonView>) -> Option<u64> {
    match v {
        Some(JsonView::Number(n)) => n,
        _ => None,
    }
}

/// A flag field: the boolean it holds, false when it holds none.
pub open spec fn flag_in(v: Option<JsonView>) -> bool {
    match v {
        Some(JsonView::Bool(b)) => b,
        _ => false,
    }
}

/// The view of a value that may be absent.
pub open spec fn opt_view(v: Option<&JsonValue>) -> Option<JsonView> {
    match v {
        Some(x) => Some(x@),
        None => None,
    }
}

/// The member `key` of a value, when it is an object that has one.
pub fn member<'a>(v: &'a JsonValue, key: &str) -> (r: Option<&'a JsonValue>)
    ensures
        opt_view(r) == member_of(v@, key@),
{
    match v {
        JsonValue::Object(fields) => {
            proof {
                lemma_fields_view(fields@);
            }
            let ghost fv = fields_view(fields@);
            let k = String::from_str(key);
            let mut i: usize = 0;
            proof {
                assert(fv.skip(0) =~= fv);
            }
            while i < fields.len()
                invariant
                    v@ == JsonView::Object(fv),
                    k@ == key@,
                    fv == fields_view(fields@),
                    fv.len() == fields@.len(),
                    forall|j: int| 0 <= j < fields@.len() ==> #[trigger] fv[j] == (fields@[j].0@, json_view(fields@[j].1)),
                    i <= fields@.len(),
                    first_member(fv, key@) == first_member(fv.skip(i as int), key@),
                decreases fields@.len() - i,
            {
                proof {
                    assert(fv.skip(i as int)[0] == fv[i as int]);
                    assert(fv.skip(i as int).drop_first() =~= fv.skip(i + 1));
                }
                if fields[i].0 == k {
                    proof {
                        assert(fv[i as int].0 == key@);
                        assert(first_member(fv.skip(i as int), key@) == Some(fv[i as int].1));
                    }
                    return Some(&fields[i].1);
                }
                i = i + 1;
            }
            proof {
                assert(fv.skip(i as int) =~= Seq::<(Seq<char>, JsonView)>::empty());
            }
            None
        },
        _ => None,
    }
}

/// The member `key` of a value that may be absent.
pub fn member_at<'a>(v: Option<&'a JsonValue>, key: &str) -> (r: Option<&'a JsonValue>)
    ensures
        opt_view(r) == member_in(opt_view(v), key@),
{
    match v {
        Some(x) => member(x, key),
        None => None,
    }
}

/// The strings of a string-list field.
pub fn texts_at(v: Option<&JsonValue>) -> (r: Vec<String>)
    ensures
        texts(r@) == texts_in(opt_view(v)),
{
    let mut out: Vec<String> = Vec::new();
    match v {
        Some(JsonValue::Array(items)) => {
            proof {
                lemma_items_view(items@);
            }
            let ghost iv = items_view(items@);
            let mut i: usize = 0;
            proof {
                assert(iv.skip(0) =~= iv);
                assert(texts(out@) + item_texts(iv.skip(0)) =~= item_texts(iv));
            }
            while i < items.len()
                invariant
                    iv == items_view(items@),
                    iv.len() == items@.len(),
                    forall|j: int| 0 <= j < items@.len() ==> #[trigger] iv[j] == json_view(items@[j]),
                    i <= items@.len(),
                    texts(out@) + item_texts(iv.skip(i as int)) == item_texts(iv),
                decreases items@.len() - i,
            {
                proof {
                    assert(iv.skip(i as int)[0] == iv[i as int]);
                    assert(iv.skip(i as int).drop_first() =~= iv.skip(i + 1));
                }
                let ghost before = out@;
                match &items[i] {
                    JsonValue::Text(t) => {
                        out.push(t.clone());
                        proof {
                            assert(texts(out@) =~= texts(before).push(t@));
                            assert(texts(out@) + item_texts(iv.skip(i + 1)) =~= texts(before) + item_texts(iv.skip(i as int)));
                        }
                    },
                    _ => {
                        proof {
                            assert(item_texts(iv.skip(i as int)) =~= item_texts(iv.skip(i + 1)));
                        }
                    },
                }
                i = i + 1;
            }
            proof {
                assert(iv.skip(i as int) =~= Seq::<JsonView>::empty());
                assert(texts(out@) + item_texts(iv.skip(i as int)) =~= texts(out@));
            }
            out
        },
        _ => {
            proof {
                assert(texts(out@) =~= Seq::<Seq<char>>::empty());
            }
            out
        },
    }
}

/// The unsigned integers of a number-list field.
pub fn numbers_at(v: Option<&JsonValue>) -> (r: Vec<u64>)
    ensures
        r@ == numbers_in(opt_view(v)),
{
    let mut out: Vec<u64> = Vec::new();
    match v {
        Some(JsonValue::Array(items)) => {
            proof {
                lemma_items_view(items@);
            }
            let ghost iv = items_view(items@);
            let mut i: usize = 0;
            proof {
                assert(iv.skip(0) =~= iv);
                assert(out@ + item_numbers(iv.skip(0)) =~= item_numbers(iv));
            }
            while i < items.len()
                invariant
                    iv == items_view(items@),
                    iv.len() == items@.len(),
                    forall|j: int| 0 <= j < items@.len() ==> #[trigger] iv[j] == json_view(items@[j]),
                    i <= items@.len(),
                    out@ + item_numbers(iv.skip(i as int)) == item_numbers(iv),
                decreases items@.len() - i,
            {
                proof {
                    assert(iv.skip(i as int)[0] == iv[i as int]);
                    assert(iv.skip(i as int).drop_first() =~= iv.skip(i + 1));
                }
                let ghost before = out@;
                match &items[i] {
                    JsonValue::Number(Some(n)) => {
                        out.push(*n);
                        proof {
                            assert(out@ + item_numbers(iv.skip(i + 1)) =~= before + item_numbers(iv.skip(i as int)));
                        }
                    },
                    _ => {
                        proof {
                            assert(item_numbers(iv.skip(i as int)) =~= item_numbers(iv.skip(i + 1)));
                        }
                    },
                }
                i = i + 1;
            }
            proof {
                assert(iv.skip(i as int) =~= Seq::<JsonView>::empty());
                assert(out@ + item_numbers(iv.skip(i as int)) =~= out@);
            }
            out
        },
        _ => out,
    }
}

/// The unsigned integer a count field holds.
pub fn count_at(v: Option<&JsonValue>) -> (r: Option<u64>)
    ensures
        r == count_in(opt_view(v)),
{
    match v {
        Some(JsonValue::Number(n)) => *n,
        _ => None,
    }
}

/// The boolean a flag field holds, false when it holds none.
pub fn flag_at(v: Option<&JsonValue>) -> (r: bool)
    ensures
        r == flag_in(opt_view(v)),
{
    match v {
        Some(JsonValue::Bool(b)) => *b,
        _ => false,
    }
}

} // verus!
