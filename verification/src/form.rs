//! A submitted HTML form, and the readings every page makes of one: a field or the empty
//! string, a field trimmed, the branch a form targets, and the numbered checkboxes.

use vstd::prelude::*;
use vstd::relations::{sorted_by, total_ordering};
use crate::number::{parse_usize, parse_usize_from};
use crate::text::{append_number, chars_equal, chars_of, chars_start_with, texts};

verus! {

/// The branch a form targets when it names none.
pub const DEFAULT_BRANCH: &'static str = "main";

/// The fields of a submitted form, each name at most once.
pub struct FormFields {
    fields: Vec<(String, String)>,
}

/// The value of the field called `name`, if the form has one.
pub open spec fn lookup(fields: Seq<(Seq<char>, Seq<char>)>, name: Seq<char>) -> Option<Seq<char>>
    decreases fields.len(),
{
    if fields.len() == 0 {
        None
    } else if fields.last().0 == name {
        Some(fields.last().1)
    } else {
        lookup(fields.drop_last(), name)
    }
}

/// The position of the field called `name`.
pub open spec fn position(fields: Seq<(Seq<char>, Seq<char>)>, name: Seq<char>) -> Option<int>
    decreases fields.len(),
{
    if fields.len() == 0 {
        None
    } else if fields.last().0 == name {
        Some(fields.len() - 1)
    } else {
        position(fields.drop_last(), name)
    }
}

/// The fields after `name` is set to `value`: an existing field keeps its place and takes the
/// new value; a new one goes last.
pub open spec fn with_field(
    fields: Seq<(Seq<char>, Seq<char>)>,
    name: Seq<char>,
    value: Seq<char>,
) -> Seq<(Seq<char>, Seq<char>)> {
    match position(fields, name) {
        Some(i) => fields.update(i, (name, value)),
        None => fields.push((name, value)),
    }
}

/// No name occurs twice.
pub open spec fn names_distinct(fields: Seq<(Seq<char>, Seq<char>)>) -> bool {
    forall|i: int, j: int| 0 <= i < j < fields.len() ==> #[trigger] fields[i].0 != #[trigger] fields[j].0
}

proof fn lemma_with_field_distinct(
    fields: Seq<(Seq<char>, Seq<char>)>,
    name: Seq<char>,
    value: Seq<char>,
)
    requires
        names_distinct(fields),
    ensures
        names_distinct(with_field(fields, name, value)),
{
    lemma_position(fields, name);
    let r = with_field(fields, name, value);
    assert forall|i: int, j: int| 0 <= i < j < r.len() implies #[trigger] r[i].0 != #[trigger] r[j].0 by {
        match position(fields, name) {
            Some(p) => {
                if i != p && j != p {
                    assert(r[i] == fields[i] && r[j] == fields[j]);
                } else if i == p {
                    assert(r[j] == fields[j]);
                    assert(fields[i].0 != fields[j].0);
                } else {
                    assert(r[i] == fields[i]);
                    assert(fields[i].0 != fields[j].0);
                }
            },
            None => {
                if j == fields.len() {
                    assert(r[i] == fields[i]);
                } else {
                    assert(r[i] == fields[i] && r[j] == fields[j]);
                }
            },
        }
    }
}

proof fn lemma_position(fields: Seq<(Seq<char>, Seq<char>)>, name: Seq<char>)
    ensures
        match position(fields, name) {
            Some(i) => 0 <= i < fields.len() && fields[i].0 == name && forall|j: int|
                i < j < fields.len() ==> #[trigger] fields[j].0 != name,
            None => forall|j: int| 0 <= j < fields.len() ==> #[trigger] fields[j].0 != name,
        },
        lookup(fields, name) == match position(fields, name) {
            Some(i) => Some(fields[i].1),
            None => None::<Seq<char>>,
        },
    decreases fields.len(),
{
    if fields.len() > 0 {
        let rest = fields.drop_last();
        lemma_position(rest, name);
        assert forall|j: int| 0 <= j < rest.len() implies #[trigger] rest[j] == fields[j] by {}
        if fields.last().0 != name {
            match position(rest, name) {
                Some(i) => {
                    assert forall|j: int| i < j < fields.len() implies #[trigger] fields[j].0 != name by {
                        if j < rest.len() {
                            assert(rest[j] == fields[j]);
                        }
                    }
                },
                None => {
                    assert forall|j: int| 0 <= j < fields.len() implies #[trigger] fields[j].0 != name by {
                        if j < rest.len() {
                            assert(rest[j] == fields[j]);
                        }
                    }
                },
            }
        }
    }
}

impl View for FormFields {
    type V = Seq<(Seq<char>, Seq<char>)>;

    closed spec fn view(&self) -> Seq<(Seq<char>, Seq<char>)> {
        self.fields@.map_values(|f: (String, String)| (f.0@, f.1@))
    }
}

impl FormFields {
    #[verifier::type_invariant]
    spec fn distinct(self) -> bool {
        names_distinct(self@)
    }

    /// A form with no fields.
    pub fn new() -> (r: FormFields)
        ensures
            r@ == Seq::<(Seq<char>, Seq<char>)>::empty(),
    {
        let r = FormFields { fields: Vec::new() };
        proof {
            assert(r@ =~= Seq::<(Seq<char>, Seq<char>)>::empty());
        }
        r
    }

    /// Where the field called `name` stands.
    fn find(&self, name: &str) -> (r: Option<usize>)
        ensures
            match r {
                Some(i) => position(self@, name@) == Some(i as int),
                None => position(self@, name@) is None,
            },
    {
        let ghost fs = self@;
        let mut i = self.fields.len();
        proof {
            assert(fs.take(i as int) =~= fs);
        }
        while i > 0
            invariant
                fs == self@,
                i <= self.fields@.len(),
                fs.len() == self.fields@.len(),
                position(fs, name@) == position(fs.take(i as int), name@),
            decreases i,
        {
            let ghost before = fs.take(i as int);
            let cs = chars_of(self.fields[i - 1].0.as_str());
            proof {
                assert(before.last() == fs[i - 1]);
                assert(fs[i - 1].0 == self.fields@[i - 1].0@);
            }
            if chars_equal(&cs, name) {
                return Some(i - 1);
            }
            proof {
                assert(before.drop_last() =~= fs.take(i - 1));
            }
            i = i - 1;
        }
        proof {
            assert(fs.take(0) =~= Seq::<(Seq<char>, Seq<char>)>::empty());
        }
        None
    }

    /// Sets the field called `name`, as a form submission sets it.
    pub fn insert(&mut self, name: String, value: String)
        ensures
            final(self)@ == with_field(old(self)@, name@, value@),
    {
        proof {
            use_type_invariant(&*self);
            lemma_position(self@, name@);
            lemma_with_field_distinct(self@, name@, value@);
        }
        let ghost before = self@;
        match self.find(name.as_str()) {
            Some(i) => {
                let ghost pair = (name@, value@);
                let mut fields: Vec<(String, String)> = Vec::new();
                std::mem::swap(&mut fields, &mut self.fields);
                fields.set(i, (name, value));
                proof {
                    assert(fields@.map_values(|f: (String, String)| (f.0@, f.1@)) =~= before.update(
                        i as int,
                        pair,
                    ));
                }
                self.fields = fields;
            },
            None => {
                let ghost pair = (name@, value@);
                let mut fields: Vec<(String, String)> = Vec::new();
                std::mem::swap(&mut fields, &mut self.fields);
                fields.push((name, value));
                proof {
                    assert(fields@.map_values(|f: (String, String)| (f.0@, f.1@)) =~= before.push(pair));
                }
                self.fields = fields;
            },
        }
    }

    /// The value of the field called `name`.
    pub fn get(&self, name: &str) -> (r: Option<&String>)
        ensures
            match lookup(self@, name@) {
                Some(v) => r is Some && r->0@ == v,
                None => r is None,
            },
    {
        proof {
            lemma_position(self@, name@);
        }
        match self.find(name) {
            Some(i) => {
                let v = &self.fields[i].1;
                proof {
                    assert(self@[i as int] == (self.fields@[i as int].0@, self.fields@[i as int].1@));
                    assert(lookup(self@, name@) == Some(self@[i as int].1));
                    assert(v@ == self@[i as int].1);
                }
                Some(v)
            },
            None => None,
        }
    }

    /// How many fields the form has.
    pub fn len(&self) -> (r: usize)
        ensures
            r == self@.len(),
    {
        self.fields.len()
    }

    /// The name of the field at `i`.
    pub fn name_at(&self, i: usize) -> (r: &String)
        requires
            i < self@.len(),
        ensures
            r@ == self@[i as int].0,
    {
        &self.fields[i].0
    }
}

/// The field called `name`, or the empty string.
pub open spec fn field_or_empty(fields: Seq<(Seq<char>, Seq<char>)>, name: Seq<char>) -> Seq<char> {
    match lookup(fields, name) {
        Some(v) => v,
        None => Seq::empty(),
    }
}

/// The field called `name`, or the empty string.
pub fn field(form: &FormFields, name: &str) -> (r: String)
    ensures
        r@ == field_or_empty(form@, name@),
{
    match form.get(name) {
        Some(v) => v.clone(),
        None => String::new(),
    }
}

/// The branch a form names, or the default when it names none or an empty one.
pub open spec fn branch_of(fields: Seq<(Seq<char>, Seq<char>)>) -> Seq<char> {
    match lookup(fields, "branch"@) {
        Some(v) => if v.len() > 0 {
            v
        } else {
            DEFAULT_BRANCH@
        },
        None => DEFAULT_BRANCH@,
    }
}

/// The branch a form targets: its non-empty branch field, or the default.
pub fn branch_field(form: &FormFields) -> (r: String)
    ensures
        r@ == branch_of(form@),
{
    match form.get("branch") {
        Some(v) => if !v.as_str().is_empty() {
            v.clone()
        } else {
            String::from_str(DEFAULT_BRANCH)
        },
        None => String::from_str(DEFAULT_BRANCH),
    }
}

// ---------------------------------------------------------------------------
// The numbered acceptance checkboxes.

/// The name of the acceptance checkbox numbered `i`.
pub open spec fn accept_key(i: int) -> Seq<char> {
    "accept_loss_"@ + crate::text::decimal(i as nat)
}

/// The number an acceptance checkbox carries in its name, when the name is one.
pub open spec fn accept_index(name: Seq<char>) -> Option<int> {
    let p = "accept_loss_"@;
    if crate::text::starts_with(name, p) {
        match parse_usize(name.skip(p.len() as int)) {
            Some(n) => Some(n as int),
            None => None,
        }
    } else {
        None
    }
}

/// The numbers of the acceptance checkboxes a form carries, in field order.
pub open spec fn accept_indexes(fields: Seq<(Seq<char>, Seq<char>)>) -> Seq<int> {
    fields.map_values(|f: (Seq<char>, Seq<char>)| f.0).filter_map(|n: Seq<char>| accept_index(n))
}

/// The values of the checked acceptance boxes, in checkbox order: each number a checkbox name
/// carries, smallest first, looked up under its own canonical name.
pub open spec fn accepted(fields: Seq<(Seq<char>, Seq<char>)>) -> Seq<Seq<char>> {
    accept_indexes(fields).sort().filter_map(|i: int| lookup(fields, accept_key(i)))
}

/// A list of indexes as integers.
pub open spec fn ints(s: Seq<usize>) -> Seq<int> {
    s.map_values(|x: usize| x as int)
}

/// The indexes in ascending order.
fn sort_ascending(v: &Vec<usize>) -> (r: Vec<usize>)
    ensures
        ints(r@) == ints(v@).sort(),
{
    let ghost leq = |x: int, y: int| x <= y;
    let mut r: Vec<usize> = Vec::new();
    let mut i: usize = 0;
    proof {
        assert(ints(r@) =~= Seq::<int>::empty());
        assert(ints(v@.take(0)) =~= Seq::<int>::empty());
    }
    while i < v.len()
        invariant
            i <= v@.len(),
            leq == (|x: int, y: int| x <= y),
            sorted_by(ints(r@), leq),
            ints(r@).to_multiset() == ints(v@.take(i as int)).to_multiset(),
        decreases v@.len() - i,
    {
        let x = v[i];
        let mut p: usize = 0;
        while p < r.len() && r[p] <= x
            invariant
                p <= r@.len(),
                forall|j: int| 0 <= j < p ==> r@[j] <= x,
            decreases r@.len() - p,
        {
            p = p + 1;
        }
        let ghost old_r = r@;
        r.insert(p, x);
        proof {
            broadcast use vstd::seq_lib::group_to_multiset_ensures;
            let o = ints(old_r);
            assert(ints(r@) =~= o.insert(p as int, x as int));
            assert forall|a: int, b: int| 0 <= a < b < ints(r@).len() implies #[trigger] leq(ints(r@)[a], ints(r@)[b]) by {
                if b < p {
                    assert(leq(o[a], o[b]));
                } else if b == p {
                    assert(r@[a] <= x);
                } else if a < p {
                    assert(o[a] <= x);
                    if p < old_r.len() {
                        assert(!(old_r[p as int] <= x));
                        assert(leq(o[p as int], o[b - 1]) || p == b - 1);
                    }
                } else if a == p {
                    if p < old_r.len() {
                        assert(!(old_r[p as int] <= x));
                        assert(leq(o[p as int], o[b - 1]) || p == b - 1);
                    }
                } else {
                    assert(leq(o[a - 1], o[b - 1]));
                }
            }
            assert(o.insert(p as int, x as int) =~= o.take(p as int) + seq![x as int] + o.skip(p as int));
            assert(o =~= o.take(p as int) + o.skip(p as int));
            vstd::seq_lib::lemma_multiset_commutative(o.take(p as int), seq![x as int]);
            vstd::seq_lib::lemma_multiset_commutative(o.take(p as int) + seq![x as int], o.skip(p as int));
            vstd::seq_lib::lemma_multiset_commutative(o.take(p as int), o.skip(p as int));
            assert(ints(v@.take(i + 1)) =~= ints(v@.take(i as int)).push(x as int));
            assert(seq![x as int].to_multiset() =~= Seq::<int>::empty().push(x as int).to_multiset()) by {
                assert(seq![x as int] =~= Seq::<int>::empty().push(x as int));
            }
            assert(Seq::<int>::empty().to_multiset() =~= vstd::multiset::Multiset::<int>::empty()) by {
                broadcast use vstd::multiset::group_multiset_axioms;
                assert(Seq::<int>::empty().to_multiset().len() == 0);
            }
            assert(ints(r@).to_multiset() =~= ints(v@.take(i + 1)).to_multiset()) by {
                broadcast use vstd::multiset::group_multiset_axioms;
            }
        }
        i = i + 1;
    }
    proof {
        assert(v@.take(i as int) =~= v@);
        ints(v@).lemma_sort_ensures();
        assert(total_ordering(leq)) by {
            assert(vstd::relations::reflexive(leq));
            assert(vstd::relations::antisymmetric(leq));
            assert(vstd::relations::transitive(leq));
            assert(vstd::relations::strongly_connected(leq));
        }
        vstd::seq_lib::lemma_sorted_unique(ints(r@), ints(v@).sort(), leq);
    }
    r
}

/// The number an acceptance checkbox carries in its name, when the name is one.
fn accept_index_of(name: &String) -> (r: Option<usize>)
    ensures
        accept_index(name@) == match r {
            Some(n) => Some(n as int),
            None => None::<int>,
        },
{
    let cs = chars_of(name.as_str());
    if chars_start_with(&cs, "accept_loss_") {
        let skip = "accept_loss_".unicode_len();
        let r = parse_usize_from(&cs, skip);
        proof {
            assert(cs@.skip(skip as int) == name@.skip("accept_loss_"@.len() as int));
        }
        r
    } else {
        None
    }
}

/// The name of the acceptance checkbox numbered `n`.
fn accept_key_string(n: usize) -> (r: String)
    ensures
        r@ == accept_key(n as int),
{
    let mut key = String::from_str("accept_loss_");
    append_number(&mut key, n as u64);
    key
}

/// The names of the fields, in order.
pub open spec fn names_of(fields: Seq<(Seq<char>, Seq<char>)>) -> Seq<Seq<char>> {
    fields.map_values(|f: (Seq<char>, Seq<char>)| f.0)
}

/// The checked acceptance boxes, in checkbox order. A checkbox submits its value only when
/// checked, so the numbers that appear are exactly the entries the person accepted; each is
/// read back under its own canonical name.
pub fn parse_accept_losses(form: &FormFields) -> (r: Vec<String>)
    ensures
        texts(r@) == accepted(form@),
{
    let ghost names = names_of(form@);
    let ghost pick = |n: Seq<char>| accept_index(n);
    let mut idx: Vec<usize> = Vec::new();
    let mut i: usize = 0;
    proof {
        assert(ints(idx@) =~= names.take(0).filter_map(pick));
    }
    while i < form.len()
        invariant
            names == names_of(form@),
            pick == (|n: Seq<char>| accept_index(n)),
            i <= form@.len(),
            ints(idx@) == names.take(i as int).filter_map(pick),
        decreases form@.len() - i,
    {
        let found = accept_index_of(form.name_at(i));
        proof {
            names.lemma_filter_map_take_succ(pick, i as int);
        }
        match found {
            Some(n) => {
                let ghost before = idx@;
                idx.push(n);
                proof {
                    assert(ints(idx@) =~= ints(before).push(n as int));
                }
            },
            None => {},
        }
        i = i + 1;
    }
    proof {
        assert(names.take(i as int) =~= names);
    }
    let sorted = sort_ascending(&idx);
    let ghost order = ints(sorted@);
    let ghost get = |k: int| lookup(form@, accept_key(k));
    let mut out: Vec<String> = Vec::new();
    let mut j: usize = 0;
    proof {
        assert(texts(out@) =~= order.take(0).filter_map(get));
    }
    while j < sorted.len()
        invariant
            order == ints(sorted@),
            get == (|k: int| lookup(form@, accept_key(k))),
            j <= sorted@.len(),
            texts(out@) == order.take(j as int).filter_map(get),
        decreases sorted@.len() - j,
    {
        let key = accept_key_string(sorted[j]);
        proof {
            order.lemma_filter_map_take_succ(get, j as int);
        }
        match form.get(key.as_str()) {
            Some(v) => {
                let ghost before = out@;
                out.push(v.clone());
                proof {
                    assert(texts(out@) =~= texts(before).push(v@));
                }
            },
            None => {},
        }
        j = j + 1;
    }
    proof {
        assert(order.take(j as int) =~= order);
    }
    out
}

} // verus!
