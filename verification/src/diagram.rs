//! The diagram view's words and addresses: the three diagram types, the names of node kinds and
//! edge groups, and the scopes a drawing can be narrowed to, with the token, address and
//! caption phrase each one has.

use vstd::prelude::*;
use crate::form::ints;
use crate::kinds::{key_before, key_of, key_texts, same_width, sort_by_keys};
use crate::layout::{url_text, url_text_of};
use crate::scope::GraphEdge;
use crate::text::{append_number, append_text, chars_equal, chars_of, decimal, join_texts, joined, texts};

verus! {

/// The three diagram types. The choice is kept in the address like every other view.
#[derive(Clone, Copy, PartialEq, Eq, Structural)]
pub enum DiagramView {
    Structure,
    Process,
    Control,
}

impl DiagramView {
    /// The address value of the view, carried in shareable links and in the export provenance.
    pub fn as_str(self) -> (r: &'static str)
        ensures
            r@ == view_token(self),
    {
        match self {
            DiagramView::Structure => "structure",
            DiagramView::Process => "process",
            DiagramView::Control => "control",
        }
    }

    /// The human label of the view, for the presentation caption.
    pub fn label(self) -> (r: &'static str)
        ensures
            r@ == view_label(self),
    {
        match self {
            DiagramView::Structure => "Structure",
            DiagramView::Process => "Process",
            DiagramView::Control => "Control",
        }
    }
}

/// The address value of a view.
pub open spec fn view_token(v: DiagramView) -> Seq<char> {
    match v {
        DiagramView::Structure => "structure"@,
        DiagramView::Process => "process"@,
        DiagramView::Control => "control"@,
    }
}

/// The human label of a view.
pub open spec fn view_label(v: DiagramView) -> Seq<char> {
    match v {
        DiagramView::Structure => "Structure"@,
        DiagramView::Process => "Process"@,
        DiagramView::Control => "Control"@,
    }
}

/// The view a request resolves to: the named view when the model declares it, otherwise the
/// structure view. The page, the export and the presentation share this one fallback, so the
/// three can never disagree about which diagram an address shows.
pub open spec fn resolved_view(has_process: bool, has_control: bool, requested: Option<Seq<char>>) -> DiagramView {
    if requested == Some("control"@) && has_control {
        DiagramView::Control
    } else if requested == Some("process"@) && has_process {
        DiagramView::Process
    } else {
        DiagramView::Structure
    }
}

pub fn resolve_view(has_process: bool, has_control: bool, requested: Option<&str>) -> (r: DiagramView)
    ensures
        r == resolved_view(
            has_process,
            has_control,
            match requested {
                Some(s) => Some(s@),
                None => None,
            },
        ),
{
    match requested {
        Some(s) => {
            let cs = chars_of(s);
            if chars_equal(&cs, "control") && has_control {
                DiagramView::Control
            } else if chars_equal(&cs, "process") && has_process {
                DiagramView::Process
            } else {
                DiagramView::Structure
            }
        },
        None => DiagramView::Structure,
    }
}

/// The node kinds in the order the filter bar lists them; other kinds follow, by name.
pub open spec fn kind_order() -> Seq<Seq<char>> {
    seq![
        "block"@,
        "requirement"@,
        "activity"@,
        "signal"@,
        "interface"@,
        "state"@,
        "stateMachine"@,
        "actor"@,
        "usecase"@,
    ]
}

/// The position of the first `x` in `s`, or the length of `s` when it has none.
pub open spec fn position_in(s: Seq<Seq<char>>, x: Seq<char>) -> int
    decreases s.len(),
{
    if s.len() == 0 {
        0
    } else if s[0] == x {
        0
    } else {
        1 + position_in(s.drop_first(), x)
    }
}

/// The rank of a kind in the filter bar's order: its position, or after all of them.
pub open spec fn kind_rank(kind: Seq<char>) -> int {
    position_in(kind_order(), kind)
}

/// The sort key of a node kind: its rank, then the kind itself.
pub fn kind_sort_key(kind: &str) -> (r: (usize, String))
    ensures
        r.0 == kind_rank(kind@),
        r.1@ == kind@,
{
    let cs = chars_of(kind);
    let order: [&str; 9] = [
        "block",
        "requirement",
        "activity",
        "signal",
        "interface",
        "state",
        "stateMachine",
        "actor",
        "usecase",
    ];
    let mut pos: usize = 0;
    proof {
        reveal_strlit("block");
        reveal_strlit("requirement");
        reveal_strlit("activity");
        reveal_strlit("signal");
        reveal_strlit("interface");
        reveal_strlit("state");
        reveal_strlit("stateMachine");
        reveal_strlit("actor");
        reveal_strlit("usecase");
        assert(forall|j: int| 0 <= j < 9 ==> #[trigger] order@[j]@ == kind_order()[j]);
    }
    while pos < 9 && !chars_equal(&cs, order[pos])
        invariant
            cs@ == kind@,
            pos <= 9,
            forall|j: int| 0 <= j < 9 ==> #[trigger] order@[j]@ == kind_order()[j],
            forall|j: int| 0 <= j < pos ==> kind_order()[j] != kind@,
        decreases 9 - pos,
    {
        pos = pos + 1;
    }
    proof {
        lemma_position_in(kind_order(), kind@, pos as int);
    }
    (pos, String::from_str(kind))
}

proof fn lemma_position_in(s: Seq<Seq<char>>, x: Seq<char>, i: int)
    requires
        0 <= i <= s.len(),
        i < s.len() ==> s[i] == x,
        forall|j: int| 0 <= j < i ==> s[j] != x,
    ensures
        position_in(s, x) == i,
    decreases i,
{
    if i > 0 {
        lemma_position_in(s.drop_first(), x, i - 1);
    }
}

/// The human label of a node kind, for the filter chip and the node's kind line.
pub open spec fn kind_words(kind: Seq<char>) -> Seq<char> {
    if kind == "stateMachine"@ {
        "state machine"@
    } else if kind == "usecase"@ {
        "use case"@
    } else {
        kind
    }
}

pub fn kind_label(kind: &str) -> (r: String)
    ensures
        r@ == kind_words(kind@),
{
    let cs = chars_of(kind);
    if chars_equal(&cs, "stateMachine") {
        String::from_str("state machine")
    } else if chars_equal(&cs, "usecase") {
        String::from_str("use case")
    } else {
        String::from_str(kind)
    }
}

/// The group an edge is drawn in, by its kind.
pub open spec fn edge_group_of(kind: Seq<char>) -> Seq<char> {
    if kind == "part"@ || kind == "contains"@ {
        "containment"@
    } else if kind == "dependency"@ {
        "dependency"@
    } else if kind == "include"@ || kind == "triggers"@ || kind == "transition"@ {
        "flow"@
    } else {
        "neutral"@
    }
}

pub fn edge_group(kind: &str) -> (r: &'static str)
    ensures
        r@ == edge_group_of(kind@),
{
    let cs = chars_of(kind);
    if chars_equal(&cs, "part") || chars_equal(&cs, "contains") {
        "containment"
    } else if chars_equal(&cs, "dependency") {
        "dependency"
    } else if chars_equal(&cs, "include") || chars_equal(&cs, "triggers") || chars_equal(&cs, "transition") {
        "flow"
    } else {
        "neutral"
    }
}

/// The arrowhead class for an edge group. The stylesheet names the accent arrow after the
/// token it wears, so a dependency edge needs the mapping: without it the arrowhead would match
/// no rule and be painted in the default black.
pub open spec fn arrow_group_of(group: Seq<char>) -> Seq<char> {
    if group == "dependency"@ {
        "accent"@
    } else if group == "containment"@ {
        "containment"@
    } else if group == "flow"@ {
        "flow"@
    } else {
        "neutral"@
    }
}

pub fn arrow_group(group: &str) -> (r: &'static str)
    ensures
        r@ == arrow_group_of(group@),
{
    let cs = chars_of(group);
    if chars_equal(&cs, "dependency") {
        "accent"
    } else if chars_equal(&cs, "containment") {
        "containment"
    } else if chars_equal(&cs, "flow") {
        "flow"
    } else {
        "neutral"
    }
}

// ---------------------------------------------------------------------------
// Scopes.

/// The default and the largest neighbourhood radius, in relationships.
pub const DEFAULT_HOPS: usize = 1;
pub const MAX_HOPS: usize = 3;

/// A scope that names something the model does not define is a request error, not a drawing
/// error: the two are kept apart so the handler can answer 404 or 400 correctly.
pub enum ScopeError {
    /// The scope centres on an element this model does not have.
    UnknownElement(String),
    /// The scope asks for a kind this model has no elements of.
    NoSuchKind(String),
}

impl ScopeError {
    pub fn message(&self) -> (r: String)
        ensures
            r@ == match self {
                ScopeError::UnknownElement(id) => "this model has no element "@ + id@,
                ScopeError::NoSuchKind(kind) => "this model has no "@ + kind@ + " elements"@,
            },
    {
        match self {
            ScopeError::UnknownElement(id) => {
                let mut s = String::from_str("this model has no element ");
                append_text(&mut s, id.as_str());
                s
            },
            ScopeError::NoSuchKind(kind) => {
                let mut s = String::from_str("this model has no ");
                append_text(&mut s, kind.as_str());
                append_text(&mut s, " elements");
                s
            },
        }
    }
}

/// The part of a model a drawing shows.
pub enum DiagramScope {
    /// Every element and every relationship: the only complete scope.
    Full,
    /// Only these element kinds, and the relationships among them.
    Kinds(Vec<String>),
    /// One element and everything within `hops` relationships of it, in either direction.
    Neighbourhood { element: String, hops: usize },
    /// One container and everything it contains, through part and contains edges.
    Containment { element: String },
}

/// The canonical token of a scope, written into the provenance line, the metadata element and
/// the file name: one spelling, so a scope can be named, quoted and searched for.
pub open spec fn scope_token(s: DiagramScope) -> Seq<char> {
    match s {
        DiagramScope::Full => "full"@,
        DiagramScope::Kinds(kinds) => "kinds:"@ + joined(texts(kinds@), ","@),
        DiagramScope::Neighbourhood { element, hops } => "neighbourhood:"@ + element@ + ":"@ + decimal(
            hops as nat,
        ),
        DiagramScope::Containment { element } => "containment:"@ + element@,
    }
}

/// The query that addresses a scope, so a link and the filter it reaches can never disagree
/// about what was asked for.
pub open spec fn scope_address(s: DiagramScope) -> Seq<char> {
    match s {
        DiagramScope::Full => "scope=full"@,
        DiagramScope::Kinds(kinds) => "scope=kinds&kinds="@ + joined(texts(kinds@), ","@),
        DiagramScope::Neighbourhood { element, hops } => "scope=neighbourhood&element="@ + url_text(element@)
            + "&hops="@ + decimal(hops as nat),
        DiagramScope::Containment { element } => "scope=containment&element="@ + url_text(element@),
    }
}

impl DiagramScope {
    pub fn as_str(&self) -> (r: String)
        ensures
            r@ == scope_token(*self),
    {
        match self {
            DiagramScope::Full => String::from_str("full"),
            DiagramScope::Kinds(kinds) => {
                let mut s = String::from_str("kinds:");
                let list = join_texts(kinds, ",");
                append_text(&mut s, list.as_str());
                s
            },
            DiagramScope::Neighbourhood { element, hops } => {
                let mut s = String::from_str("neighbourhood:");
                append_text(&mut s, element.as_str());
                append_text(&mut s, ":");
                append_number(&mut s, *hops as u64);
                s
            },
            DiagramScope::Containment { element } => {
                let mut s = String::from_str("containment:");
                append_text(&mut s, element.as_str());
                s
            },
        }
    }

    pub fn query(&self) -> (r: String)
        ensures
            r@ == scope_address(*self),
    {
        match self {
            DiagramScope::Full => String::from_str("scope=full"),
            DiagramScope::Kinds(kinds) => {
                let mut s = String::from_str("scope=kinds&kinds=");
                let list = join_texts(kinds, ",");
                append_text(&mut s, list.as_str());
                s
            },
            DiagramScope::Neighbourhood { element, hops } => {
                let mut s = String::from_str("scope=neighbourhood&element=");
                let e = url_text_of(element.as_str());
                append_text(&mut s, e.as_str());
                append_text(&mut s, "&hops=");
                append_number(&mut s, *hops as u64);
                s
            },
            DiagramScope::Containment { element } => {
                let mut s = String::from_str("scope=containment&element=");
                let e = url_text_of(element.as_str());
                append_text(&mut s, e.as_str());
                s
            },
        }
    }
}

/// The element a scope is centred on, resolved when the scope is applied so the caption can
/// name what the reader is looking at rather than only which id was asked for.
pub struct Focus {
    pub name: String,
    pub id: String,
}

/// The element as a person reads it: its name, with its id when the two differ.
pub open spec fn focus_words(f: Focus) -> Seq<char> {
    if f.name@ == f.id@ {
        f.id@
    } else {
        f.name@ + " ("@ + f.id@ + ")"@
    }
}

impl Focus {
    pub fn label(&self) -> (r: String)
        ensures
            r@ == focus_words(*self),
    {
        if self.name == self.id {
            self.id.clone()
        } else {
            let mut s = self.name.clone();
            append_text(&mut s, " (");
            append_text(&mut s, self.id.as_str());
            append_text(&mut s, ")");
            s
        }
    }
}

/// The texts an edge is drawn in order of: source, target, kind, label.
pub open spec fn edge_texts(e: GraphEdge) -> Seq<Seq<char>> {
    seq![e.source@, e.target@, e.kind@, e.label@]
}

/// Whether `order` lists every edge once, by source, target, kind and label, ties in the
/// model's own edge order.
pub open spec fn edges_in_draw_order(edges: Seq<GraphEdge>, order: Seq<int>) -> bool {
    &&& order.len() == edges.len()
    &&& forall|x: int| #[trigger] order.contains(x) <==> 0 <= x < edges.len()
    &&& forall|i: int, j: int| 0 <= i < j < order.len() ==> key_before(
        (0, edge_texts(edges[#[trigger] order[i]]), order[i]),
        (0, edge_texts(edges[#[trigger] order[j]]), order[j]),
    )
}

/// The order a drawing draws its edges in, by position: sorted by source, target, kind and
/// label, so the same model always draws, and exports, byte for byte the same picture.
pub fn edge_draw_order(edges: &Vec<GraphEdge>) -> (r: Vec<usize>)
    ensures
        edges_in_draw_order(edges@, ints(r@)),
{
    let mut keys: Vec<(usize, Vec<Vec<char>>)> = Vec::new();
    let mut i: usize = 0;
    while i < edges.len()
        invariant
            i <= edges@.len(),
            keys@.len() == i,
            forall|k: int| 0 <= k < i ==> #[trigger] keys@[k].0 == 0 && keys@[k].1@.len() == 4
                && key_texts(keys@[k].1@) == edge_texts(edges@[k]),
        decreases edges@.len() - i,
    {
        let e = &edges[i];
        let mut t: Vec<Vec<char>> = Vec::new();
        t.push(chars_of(e.source.as_str()));
        t.push(chars_of(e.target.as_str()));
        t.push(chars_of(e.kind.as_str()));
        t.push(chars_of(e.label.as_str()));
        proof {
            assert(key_texts(t@) =~= edge_texts(edges@[i as int]));
        }
        keys.push((0, t));
        i = i + 1;
    }
    proof {
        assert forall|a: int, b: int| 0 <= a < keys@.len() && 0 <= b < keys@.len() implies #[trigger] keys@[a].1@.len() == #[trigger] keys@[b].1@.len() by {
            assert(keys@[a].0 == 0 && keys@[b].0 == 0);
        }
    }
    let order = sort_by_keys(&keys);
    proof {
        let o = ints(order@);
        assert forall|a: int, b: int| 0 <= a < b < o.len() implies key_before(
            (0, edge_texts(edges@[#[trigger] o[a]]), o[a]),
            (0, edge_texts(edges@[#[trigger] o[b]]), o[b]),
        ) by {
            assert(o.contains(o[a]) && o.contains(o[b]));
            assert(keys@[o[a]].0 == 0 && keys@[o[b]].0 == 0);
            assert(key_of(keys@, o[a]) == (0int, edge_texts(edges@[o[a]]), o[a]));
            assert(key_of(keys@, o[b]) == (0int, edge_texts(edges@[o[b]]), o[b]));
        }
    }
    order
}

} // verus!
