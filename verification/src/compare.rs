//! The compare page: the two endpoints it reads, the section a diff key belongs to, and the
//! plain-words account of how each platform requirement's coverage differs between versions.

use vstd::prelude::*;
use crate::escape::{short_hash_text, short_text};
use crate::text::{append_text, chars_equal, chars_of, first_at, join_texts, joined, lemma_first_at, string_of, texts};

verus! {

/// The query parameters of the compare page: two endpoints, each a commit hash or a branch
/// name. Both are required.
pub struct CompareQuery {
    pub from: Option<String>,
    pub to: Option<String>,
}

/// The merge form body. There is no author field: the merge takes the author from the verified
/// identity, so a browser cannot put a name into the commit record. `holder` is optional; the
/// empty string means "no holder supplied".
pub struct MergeForm {
    pub branch: String,
    pub other: String,
    pub message: String,
    pub holder: String,
}

// ---------------------------------------------------------------------------
// The diff, grouped by section.

/// The section a diff key names: what precedes its first colon, or nothing when it has none.
pub open spec fn spec_section_of(key: Seq<char>) -> Seq<char> {
    match first_at(key, ':') {
        Some(i) => key.take(i),
        None => Seq::empty(),
    }
}

/// The section a diff key belongs to: what precedes its first colon, or the empty section for
/// a malformed key with no colon, so nothing is silently dropped.
pub fn section_of(key: &str) -> (r: String)
    ensures
        r@ == spec_section_of(key@),
{
    let cs = chars_of(key);
    let mut i: usize = 0;
    while i < cs.len() && cs[i] != ':'
        invariant
            cs@ == key@,
            i <= cs@.len(),
            forall|j: int| 0 <= j < i ==> cs@[j] != ':',
        decreases cs@.len() - i,
    {
        i = i + 1;
    }
    proof {
        lemma_first_at(key@, ':', i as int);
    }
    if i < cs.len() {
        let r = string_of(&cs, 0, i);
        proof {
            assert(cs@.subrange(0, i as int) =~= key@.take(i as int));
        }
        r
    } else {
        String::new()
    }
}

/// The sections a diff is grouped into, in display order, with the key prefix each collects.
/// The last, with the empty prefix, catches a malformed key that names no known section, so
/// nothing is silently dropped.
pub open spec fn section_keys() -> Seq<Seq<char>> {
    seq!["structure"@, "interfaces"@, "signals"@, "requirements"@, "state"@, "activity"@, "graphnode"@, "doc"@, ""@]
}

/// The human name of each section, in display order.
pub open spec fn section_names() -> Seq<Seq<char>> {
    seq![
        "Structure"@,
        "Interfaces"@,
        "Signals"@,
        "Requirements"@,
        "State machine"@,
        "Activities"@,
        "Graph nodes"@,
        "Document"@,
        "Other"@,
    ]
}

/// The position of the first `x` in `s`, or the length of `s` when it has none.
pub open spec fn index_in(s: Seq<Seq<char>>, x: Seq<char>) -> int
    decreases s.len(),
{
    if s.len() == 0 {
        0
    } else if s[0] == x {
        0
    } else {
        1 + index_in(s.drop_first(), x)
    }
}

/// The section a diff key is listed under.
pub open spec fn section_index(key: Seq<char>) -> int {
    let i = index_in(section_keys(), spec_section_of(key));
    if i < section_keys().len() {
        i
    } else {
        section_keys().len() - 1
    }
}

proof fn lemma_index_in(s: Seq<Seq<char>>, x: Seq<char>, i: int)
    requires
        0 <= i <= s.len(),
        i < s.len() ==> s[i] == x,
        forall|j: int| 0 <= j < i ==> s[j] != x,
    ensures
        index_in(s, x) == i,
    decreases i,
{
    if i > 0 {
        lemma_index_in(s.drop_first(), x, i - 1);
    }
}

/// The section a diff key is listed under.
pub fn section_index_of(key: &str) -> (r: usize)
    ensures
        r == section_index(key@),
{
    let section = section_of(key);
    let cs = chars_of(section.as_str());
    let keys: [&str; 9] = ["structure", "interfaces", "signals", "requirements", "state", "activity", "graphnode", "doc", ""];
    proof {
        reveal_strlit("structure");
        reveal_strlit("interfaces");
        reveal_strlit("signals");
        reveal_strlit("requirements");
        reveal_strlit("state");
        reveal_strlit("activity");
        reveal_strlit("graphnode");
        reveal_strlit("doc");
        reveal_strlit("");
        assert(forall|j: int| 0 <= j < 9 ==> #[trigger] keys@[j]@ == section_keys()[j]);
    }
    let mut i: usize = 0;
    while i < 9 && !chars_equal(&cs, keys[i])
        invariant
            cs@ == spec_section_of(key@),
            i <= 9,
            forall|j: int| 0 <= j < 9 ==> #[trigger] keys@[j]@ == section_keys()[j],
            forall|j: int| 0 <= j < i ==> section_keys()[j] != spec_section_of(key@),
        decreases 9 - i,
    {
        i = i + 1;
    }
    proof {
        lemma_index_in(section_keys(), spec_section_of(key@), i as int);
    }
    if i < 9 {
        i
    } else {
        8
    }
}

/// The diff of one section: the keys added, removed and changed, in report order.
pub struct SectionDiff {
    pub name: &'static str,
    pub added: Vec<String>,
    pub removed: Vec<String>,
    pub changed: Vec<String>,
}

/// The keys of a list that belong to section `s`, in list order.
pub open spec fn keys_in(keys: Seq<Seq<char>>, s: int) -> Seq<Seq<char>> {
    keys.filter(|k: Seq<char>| section_index(k) == s)
}

/// The keys of a list that belong to section `s`.
fn collect_section(keys: &Vec<String>, s: usize) -> (r: Vec<String>)
    ensures
        texts(r@) == keys_in(texts(keys@), s as int),
{
    let ghost all = texts(keys@);
    let ghost pick = |k: Seq<char>| section_index(k) == s as int;
    let mut out: Vec<String> = Vec::new();
    let mut i: usize = 0;
    proof {
        assert(texts(out@) =~= all.take(0).filter(pick));
    }
    while i < keys.len()
        invariant
            all == texts(keys@),
            pick == (|k: Seq<char>| section_index(k) == s as int),
            i <= keys@.len(),
            texts(out@) == all.take(i as int).filter(pick),
        decreases keys@.len() - i,
    {
        proof {
            assert(all.take(i + 1) =~= all.take(i as int).push(all[i as int]));
            all.take(i as int).lemma_filter_push(all[i as int], pick);
        }
        if section_index_of(keys[i].as_str()) == s {
            let ghost before = out@;
            out.push(keys[i].clone());
            proof {
                assert(texts(out@) =~= texts(before).push(all[i as int]));
            }
        }
        i = i + 1;
    }
    proof {
        assert(all.take(i as int) =~= all);
    }
    out
}

/// Group the engine's diff report by section: one entry per section, in display order, each
/// with the keys the report lists as added (extra), removed (missing) and changed.
pub fn section_diffs(missing: &Vec<String>, extra: &Vec<String>, changed: &Vec<String>) -> (r: Vec<SectionDiff>)
    ensures
        r@.len() == section_keys().len(),
        forall|s: int| 0 <= s < r@.len() ==> (#[trigger] r@[s]).name@ == section_names()[s]
            && texts(r@[s].removed@) == keys_in(texts(missing@), s) && texts(r@[s].added@) == keys_in(texts(extra@), s)
            && texts(r@[s].changed@) == keys_in(texts(changed@), s),
{
    let names: [&'static str; 9] = [
        "Structure",
        "Interfaces",
        "Signals",
        "Requirements",
        "State machine",
        "Activities",
        "Graph nodes",
        "Document",
        "Other",
    ];
    proof {
        reveal_strlit("Structure");
        reveal_strlit("Interfaces");
        reveal_strlit("Signals");
        reveal_strlit("Requirements");
        reveal_strlit("State machine");
        reveal_strlit("Activities");
        reveal_strlit("Graph nodes");
        reveal_strlit("Document");
        reveal_strlit("Other");
        assert(forall|j: int| 0 <= j < 9 ==> #[trigger] names@[j]@ == section_names()[j]);
    }
    let mut out: Vec<SectionDiff> = Vec::new();
    let mut s: usize = 0;
    while s < 9
        invariant
            s <= 9,
            out@.len() == s,
            forall|j: int| 0 <= j < 9 ==> #[trigger] names@[j]@ == section_names()[j],
            forall|t: int| 0 <= t < s ==> (#[trigger] out@[t]).name@ == section_names()[t]
                && texts(out@[t].removed@) == keys_in(texts(missing@), t) && texts(out@[t].added@) == keys_in(texts(extra@), t)
                && texts(out@[t].changed@) == keys_in(texts(changed@), t),
        decreases 9 - s,
    {
        out.push(
            SectionDiff {
                name: names[s],
                added: collect_section(extra, s),
                removed: collect_section(missing, s),
                changed: collect_section(changed, s),
            },
        );
        s = s + 1;
    }
    out
}

/// What `serde_json` makes of a text read as a JSON array of strings, when it is one.
pub uninterp spec fn string_list_json(s: Seq<char>) -> Option<Seq<Seq<char>>>;

/// Read a text as a JSON array of strings (`serde_json::from_str::<Vec<String>>`): the strings,
/// or nothing when the text is not such an array. The JSON grammar is serde_json's; the result
/// is a function of the text alone, and only that is stated here.
#[verifier::external_body]
fn parse_string_list(key: &str) -> (r: Option<Vec<String>>)
    ensures
        match string_list_json(key@) {
            Some(v) => r is Some && texts(r->0@) == v,
            None => r is None,
        },
{
    serde_json::from_str::<Vec<String>>(key).ok()
}

/// Part `i` of a list, or nothing.
pub open spec fn part(parts: Seq<Seq<char>>, i: int) -> Seq<char> {
    if 0 <= i < parts.len() {
        parts[i]
    } else {
        Seq::empty()
    }
}

/// An edge key as it reads: source, arrow, target, and the kind (with the label when there is
/// one) in brackets.
pub open spec fn edge_words(parts: Seq<Seq<char>>) -> Seq<char> {
    if part(parts, 3).len() == 0 {
        part(parts, 0) + " → "@ + part(parts, 1) + " ["@ + part(parts, 2) + "]"@
    } else {
        part(parts, 0) + " → "@ + part(parts, 1) + " ["@ + part(parts, 2) + " "@ + part(parts, 3) + "]"@
    }
}

/// The readable form of an edge key given the parts it holds.
pub fn edge_text(parts: &Vec<String>) -> (r: String)
    ensures
        r@ == edge_words(texts(parts@)),
{
    let empty = String::new();
    let source = if parts.len() > 0 { &parts[0] } else { &empty };
    let target = if parts.len() > 1 { &parts[1] } else { &empty };
    let kind = if parts.len() > 2 { &parts[2] } else { &empty };
    let label = if parts.len() > 3 { &parts[3] } else { &empty };
    let mut out = source.clone();
    append_text(&mut out, " → ");
    append_text(&mut out, target.as_str());
    append_text(&mut out, " [");
    append_text(&mut out, kind.as_str());
    if !label.as_str().is_empty() {
        append_text(&mut out, " ");
        append_text(&mut out, label.as_str());
    }
    append_text(&mut out, "]");
    out
}

/// An edge key is a JSON array of source, target, kind and label; render it readably, or as it
/// is when it is not such an array.
pub fn edge_display(key: &str) -> (r: String)
    ensures
        r@ == match string_list_json(key@) {
            Some(parts) => edge_words(parts),
            None => key@,
        },
{
    match parse_string_list(key) {
        Some(parts) => edge_text(&parts),
        None => String::from_str(key),
    }
}

// ---------------------------------------------------------------------------
// The variant impact panel.

/// The coverage state of a platform requirement across the two compared versions.
#[derive(Clone, Copy, Debug, PartialEq, Eq, Structural)]
pub enum ImpactState {
    Both,
    FromOnly,
    ToOnly,
    Neither,
}

impl ImpactState {
    /// The state as the page's data attribute carries it.
    pub fn data(self) -> (r: &'static str)
        ensures
            r@ == match self {
                ImpactState::Both => "both"@,
                ImpactState::FromOnly => "from"@,
                ImpactState::ToOnly => "to"@,
                ImpactState::Neither => "neither"@,
            },
    {
        match self {
            ImpactState::Both => "both",
            ImpactState::FromOnly => "from",
            ImpactState::ToOnly => "to",
            ImpactState::Neither => "neither",
        }
    }
}

/// One platform requirement's row of the impact panel.
pub struct ImpactRequirement {
    pub req_id: String,
    pub name: String,
    pub state: ImpactState,
}

/// The chip class for a coverage state: the covered and uncovered chips for "both" and
/// "neither", the partial chip for a one-sided difference.
pub fn state_chip_class(state: ImpactState) -> (r: &'static str)
    ensures
        r@ == match state {
            ImpactState::Both => "impact-state covered"@,
            ImpactState::Neither => "impact-state uncovered"@,
            _ => "impact-state impact-partial"@,
        },
{
    match state {
        ImpactState::Both => "impact-state covered",
        ImpactState::Neither => "impact-state uncovered",
        ImpactState::FromOnly | ImpactState::ToOnly => "impact-state impact-partial",
    }
}

/// The chip label for a coverage state, naming the side for a one-sided difference.
pub open spec fn chip_text(state: ImpactState, from_label: Seq<char>, to_label: Seq<char>) -> Seq<char> {
    match state {
        ImpactState::Both => "both"@,
        ImpactState::FromOnly => from_label + " only"@,
        ImpactState::ToOnly => to_label + " only"@,
        ImpactState::Neither => "neither"@,
    }
}

pub fn state_chip_text(state: ImpactState, from_label: &str, to_label: &str) -> (r: String)
    ensures
        r@ == chip_text(state, from_label@, to_label@),
{
    match state {
        ImpactState::Both => String::from_str("both"),
        ImpactState::FromOnly => {
            let mut s = String::from_str(from_label);
            append_text(&mut s, " only");
            s
        },
        ImpactState::ToOnly => {
            let mut s = String::from_str(to_label);
            append_text(&mut s, " only");
            s
        },
        ImpactState::Neither => String::from_str("neither"),
    }
}

/// A short label for one compare side: the branch name as typed, or the short hash when the
/// endpoint was itself the commit hash it resolved to.
pub fn side_label(endpoint: &str, resolved: &str) -> (r: String)
    ensures
        endpoint@ == resolved@ ==> r@ == short_text(endpoint@),
        endpoint@ != resolved@ ==> r@ == endpoint@,
{
    if chars_equal(&chars_of(endpoint), resolved) {
        short_hash_text(endpoint)
    } else {
        endpoint.to_owned()
    }
}

/// "CS-1", "CS-1 and CS-2", or "CS-1, CS-2 and CS-3".
pub open spec fn id_list(ids: Seq<Seq<char>>) -> Seq<char> {
    if ids.len() == 0 {
        Seq::empty()
    } else if ids.len() == 1 {
        ids[0]
    } else {
        joined(ids.drop_last(), ", "@) + " and "@ + ids.last()
    }
}

/// Requirement ids joined for a sentence: commas between all but the last two, "and" before
/// the last.
pub fn join_ids(ids: &Vec<String>) -> (r: String)
    ensures
        r@ == id_list(texts(ids@)),
{
    let n = ids.len();
    if n == 0 {
        return String::new();
    }
    if n == 1 {
        return ids[0].clone();
    }
    let mut rest: Vec<String> = Vec::new();
    let mut i: usize = 0;
    while i < n - 1
        invariant
            n == ids@.len(),
            n >= 2,
            i <= n - 1,
            texts(rest@) == texts(ids@).take(i as int),
        decreases n - 1 - i,
    {
        let ghost before = rest@;
        rest.push(ids[i].clone());
        proof {
            assert(texts(rest@) =~= texts(before).push(ids@[i as int]@));
            assert(texts(ids@).take(i + 1) =~= texts(ids@).take(i as int).push(ids@[i as int]@));
        }
        i = i + 1;
    }
    proof {
        assert(texts(ids@).take(n - 1) =~= texts(ids@).drop_last());
    }
    let mut out = join_texts(&rest, ", ");
    append_text(&mut out, " and ");
    append_text(&mut out, ids[n - 1].as_str());
    out
}

/// "Requirement CS-1 is …" / "Requirements CS-1 and CS-2 are …", subject and verb agreeing.
pub open spec fn group_text(ids: Seq<Seq<char>>, predicate: Seq<char>) -> Seq<char> {
    let subject = if ids.len() == 1 {
        "Requirement"@
    } else {
        "Requirements"@
    };
    let verb = if ids.len() == 1 {
        "is"@
    } else {
        "are"@
    };
    subject + " "@ + id_list(ids) + " "@ + verb + " "@ + predicate
}

pub fn group_phrase(ids: &Vec<String>, predicate: &str) -> (r: String)
    ensures
        r@ == group_text(texts(ids@), predicate@),
{
    let one = ids.len() == 1;
    let mut out = String::from_str(if one {
        "Requirement"
    } else {
        "Requirements"
    });
    append_text(&mut out, " ");
    let list = join_ids(ids);
    append_text(&mut out, list.as_str());
    append_text(&mut out, " ");
    append_text(
        &mut out,
        if one {
            "is"
        } else {
            "are"
        },
    );
    append_text(&mut out, " ");
    append_text(&mut out, predicate);
    out
}

/// The ids of the requirements in one coverage state, in row order.
pub open spec fn ids_in(rows: Seq<ImpactRequirement>, state: ImpactState) -> Seq<Seq<char>>
    decreases rows.len(),
{
    if rows.len() == 0 {
        Seq::empty()
    } else if rows.last().state == state {
        ids_in(rows.drop_last(), state).push(rows.last().req_id@)
    } else {
        ids_in(rows.drop_last(), state)
    }
}

/// The clause for one coverage state, when any requirement is in it.
pub open spec fn clause(rows: Seq<ImpactRequirement>, state: ImpactState, predicate: Seq<char>) -> Seq<Seq<char>> {
    if ids_in(rows, state).len() > 0 {
        seq![group_text(ids_in(rows, state), predicate)]
    } else {
        Seq::empty()
    }
}

/// The clauses of the summary: both, the from side only, the to side only, neither.
pub open spec fn summary_clauses(rows: Seq<ImpactRequirement>, from_label: Seq<char>, to_label: Seq<char>) -> Seq<Seq<char>> {
    clause(rows, ImpactState::Both, "satisfied in both versions"@) + clause(
        rows,
        ImpactState::FromOnly,
        "satisfied only in "@ + from_label,
    ) + clause(rows, ImpactState::ToOnly, "satisfied only in "@ + to_label) + clause(
        rows,
        ImpactState::Neither,
        "satisfied in neither version"@,
    )
}

/// The plain-words summary of the impact panel.
pub open spec fn summary_text(rows: Seq<ImpactRequirement>, from_label: Seq<char>, to_label: Seq<char>) -> Seq<char> {
    let parts = summary_clauses(rows, from_label, to_label);
    if parts.len() == 0 {
        "No platform requirements to compare."@
    } else {
        joined(parts, "; "@) + "."@
    }
}

/// The ids of the rows in one coverage state.
fn ids_with(rows: &Vec<ImpactRequirement>, state: ImpactState) -> (r: Vec<String>)
    ensures
        texts(r@) == ids_in(rows@, state),
{
    let mut out: Vec<String> = Vec::new();
    let mut i: usize = 0;
    proof {
        assert(rows@.take(0) =~= Seq::<ImpactRequirement>::empty());
    }
    while i < rows.len()
        invariant
            i <= rows@.len(),
            texts(out@) == ids_in(rows@.take(i as int), state),
        decreases rows@.len() - i,
    {
        proof {
            assert(rows@.take(i + 1).drop_last() =~= rows@.take(i as int));
        }
        if rows[i].state == state {
            let ghost before = out@;
            out.push(rows[i].req_id.clone());
            proof {
                assert(texts(out@) =~= texts(before).push(rows@[i as int].req_id@));
            }
        }
        i = i + 1;
    }
    proof {
        assert(rows@.take(i as int) =~= rows@);
    }
    out
}

/// Adds the clause for one coverage state.
fn push_clause(parts: &mut Vec<String>, rows: &Vec<ImpactRequirement>, state: ImpactState, predicate: &str)
    ensures
        texts(final(parts)@) == texts(old(parts)@) + clause(rows@, state, predicate@),
{
    let ids = ids_with(rows, state);
    if ids.len() > 0 {
        let phrase = group_phrase(&ids, predicate);
        let ghost before = parts@;
        parts.push(phrase);
        proof {
            assert(texts(parts@) =~= texts(before) + clause(rows@, state, predicate@));
        }
    } else {
        proof {
            assert(texts(parts@) =~= texts(parts@) + clause(rows@, state, predicate@));
        }
    }
}

/// The plain-words summary: one clause per coverage state that has requirements, in the order
/// both, the from side only, the to side only, neither.
pub fn summary_line(requirements: &Vec<ImpactRequirement>, from_label: &str, to_label: &str) -> (r: String)
    ensures
        r@ == summary_text(requirements@, from_label@, to_label@),
{
    let mut parts: Vec<String> = Vec::new();
    proof {
        assert(texts(parts@) =~= Seq::<Seq<char>>::empty());
    }
    push_clause(&mut parts, requirements, ImpactState::Both, "satisfied in both versions");
    let mut from_clause = String::from_str("satisfied only in ");
    append_text(&mut from_clause, from_label);
    push_clause(&mut parts, requirements, ImpactState::FromOnly, from_clause.as_str());
    let mut to_clause = String::from_str("satisfied only in ");
    append_text(&mut to_clause, to_label);
    push_clause(&mut parts, requirements, ImpactState::ToOnly, to_clause.as_str());
    push_clause(&mut parts, requirements, ImpactState::Neither, "satisfied in neither version");
    proof {
        assert(texts(parts@) =~= summary_clauses(requirements@, from_label@, to_label@));
    }
    if parts.len() == 0 {
        String::from_str("No platform requirements to compare.")
    } else {
        let mut out = join_texts(&parts, "; ");
        append_text(&mut out, ".");
        out
    }
}

} // verus!
