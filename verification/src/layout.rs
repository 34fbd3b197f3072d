//! The page shell's navigation: the models a caller may reach, the current one, the section and
//! version being viewed, and the versions of the current model to switch to.

use vstd::prelude::*;
use vstd::relations::sorted_by;
use vstd::utf8::encode_utf8;
use crate::escape::{percent_encode, urlencode};
use crate::number::{parse_i64, parse_i64_of};
use crate::order::{chars_less, lemma_lex_asymmetric, lemma_text_order_total, lex_lt, text_order};
use crate::text::{append_text, chars_of, texts};

verus! {

/// One commit of a model's history, as the navigation shows and walks it.
pub struct Commit {
    pub hash: String,
    pub parents: Vec<String>,
    pub author: String,
    pub branch: String,
    pub message: String,
    /// Seconds since the epoch, as the store writes them.
    pub created_at: String,
}

/// Everything the shell needs to render global navigation: the reachable models, the current
/// one, the current section and (for a commit-scoped view) the branch and commit being shown.
pub struct Nav {
    pub projects: Vec<String>,
    pub current: Option<String>,
    pub section: Option<&'static str>,
    pub branch: Option<String>,
    pub commit: Option<String>,
    /// Every version (branch) of the current project, as (name, tip), for the version
    /// selector in the context bar.
    pub branches: Vec<(String, String)>,
    /// Recent commits reachable from the branch tips, newest first, so the selector can offer
    /// a commit as a version to switch to.
    pub recent_commits: Vec<Commit>,
    /// Whether the caller may write the current project, so the context bar never offers an
    /// action (new version, make current) the caller cannot perform.
    pub can_write: bool,
}

/// The text an optional string holds, or nothing.
pub open spec fn opt_text(s: Option<String>) -> Option<Seq<char>> {
    match s {
        Some(v) => Some(v@),
        None => None,
    }
}

/// The listed names the caller may reach, in listing order.
pub open spec fn reachable_names(listed: Seq<Seq<char>>, reach: Seq<bool>) -> Seq<Seq<char>>
    decreases listed.len(),
{
    if listed.len() == 0 || reach.len() == 0 {
        Seq::empty()
    } else {
        let rest = reachable_names(listed.drop_last(), reach.drop_last());
        if reach.last() {
            rest.push(listed.last())
        } else {
            rest
        }
    }
}

/// Whether text `a` comes strictly before text `b`.
fn text_less(a: &String, b: &String) -> (r: bool)
    ensures
        r == lex_lt(a@, b@),
{
    chars_less(&chars_of(a.as_str()), &chars_of(b.as_str()))
}

/// The names in text order.
fn sort_names(v: Vec<String>) -> (r: Vec<String>)
    ensures
        texts(r@) == texts(v@).sort_by(text_order()),
{
    let ghost leq = text_order();
    let ghost all = texts(v@);
    let mut r: Vec<String> = Vec::new();
    let mut i: usize = 0;
    proof {
        lemma_text_order_total();
        assert(texts(r@) =~= Seq::<Seq<char>>::empty());
        assert(all.take(0) =~= Seq::<Seq<char>>::empty());
    }
    while i < v.len()
        invariant
            all == texts(v@),
            leq == text_order(),
            i <= v@.len(),
            vstd::relations::total_ordering(leq),
            sorted_by(texts(r@), leq),
            texts(r@).to_multiset() == all.take(i as int).to_multiset(),
        decreases v@.len() - i,
    {
        let x = &v[i];
        let mut p: usize = 0;
        while p < r.len() && !text_less(x, &r[p])
            invariant
                p <= r@.len(),
                forall|j: int| 0 <= j < p ==> !lex_lt(x@, #[trigger] r@[j]@),
            decreases r@.len() - p,
        {
            p = p + 1;
        }
        let ghost old_r = r@;
        let ghost o = texts(old_r);
        r.insert(p, x.clone());
        proof {
            broadcast use vstd::seq_lib::group_to_multiset_ensures;
            assert(texts(r@) =~= o.insert(p as int, x@));
            assert forall|a: int, b: int| 0 <= a < b < texts(r@).len() implies #[trigger] leq(texts(r@)[a], texts(r@)[b]) by {
                let t = texts(r@);
                if b < p {
                    assert(leq(o[a], o[b]));
                } else if b == p {
                    assert(!lex_lt(x@, old_r[a]@));
                } else if a < p {
                    assert(!lex_lt(x@, old_r[a]@));
                    assert(lex_lt(x@, old_r[p as int]@));
                    assert(leq(o[a], x@));
                    lemma_lex_asymmetric(x@, o[p as int]);
                    assert(leq(x@, o[p as int]));
                    if p < b - 1 {
                        assert(leq(o[p as int], o[b - 1]));
                    }
                } else if a == p {
                    assert(lex_lt(x@, old_r[p as int]@));
                    lemma_lex_asymmetric(x@, o[p as int]);
                    assert(leq(x@, o[p as int]));
                    if p < b - 1 {
                        assert(leq(o[p as int], o[b - 1]));
                    }
                } else {
                    assert(leq(o[a - 1], o[b - 1]));
                }
            }
            assert(o.insert(p as int, x@) =~= o.take(p as int) + seq![x@] + o.skip(p as int));
            assert(o =~= o.take(p as int) + o.skip(p as int));
            vstd::seq_lib::lemma_multiset_commutative(o.take(p as int), seq![x@]);
            vstd::seq_lib::lemma_multiset_commutative(o.take(p as int) + seq![x@], o.skip(p as int));
            vstd::seq_lib::lemma_multiset_commutative(o.take(p as int), o.skip(p as int));
            assert(all.take(i + 1) =~= all.take(i as int).push(x@));
            assert(seq![x@].to_multiset() =~= Seq::<Seq<char>>::empty().push(x@).to_multiset()) by {
                assert(seq![x@] =~= Seq::<Seq<char>>::empty().push(x@));
            }
            assert(Seq::<Seq<char>>::empty().to_multiset() =~= vstd::multiset::Multiset::<Seq<char>>::empty()) by {
                broadcast use vstd::multiset::group_multiset_axioms;
                assert(Seq::<Seq<char>>::empty().to_multiset().len() == 0);
            }
            assert(texts(r@).to_multiset() =~= all.take(i + 1).to_multiset()) by {
                broadcast use vstd::multiset::group_multiset_axioms;
            }
        }
        i = i + 1;
    }
    proof {
        assert(all.take(i as int) =~= all);
        all.lemma_sort_by_ensures(leq);
        vstd::seq_lib::lemma_sorted_unique(texts(r@), all.sort_by(leq), leq);
    }
    r
}

impl Nav {
    /// The models a caller may reach, filtered exactly as the JSON list handler filters them,
    /// so the navigator can never disclose a project name the caller is not in scope for, and
    /// listed in name order. The versions are kept only when there is a current model.
    pub fn load(
        listed: &Vec<String>,
        reachable: &Vec<bool>,
        current: Option<&str>,
        branches: Vec<(String, String)>,
        recent_commits: Vec<Commit>,
        can_write: bool,
    ) -> (r: Nav)
        requires
            listed@.len() == reachable@.len(),
        ensures
            texts(r.projects@) == reachable_names(texts(listed@), reachable@).sort_by(text_order()),
            match current {
                Some(c) => r.current is Some && r.current->0@ == c@ && r.branches@ == branches@
                    && r.recent_commits@ == recent_commits@,
                None => r.current is None && r.branches@.len() == 0 && r.recent_commits@.len() == 0,
            },
            r.section is None,
            r.branch is None,
            r.commit is None,
            r.can_write == can_write,
    {
        let ghost names = texts(listed@);
        let mut projects: Vec<String> = Vec::new();
        let mut i: usize = 0;
        proof {
            assert(texts(projects@) =~= reachable_names(names.take(0), reachable@.take(0)));
        }
        while i < listed.len()
            invariant
                names == texts(listed@),
                listed@.len() == reachable@.len(),
                i <= listed@.len(),
                texts(projects@) == reachable_names(names.take(i as int), reachable@.take(i as int)),
            decreases listed@.len() - i,
        {
            proof {
                assert(names.take(i + 1).drop_last() =~= names.take(i as int));
                assert(reachable@.take(i + 1).drop_last() =~= reachable@.take(i as int));
            }
            if reachable[i] {
                let ghost before = projects@;
                projects.push(listed[i].clone());
                proof {
                    assert(texts(projects@) =~= texts(before).push(names[i as int]));
                }
            }
            i = i + 1;
        }
        proof {
            assert(names.take(i as int) =~= names);
            assert(reachable@.take(i as int) =~= reachable@);
        }
        let projects = sort_names(projects);
        match current {
            Some(c) => Nav {
                projects,
                current: Some(String::from_str(c)),
                section: None,
                branch: None,
                commit: None,
                branches,
                recent_commits,
                can_write,
            },
            None => Nav {
                projects,
                current: None,
                section: None,
                branch: None,
                commit: None,
                branches: Vec::new(),
                recent_commits: Vec::new(),
                can_write,
            },
        }
    }

    /// The sign-in and error pages have no model context.
    pub fn none() -> (r: Nav)
        ensures
            r.projects@.len() == 0,
            r.current is None,
            r.section is None,
            r.branch is None,
            r.commit is None,
            r.branches@.len() == 0,
            r.recent_commits@.len() == 0,
            !r.can_write,
    {
        Nav {
            projects: Vec::new(),
            current: None,
            section: None,
            branch: None,
            commit: None,
            branches: Vec::new(),
            recent_commits: Vec::new(),
            can_write: false,
        }
    }
}

/// The URL form of a text.
pub open spec fn url_text(s: Seq<char>) -> Seq<char> {
    percent_encode(encode_utf8(s))
}

/// The URL form of a text.
pub fn url_text_of(s: &str) -> (r: String)
    ensures
        r@ == url_text(s@),
{
    urlencode(s)
}

/// The address of a section for the current model, with the version being viewed.
pub open spec fn section_address(
    current: Option<Seq<char>>,
    branch: Option<Seq<char>>,
    commit: Option<Seq<char>>,
    key: Seq<char>,
) -> Seq<char> {
    let project = match current {
        Some(p) => p,
        None => Seq::empty(),
    };
    let base = "/ui/projects/"@ + url_text(project) + "/"@ + key;
    match commit {
        Some(c) => base + "?commit="@ + url_text(c),
        None => match branch {
            Some(b) => base + "?branch="@ + url_text(b),
            None => base,
        },
    }
}

/// The address of a section for the current model, preserving the branch or commit being
/// viewed, so moving between commit-scoped sections keeps the same version. A commit wins over
/// a branch; sections that are project-wide ignore the query, so carrying it is harmless.
pub fn section_href(nav: &Nav, key: &str) -> (r: String)
    ensures
        r@ == section_address(opt_text(nav.current), opt_text(nav.branch), opt_text(nav.commit), key@),
{
    let mut url = String::from_str("/ui/projects/");
    match &nav.current {
        Some(p) => {
            let e = urlencode(p.as_str());
            append_text(&mut url, e.as_str());
        },
        None => {
            let e = urlencode("");
            proof {
                assert(""@ =~= Seq::<char>::empty()) by {
                    reveal_strlit("");
                }
            }
            append_text(&mut url, e.as_str());
        },
    }
    append_text(&mut url, "/");
    append_text(&mut url, key);
    match &nav.commit {
        Some(c) => {
            append_text(&mut url, "?commit=");
            let e = urlencode(c.as_str());
            append_text(&mut url, e.as_str());
        },
        None => match &nav.branch {
            Some(b) => {
                append_text(&mut url, "?branch=");
                let e = urlencode(b.as_str());
                append_text(&mut url, e.as_str());
            },
            None => {},
        },
    }
    url
}

/// The endpoint that identifies the version being viewed, for a compare `from`: the branch
/// name when there is one, otherwise the commit hash.
pub fn current_ref(nav: &Nav) -> (r: Option<String>)
    ensures
        opt_text(r) == match opt_text(nav.branch) {
            Some(b) => Some(b),
            None => opt_text(nav.commit),
        },
{
    match &nav.branch {
        Some(b) => Some(b.clone()),
        None => match &nav.commit {
            Some(c) => Some(c.clone()),
            None => None,
        },
    }
}

/// A commit's creation time as seconds since the epoch; a value that does not read as one
/// counts as the epoch itself.
pub open spec fn time_of(c: Commit) -> int {
    match parse_i64(c.created_at@) {
        Some(t) => t,
        None => 0,
    }
}

/// A commit's creation time, for newest-first ordering.
pub fn commit_time(commit: &Commit) -> (r: i64)
    ensures
        r == time_of(*commit),
{
    match parse_i64_of(&chars_of(commit.created_at.as_str())) {
        Some(t) => t,
        None => 0,
    }
}

// ---------------------------------------------------------------------------
// The recent commits of a project.

/// `c` placed into a list that is newest first: after every commit at least as new.
pub open spec fn insert_by_time(sorted: Seq<Commit>, c: Commit) -> Seq<Commit>
    decreases sorted.len(),
{
    if sorted.len() == 0 {
        seq![c]
    } else if time_of(sorted.last()) >= time_of(c) {
        sorted.push(c)
    } else {
        insert_by_time(sorted.drop_last(), c).push(sorted.last())
    }
}

/// The commits ordered newest first; commits of the same time keep the order they were found
/// in.
pub open spec fn newest_first(found: Seq<Commit>) -> Seq<Commit>
    decreases found.len(),
{
    if found.len() == 0 {
        Seq::empty()
    } else {
        insert_by_time(newest_first(found.drop_last()), found.last())
    }
}

proof fn lemma_insert_at(sorted: Seq<Commit>, c: Commit, p: int)
    requires
        0 <= p <= sorted.len(),
        forall|j: int| p <= j < sorted.len() ==> time_of(#[trigger] sorted[j]) < time_of(c),
        p == 0 || time_of(sorted[p - 1]) >= time_of(c),
    ensures
        insert_by_time(sorted, c) == sorted.insert(p, c),
    decreases sorted.len(),
{
    if sorted.len() == 0 {
        assert(sorted.insert(p, c) =~= seq![c]);
    } else if p == sorted.len() {
        assert(sorted.insert(p, c) =~= sorted.push(c));
    } else {
        let rest = sorted.drop_last();
        assert(time_of(sorted[sorted.len() - 1]) < time_of(c));
        assert forall|j: int| p <= j < rest.len() implies time_of(#[trigger] rest[j]) < time_of(c) by {
            assert(rest[j] == sorted[j]);
        }
        if p > 0 {
            assert(rest[p - 1] == sorted[p - 1]);
        }
        lemma_insert_at(rest, c, p);
        assert(rest.insert(p, c).push(sorted.last()) =~= sorted.insert(p, c));
    }
}

/// Whether a list of commits is ordered newest first.
pub open spec fn is_newest_first(s: Seq<Commit>) -> bool {
    forall|i: int, j: int| 0 <= i < j < s.len() ==> time_of(#[trigger] s[i]) >= time_of(#[trigger] s[j])
}

proof fn lemma_insert_keeps_order(sorted: Seq<Commit>, c: Commit)
    requires
        is_newest_first(sorted),
    ensures
        is_newest_first(insert_by_time(sorted, c)),
        insert_by_time(sorted, c).to_multiset() == sorted.to_multiset().insert(c),
    decreases sorted.len(),
{
    broadcast use vstd::seq_lib::group_to_multiset_ensures;
    if sorted.len() == 0 {
        assert(seq![c] =~= sorted.push(c));
    } else if time_of(sorted.last()) >= time_of(c) {
    } else {
        let rest = sorted.drop_last();
        assert forall|i: int, j: int| 0 <= i < j < rest.len() implies time_of(#[trigger] rest[i]) >= time_of(#[trigger] rest[j]) by {
            assert(rest[i] == sorted[i] && rest[j] == sorted[j]);
        }
        lemma_insert_keeps_order(rest, c);
        let ins = insert_by_time(rest, c);
        let r = ins.push(sorted.last());
        assert forall|i: int, j: int| 0 <= i < j < r.len() implies time_of(#[trigger] r[i]) >= time_of(#[trigger] r[j]) by {
            if j == r.len() - 1 {
                assert(r[j] == sorted.last());
                assert(ins.to_multiset().count(r[i]) > 0);
                assert(ins.contains(r[i]));
                if r[i] != c {
                    assert(rest.to_multiset().count(r[i]) > 0);
                    let k = choose|k: int| 0 <= k < rest.len() && rest[k] == r[i];
                    assert(rest[k] == sorted[k]);
                }
            }
        }
        assert(sorted =~= rest.push(sorted.last()));
    }
}

/// Commits ordered newest first are ordered newest first, and are the commits that were
/// found, each as often as it was found.
pub proof fn lemma_newest_first(found: Seq<Commit>)
    ensures
        is_newest_first(newest_first(found)),
        newest_first(found).to_multiset() == found.to_multiset(),
    decreases found.len(),
{
    broadcast use vstd::seq_lib::group_to_multiset_ensures;
    if found.len() == 0 {
        assert(Seq::<Commit>::empty().to_multiset() =~= vstd::multiset::Multiset::<Commit>::empty()) by {
            broadcast use vstd::multiset::group_multiset_axioms;
            assert(Seq::<Commit>::empty().to_multiset().len() == 0);
        }
    } else {
        lemma_newest_first(found.drop_last());
        lemma_insert_keeps_order(newest_first(found.drop_last()), found.last());
        assert(found =~= found.drop_last().push(found.last()));
    }
}

/// What a walk over a project's history has done so far.
pub struct WalkView {
    /// The branch tips the walk starts from, in branch order.
    pub tips: Seq<Seq<char>>,
    /// How many tips the walk has started from.
    pub next_tip: int,
    /// The hashes still to visit from the current tip, the last visited first.
    pub stack: Seq<Seq<char>>,
    /// The hashes already asked for.
    pub seen: Set<Seq<char>>,
    /// The commits found, in the order they were found.
    pub found: Seq<Commit>,
}

/// The next hash a walk asks for, and the walk after asking: the most recently stacked hash
/// not yet asked for; when the stack runs out, the next branch tip.
pub open spec fn walk_next(w: WalkView) -> (Option<Seq<char>>, WalkView)
    decreases w.tips.len() - w.next_tip, w.stack.len(),
{
    if w.stack.len() > 0 {
        let h = w.stack.last();
        let popped = WalkView {
            tips: w.tips,
            next_tip: w.next_tip,
            stack: w.stack.drop_last(),
            seen: w.seen,
            found: w.found,
        };
        if w.seen.contains(h) {
            walk_next(popped)
        } else {
            (
                Some(h),
                WalkView {
                    tips: w.tips,
                    next_tip: w.next_tip,
                    stack: w.stack.drop_last(),
                    seen: w.seen.insert(h),
                    found: w.found,
                },
            )
        }
    } else if 0 <= w.next_tip < w.tips.len() {
        walk_next(
            WalkView {
                tips: w.tips,
                next_tip: w.next_tip + 1,
                stack: seq![w.tips[w.next_tip]],
                seen: w.seen,
                found: w.found,
            },
        )
    } else {
        (None, w)
    }
}

/// A walk never asks for a hash twice: what it asks for is new, and only that is added to
/// what it has asked for; the commits found stay as they were.
pub proof fn lemma_walk_asks_once(w: WalkView)
    ensures
        match walk_next(w).0 {
            Some(h) => !w.seen.contains(h) && walk_next(w).1.seen == w.seen.insert(h),
            None => walk_next(w).1.seen == w.seen,
        },
        walk_next(w).1.found == w.found,
    decreases w.tips.len() - w.next_tip, w.stack.len(),
{
    if w.stack.len() > 0 {
        let h = w.stack.last();
        let popped = WalkView {
            tips: w.tips,
            next_tip: w.next_tip,
            stack: w.stack.drop_last(),
            seen: w.seen,
            found: w.found,
        };
        if w.seen.contains(h) {
            lemma_walk_asks_once(popped);
        }
    } else if 0 <= w.next_tip < w.tips.len() {
        lemma_walk_asks_once(
            WalkView {
                tips: w.tips,
                next_tip: w.next_tip + 1,
                stack: seq![w.tips[w.next_tip]],
                seen: w.seen,
                found: w.found,
            },
        );
    }
}

/// The walk after the store answered for the hash it asked for: a commit it has is recorded
/// and its parents are stacked, in parent order; a hash the store does not have is skipped.
pub open spec fn walk_deliver(w: WalkView, answer: Option<Commit>) -> WalkView {
    match answer {
        Some(c) => WalkView {
            tips: w.tips,
            next_tip: w.next_tip,
            stack: w.stack + texts(c.parents@),
            seen: w.seen,
            found: w.found.push(c),
        },
        None => w,
    }
}

/// The walk over a project's history that finds its recent commits: every commit reachable
/// from a branch tip, each asked for once. The walk follows parents through the store's own
/// commit reads and never asks for a hash twice, so a cycle in stored data cannot loop
/// forever. The caller asks the store for each hash [CommitWalk::next] names and hands the
/// answer to [CommitWalk::deliver].
pub struct CommitWalk {
    tips: Vec<String>,
    next_tip: usize,
    stack: Vec<String>,
    seen: Vec<String>,
    found: Vec<Commit>,
}

impl View for CommitWalk {
    type V = WalkView;

    closed spec fn view(&self) -> WalkView {
        WalkView {
            tips: texts(self.tips@),
            next_tip: self.next_tip as int,
            stack: texts(self.stack@),
            seen: texts(self.seen@).to_set(),
            found: self.found@,
        }
    }
}

/// The tips of a project's branches, given as (name, tip).
pub open spec fn tips_of(branches: Seq<(String, String)>) -> Seq<Seq<char>> {
    branches.map_values(|b: (String, String)| b.1@)
}

/// Whether a list of strings holds the text `h`.
pub fn holds(v: &Vec<String>, h: &String) -> (r: bool)
    ensures
        r == texts(v@).contains(h@),
{
    let mut i: usize = 0;
    while i < v.len()
        invariant
            i <= v@.len(),
            forall|j: int| 0 <= j < i ==> v@[j]@ != h@,
        decreases v@.len() - i,
    {
        if v[i] == *h {
            proof {
                assert(texts(v@)[i as int] == h@);
            }
            return true;
        }
        i = i + 1;
    }
    proof {
        if texts(v@).contains(h@) {
            let k = choose|k: int| 0 <= k < texts(v@).len() && texts(v@)[k] == h@;
            assert(v@[k]@ == h@);
        }
    }
    false
}

impl CommitWalk {
    /// A walk from the tips of the given branches, in branch order.
    pub fn new(branches: &Vec<(String, String)>) -> (r: CommitWalk)
        ensures
            r@.tips == tips_of(branches@),
            r@.next_tip == 0,
            r@.stack.len() == 0,
            r@.seen == Set::<Seq<char>>::empty(),
            r@.found.len() == 0,
    {
        let mut tips: Vec<String> = Vec::new();
        let mut i: usize = 0;
        while i < branches.len()
            invariant
                i <= branches@.len(),
                texts(tips@) == tips_of(branches@).take(i as int),
            decreases branches@.len() - i,
        {
            let ghost before = tips@;
            tips.push(branches[i].1.clone());
            proof {
                assert(texts(tips@) =~= texts(before).push(branches@[i as int].1@));
                assert(tips_of(branches@).take(i + 1) =~= tips_of(branches@).take(i as int).push(branches@[i as int].1@));
            }
            i = i + 1;
        }
        proof {
            assert(tips_of(branches@).take(i as int) =~= tips_of(branches@));
        }
        let r = CommitWalk { tips, next_tip: 0, stack: Vec::new(), seen: Vec::new(), found: Vec::new() };
        proof {
            assert(texts(r.seen@).to_set() =~= Set::<Seq<char>>::empty());
            assert(texts(r.stack@) =~= Seq::<Seq<char>>::empty());
        }
        r
    }

    /// The next hash to ask the store for, or `None` when the walk is over.
    pub fn next(&mut self) -> (r: Option<String>)
        ensures
            walk_next(old(self)@) == (opt_text(r), final(self)@),
            match r {
                Some(h) => !old(self)@.seen.contains(h@) && final(self)@.seen == old(self)@.seen.insert(h@),
                None => final(self)@.seen == old(self)@.seen,
            },
            final(self)@.found == old(self)@.found,
    {
        loop
            invariant
                walk_next(old(self)@) == walk_next(self@),
            decreases self.tips@.len() - self.next_tip, self.stack@.len(),
        {
            let ghost w = self@;
            match self.stack.pop() {
                Some(h) => {
                    proof {
                        assert(w.stack.last() == h@);
                        assert(texts(self.stack@) =~= w.stack.drop_last());
                        assert(texts(self.seen@).to_set().contains(h@) == texts(self.seen@).contains(h@));
                    }
                    if !holds(&self.seen, &h) {
                        let ghost before = self.seen@;
                        self.seen.push(h.clone());
                        proof {
                            assert(texts(self.seen@) =~= texts(before).push(h@));
                            texts(before).lemma_push_to_set_commute(h@);
                            lemma_walk_asks_once(old(self)@);
                        }
                        return Some(h);
                    }
                },
                None => {
                    if self.next_tip < self.tips.len() {
                        let tip = self.tips[self.next_tip].clone();
                        self.stack.push(tip);
                        self.next_tip = self.next_tip + 1;
                        proof {
                            assert(texts(self.stack@) =~= seq![w.tips[w.next_tip]]);
                        }
                    } else {
                        proof {
                            lemma_walk_asks_once(old(self)@);
                        }
                        return None;
                    }
                },
            }
        }
    }

    /// Hand the walk the store's answer for the hash it asked for.
    pub fn deliver(&mut self, answer: Option<Commit>)
        ensures
            final(self)@ == walk_deliver(old(self)@, answer),
    {
        match answer {
            Some(c) => {
                let ghost before = self.stack@;
                let mut k: usize = 0;
                while k < c.parents.len()
                    invariant
                        k <= c.parents@.len(),
                        texts(self.stack@) == texts(before) + texts(c.parents@).take(k as int),
                        self.tips == old(self).tips,
                        self.next_tip == old(self).next_tip,
                        self.seen == old(self).seen,
                        self.found == old(self).found,
                    decreases c.parents@.len() - k,
                {
                    let ghost prior = self.stack@;
                    self.stack.push(c.parents[k].clone());
                    proof {
                        assert(texts(self.stack@) =~= texts(prior).push(c.parents@[k as int]@));
                        assert(texts(c.parents@).take(k + 1) =~= texts(c.parents@).take(k as int).push(c.parents@[k as int]@));
                    }
                    k = k + 1;
                }
                proof {
                    assert(texts(c.parents@).take(k as int) =~= texts(c.parents@));
                }
                self.found.push(c);
            },
            None => {},
        }
    }

    /// Every commit the walk found, newest first; commits of the same time keep the order they
    /// were found in.
    pub fn finish(self) -> (r: Vec<Commit>)
        ensures
            r@ == newest_first(self@.found),
    {
        let ghost all = self@.found;
        let mut found = self.found;
        let mut reversed: Vec<Commit> = Vec::new();
        while found.len() > 0
            invariant
                all == found@ + reversed@.reverse(),
            decreases found@.len(),
        {
            let ghost before_f = found@;
            let ghost before_r = reversed@;
            let c = found.pop().unwrap();
            reversed.push(c);
            proof {
                assert(reversed@.reverse() =~= seq![c] + before_r.reverse());
                assert(before_f =~= found@.push(c));
                assert(all =~= found@ + reversed@.reverse());
            }
        }
        let mut r: Vec<Commit> = Vec::new();
        let ghost mut taken: int = 0;
        proof {
            assert(all =~= reversed@.reverse());
            assert(all.take(0) =~= Seq::<Commit>::empty());
            assert(r@ =~= newest_first(all.take(0)));
        }
        while reversed.len() > 0
            invariant
                0 <= taken <= all.len(),
                all.skip(taken) == reversed@.reverse(),
                r@ == newest_first(all.take(taken)),
            decreases reversed@.len(),
        {
            let ghost before_r = reversed@;
            let c = reversed.pop().unwrap();
            proof {
                assert(before_r.reverse()[0] == c);
                assert(all.skip(taken).len() == before_r.len());
                assert(taken < all.len());
                assert(all.skip(taken)[0] == all[taken]);
            }
            let t = commit_time(&c);
            let mut p = r.len();
            while p > 0 && commit_time(&r[p - 1]) < t
                invariant
                    p <= r@.len(),
                    t == time_of(c),
                    forall|j: int| p <= j < r@.len() ==> time_of(#[trigger] r@[j]) < t,
                decreases p,
            {
                p = p - 1;
            }
            proof {
                lemma_insert_at(r@, c, p as int);
                assert(all.take(taken + 1).drop_last() =~= all.take(taken));
                assert(all.take(taken + 1).last() == c);
                assert(reversed@ =~= before_r.drop_last());
                assert(before_r.drop_last().reverse() =~= before_r.reverse().drop_first());
                assert(all.skip(taken + 1) =~= all.skip(taken).drop_first());
                assert(all.skip(taken + 1) =~= reversed@.reverse());
            }
            r.insert(p, c);
            proof {
                taken = taken + 1;
            }
        }
        proof {
            assert(all.take(taken) =~= all);
        }
        r
    }
}

} // verus!
