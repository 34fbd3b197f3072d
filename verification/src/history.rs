//! The commit walk run to its end against a store: it ends after finitely many questions, and
//! what it found is every commit reachable from the branch tips, each once.

use vstd::prelude::*;
use crate::layout::{lemma_walk_asks_once, walk_deliver, walk_next, Commit, WalkView};
use crate::text::texts;

verus! {

/// Whether a hash is still to be reached by the walk: asked for already, or waiting on the stack.
pub open spec fn covered(w: WalkView, x: Seq<char>) -> bool {
    w.seen.contains(x) || w.stack.contains(x)
}

/// What one question of the walk does: whatever was covered stays covered, the tips it starts
/// from become covered, the hash it asks for comes from the stack or the tips, and what it
/// stacks comes from the stack or the tips. When it asks nothing, the stack is empty and every
/// tip has been started from.
proof fn lemma_walk_next_covers(w: WalkView)
    requires
        0 <= w.next_tip <= w.tips.len(),
    ensures
        ({
            let w1 = walk_next(w).1;
            &&& w1.tips == w.tips
            &&& w1.found == w.found
            &&& w.next_tip <= w1.next_tip <= w.tips.len()
            &&& forall|x: Seq<char>| covered(w, x) ==> #[trigger] covered(w1, x)
            &&& forall|t: int| w.next_tip <= t < w1.next_tip ==> covered(w1, #[trigger] w.tips[t])
            &&& forall|x: Seq<char>| #[trigger] w1.stack.contains(x) ==> w.stack.contains(x) || w.tips.contains(x)
            &&& forall|x: Seq<char>| #[trigger] w1.seen.contains(x) ==> w.seen.contains(x) || w.stack.contains(x) || w.tips.contains(x)
            &&& (walk_next(w).0 is None ==> w1.stack.len() == 0 && w1.next_tip == w.tips.len() && w1.seen == w.seen)
        }),
    decreases w.tips.len() - w.next_tip, w.stack.len(),
{
    lemma_walk_asks_once(w);
    if w.stack.len() > 0 {
        let h = w.stack.last();
        let popped = WalkView {
            tips: w.tips,
            next_tip: w.next_tip,
            stack: w.stack.drop_last(),
            seen: w.seen,
            found: w.found,
        };
        assert forall|x: Seq<char>| w.stack.contains(x) && x != h implies popped.stack.contains(x) by {
            let k = choose|k: int| 0 <= k < w.stack.len() && w.stack[k] == x;
            assert(k != w.stack.len() - 1);
            assert(popped.stack[k] == x);
        }
        assert forall|x: Seq<char>| popped.stack.contains(x) implies w.stack.contains(x) by {
            let k = choose|k: int| 0 <= k < popped.stack.len() && popped.stack[k] == x;
            assert(w.stack[k] == x);
        }
        if w.seen.contains(h) {
            lemma_walk_next_covers(popped);
            let w1 = walk_next(w).1;
            assert forall|x: Seq<char>| covered(w, x) implies #[trigger] covered(w1, x) by {
                assert(covered(popped, x));
            }
        } else {
            let w1 = walk_next(w).1;
            assert(w1.seen == w.seen.insert(h));
            assert forall|x: Seq<char>| covered(w, x) implies #[trigger] covered(w1, x) by {
                if x != h && !w.seen.contains(x) {
                    assert(popped.stack.contains(x));
                }
            }
        }
    } else if 0 <= w.next_tip < w.tips.len() {
        let started = WalkView {
            tips: w.tips,
            next_tip: w.next_tip + 1,
            stack: seq![w.tips[w.next_tip]],
            seen: w.seen,
            found: w.found,
        };
        lemma_walk_next_covers(started);
        let w1 = walk_next(w).1;
        assert(started.stack[0] == w.tips[w.next_tip]);
        assert(covered(started, w.tips[w.next_tip]));
        assert forall|x: Seq<char>| #[trigger] w1.stack.contains(x) implies w.stack.contains(x) || w.tips.contains(x) by {
            if started.stack.contains(x) {
                assert(x == w.tips[w.next_tip]);
            }
        }
        assert forall|x: Seq<char>| #[trigger] w1.seen.contains(x) implies w.seen.contains(x) || w.stack.contains(x)
            || w.tips.contains(x) by {
            if started.stack.contains(x) {
                assert(x == w.tips[w.next_tip]);
            }
        }
    } else {
    }
}

/// The commit a store holds under a hash, when it holds one. `store` lists the commits the
/// store holds.
pub open spec fn stored(store: Seq<Commit>, h: Seq<char>) -> Option<Commit> {
    if holds_hash(store, h) {
        Some(store[stored_at(store, h)])
    } else {
        None
    }
}

/// Whether the store holds a commit under a hash.
pub open spec fn holds_hash(store: Seq<Commit>, h: Seq<char>) -> bool {
    exists|i: int| 0 <= i < store.len() && #[trigger] store[i].hash@ == h
}

/// Where the store holds a commit under a hash.
pub open spec fn stored_at(store: Seq<Commit>, h: Seq<char>) -> int {
    choose|i: int| 0 <= i < store.len() && #[trigger] store[i].hash@ == h
}

/// The hashes of a list of commits.
pub open spec fn hashes(commits: Seq<Commit>) -> Seq<Seq<char>> {
    commits.map_values(|c: Commit| c.hash@)
}

/// Every parent hash the commits of a list name.
pub open spec fn all_parents(store: Seq<Commit>) -> Seq<Seq<char>>
    decreases store.len(),
{
    if store.len() == 0 {
        Seq::empty()
    } else {
        all_parents(store.drop_last()) + texts(store.last().parents@)
    }
}

/// Every hash a walk over this store from these tips can come across.
pub open spec fn universe(tips: Seq<Seq<char>>, store: Seq<Commit>) -> Set<Seq<char>> {
    (tips + hashes(store) + all_parents(store)).to_set()
}

/// One question and its answer: the walk asks for its next hash, and is handed what the store
/// holds under it; nothing when the walk is over.
pub open spec fn walk_step(store: Seq<Commit>, w: WalkView) -> Option<WalkView> {
    match walk_next(w).0 {
        Some(h) => Some(walk_deliver(walk_next(w).1, stored(store, h))),
        None => None,
    }
}

/// The walk after at most `k` questions.
pub open spec fn run_walk(store: Seq<Commit>, w: WalkView, k: nat) -> WalkView
    decreases k,
{
    if k == 0 {
        w
    } else {
        match walk_step(store, w) {
            Some(w2) => run_walk(store, w2, (k - 1) as nat),
            None => w,
        }
    }
}

/// Whether the walk is over: it has nothing more to ask.
pub open spec fn walk_done(w: WalkView) -> bool {
    walk_next(w).0 is None
}

/// A walk that has done nothing yet, from these tips.
pub open spec fn walk_start(tips: Seq<Seq<char>>) -> WalkView {
    WalkView { tips, next_tip: 0, stack: Seq::empty(), seen: Set::empty(), found: Seq::empty() }
}

/// Whether `path` leads from a tip along parent links, each step from a commit the store holds
/// to one of its parents.
pub open spec fn parent_path(store: Seq<Commit>, tips: Seq<Seq<char>>, path: Seq<Seq<char>>) -> bool {
    &&& path.len() >= 1
    &&& tips.contains(path[0])
    &&& forall|i: int|
        0 <= i < path.len() - 1 ==> (#[trigger] stored(store, path[i]) matches Some(c) && texts(c.parents@).contains(
            path[i + 1],
        ))
}

/// Whether a hash can be reached from a tip through parent links.
pub open spec fn reachable(store: Seq<Commit>, tips: Seq<Seq<char>>, h: Seq<char>) -> bool {
    exists|path: Seq<Seq<char>>| #[trigger] parent_path(store, tips, path) && path.last() == h
}

proof fn lemma_stored(store: Seq<Commit>, h: Seq<char>)
    ensures
        stored(store, h) matches Some(c) ==> c.hash@ == h && store.contains(c),
{
    if holds_hash(store, h) {
        let i = stored_at(store, h);
        assert(0 <= i < store.len() && store[i].hash@ == h);
        assert(store[i] == stored(store, h)->0);
    }
}

proof fn lemma_all_parents(store: Seq<Commit>, c: Commit, p: Seq<char>)
    requires
        store.contains(c),
        texts(c.parents@).contains(p),
    ensures
        all_parents(store).contains(p),
    decreases store.len(),
{
    let rest = store.drop_last();
    let ps = texts(store.last().parents@);
    if store.last() == c {
        let k = choose|k: int| 0 <= k < ps.len() && ps[k] == p;
        assert((all_parents(rest) + ps)[all_parents(rest).len() + k] == p);
    } else {
        let i = choose|i: int| 0 <= i < store.len() && store[i] == c;
        assert(rest[i] == c);
        lemma_all_parents(rest, c, p);
        let k = choose|k: int| 0 <= k < all_parents(rest).len() && all_parents(rest)[k] == p;
        assert((all_parents(rest) + ps)[k] == p);
    }
}

/// What holds of the walk at every point: it stays inside the hashes it can come across; the
/// tips it started from are covered; every commit it found is the store's commit for a hash it
/// asked for, and every hash it asked for that the store holds gave a commit it found; the
/// parents of what it found are covered; nothing was found twice; and everything covered is
/// reachable.
pub open spec fn walk_inv(store: Seq<Commit>, w: WalkView) -> bool {
    let u = universe(w.tips, store);
    &&& 0 <= w.next_tip <= w.tips.len()
    &&& w.seen.finite()
    &&& forall|x: Seq<char>| #[trigger] w.seen.contains(x) ==> u.contains(x)
    &&& forall|x: Seq<char>| #[trigger] w.stack.contains(x) ==> u.contains(x)
    &&& forall|t: int| 0 <= t < w.next_tip ==> covered(w, #[trigger] w.tips[t])
    &&& forall|i: int|
        0 <= i < w.found.len() ==> w.seen.contains(#[trigger] w.found[i].hash@) && stored(store, w.found[i].hash@)
            == Some(w.found[i])
    &&& forall|h: Seq<char>| #[trigger] w.seen.contains(h) && stored(store, h) is Some ==> w.found.contains(
        stored(store, h)->0,
    )
    &&& forall|i: int, p: Seq<char>|
        0 <= i < w.found.len() && #[trigger] texts(w.found[i].parents@).contains(p) ==> covered(w, p)
    &&& hashes(w.found).no_duplicates()
    &&& forall|x: Seq<char>| #[trigger] covered(w, x) ==> reachable(store, w.tips, x)
}

proof fn lemma_reach_parent(store: Seq<Commit>, tips: Seq<Seq<char>>, x: Seq<char>, p: Seq<char>)
    requires
        reachable(store, tips, x),
        stored(store, x) matches Some(c) && texts(c.parents@).contains(p),
    ensures
        reachable(store, tips, p),
{
    let path = choose|path: Seq<Seq<char>>| #[trigger] parent_path(store, tips, path) && path.last() == x;
    let longer = path.push(p);
    assert forall|i: int| 0 <= i < longer.len() - 1 implies (#[trigger] stored(store, longer[i]) matches Some(c)
        && texts(c.parents@).contains(longer[i + 1])) by {
        if i < path.len() - 1 {
            assert(longer[i] == path[i] && longer[i + 1] == path[i + 1]);
            assert(stored(store, path[i]) matches Some(c) && texts(c.parents@).contains(path[i + 1]));
        } else {
            assert(longer[i] == x);
        }
    }
    assert(longer[0] == path[0]);
    assert(parent_path(store, tips, longer));
}

proof fn lemma_reach_tip(store: Seq<Commit>, tips: Seq<Seq<char>>, t: int)
    requires
        0 <= t < tips.len(),
    ensures
        reachable(store, tips, tips[t]),
{
    let path = seq![tips[t]];
    assert(parent_path(store, tips, path));
}

/// One question and its answer keep the walk's invariant, and the walk asks for a hash it had
/// not asked for, among those it can come across.
#[verifier::rlimit(80)]
#[verifier::spinoff_prover]
proof fn lemma_walk_step(store: Seq<Commit>, w: WalkView)
    requires
        walk_inv(store, w),
        walk_step(store, w) is Some,
    ensures
        walk_inv(store, walk_step(store, w)->0),
        walk_step(store, w)->0.tips == w.tips,
        walk_step(store, w)->0.seen.len() == w.seen.len() + 1,
{
    let u = universe(w.tips, store);
    let h = walk_next(w).0->0;
    let w1 = walk_next(w).1;
    let answer = stored(store, h);
    let w2 = walk_deliver(w1, answer);
    lemma_walk_next_covers(w);
    lemma_walk_asks_once(w);
    lemma_stored(store, h);
    assert(w1.seen == w.seen.insert(h));
    assert(!w.seen.contains(h));
    assert(w1.seen.contains(h));
    assert(w.stack.contains(h) || w.tips.contains(h));
    assert forall|x: Seq<char>| w.tips.contains(x) implies u.contains(x) by {
        let k = choose|k: int| 0 <= k < w.tips.len() && w.tips[k] == x;
        assert((w.tips + hashes(store) + all_parents(store))[k] == x);
    }
    assert forall|x: Seq<char>| #[trigger] w2.seen.contains(x) implies u.contains(x) by {
        assert(w1.seen.contains(x));
    }
    assert(w2.tips == w.tips);
    match answer {
        Some(c) => {
            assert(w2.stack == w1.stack + texts(c.parents@));
            assert(w2.found == w.found.push(c));
            assert forall|x: Seq<char>| #[trigger] w2.stack.contains(x) implies u.contains(x) by {
                let k = choose|k: int| 0 <= k < w2.stack.len() && w2.stack[k] == x;
                if k < w1.stack.len() {
                    assert(w1.stack[k] == x);
                    assert(w1.stack.contains(x));
                } else {
                    assert(texts(c.parents@)[k - w1.stack.len()] == x);
                    assert(texts(c.parents@).contains(x));
                    lemma_all_parents(store, c, x);
                    let m = choose|m: int| 0 <= m < all_parents(store).len() && all_parents(store)[m] == x;
                    assert((w.tips + hashes(store) + all_parents(store))[w.tips.len() + store.len() + m] == x);
                }
            }
            assert forall|x: Seq<char>| covered(w1, x) implies #[trigger] covered(w2, x) by {
                if w1.stack.contains(x) {
                    let k = choose|k: int| 0 <= k < w1.stack.len() && w1.stack[k] == x;
                    assert(w2.stack[k] == x);
                }
            }
            assert forall|p: Seq<char>| texts(c.parents@).contains(p) implies covered(w2, p) by {
                let k = choose|k: int| 0 <= k < texts(c.parents@).len() && texts(c.parents@)[k] == p;
                assert(w2.stack[w1.stack.len() + k] == p);
            }
            assert forall|i: int|
                0 <= i < w2.found.len() implies w2.seen.contains(#[trigger] w2.found[i].hash@) && stored(
                store,
                w2.found[i].hash@,
            ) == Some(w2.found[i]) by {
                if i < w.found.len() {
                    assert(w2.found[i] == w.found[i]);
                }
            }
            assert forall|x: Seq<char>| #[trigger] w2.seen.contains(x) && stored(store, x) is Some implies w2.found.contains(
                stored(store, x)->0,
            ) by {
                if x == h {
                    assert(w2.found[w.found.len() as int] == c);
                } else {
                    assert(w.found.contains(stored(store, x)->0));
                    let k = choose|k: int| 0 <= k < w.found.len() && w.found[k] == stored(store, x)->0;
                    assert(w2.found[k] == w.found[k]);
                }
            }
            assert forall|i: int, p: Seq<char>|
                0 <= i < w2.found.len() && #[trigger] texts(w2.found[i].parents@).contains(p) implies covered(w2, p) by {
                if i < w.found.len() {
                    assert(w2.found[i] == w.found[i]);
                    assert(covered(w, p));
                    assert(covered(w1, p));
                } else {
                    assert(w2.found[i] == c);
                }
            }
            assert(hashes(w2.found) =~= hashes(w.found).push(h));
            assert(hashes(w2.found).no_duplicates()) by {
                assert forall|a: int, b: int| 0 <= a < b < hashes(w2.found).len() implies hashes(w2.found)[a] != hashes(
                    w2.found,
                )[b] by {
                    if b == w.found.len() {
                        assert(w.seen.contains(w.found[a].hash@));
                    } else {
                        assert(hashes(w.found)[a] != hashes(w.found)[b]);
                    }
                }
            }
            assert(reachable(store, w.tips, h)) by {
                assert(covered(w, h) || w.tips.contains(h));
                if !covered(w, h) {
                    let t = choose|t: int| 0 <= t < w.tips.len() && w.tips[t] == h;
                    lemma_reach_tip(store, w.tips, t);
                }
            }
            assert forall|x: Seq<char>| #[trigger] covered(w2, x) implies reachable(store, w2.tips, x) by {
                if w2.seen.contains(x) {
                    assert(w1.seen.contains(x));
                    if x != h {
                        assert(covered(w, x) || w.tips.contains(x));
                        if !covered(w, x) {
                            let t = choose|t: int| 0 <= t < w.tips.len() && w.tips[t] == x;
                            lemma_reach_tip(store, w.tips, t);
                        }
                    }
                } else {
                    let k = choose|k: int| 0 <= k < w2.stack.len() && w2.stack[k] == x;
                    if k < w1.stack.len() {
                        assert(w1.stack[k] == x);
                        assert(w1.stack.contains(x));
                        assert(w.stack.contains(x) || w.tips.contains(x));
                        if !w.stack.contains(x) {
                            let t = choose|t: int| 0 <= t < w.tips.len() && w.tips[t] == x;
                            lemma_reach_tip(store, w.tips, t);
                        } else {
                            assert(covered(w, x));
                        }
                    } else {
                        assert(texts(c.parents@)[k - w1.stack.len()] == x);
                        lemma_reach_parent(store, w.tips, h, x);
                    }
                }
            }
            assert forall|t: int| 0 <= t < w2.next_tip implies covered(w2, #[trigger] w2.tips[t]) by {
                if t < w.next_tip {
                    assert(covered(w, w.tips[t]));
                    assert(covered(w1, w.tips[t]));
                } else {
                    assert(covered(w1, w.tips[t]));
                }
            }
        },
        None => {
            assert(w2 == w1);
            assert forall|x: Seq<char>| #[trigger] w2.stack.contains(x) implies u.contains(x) by {
                assert(w.stack.contains(x) || w.tips.contains(x));
            }
            assert forall|x: Seq<char>| #[trigger] w2.seen.contains(x) && stored(store, x) is Some implies w2.found.contains(
                stored(store, x)->0,
            ) by {
                assert(x != h);
            }
            assert forall|i: int, p: Seq<char>|
                0 <= i < w2.found.len() && #[trigger] texts(w2.found[i].parents@).contains(p) implies covered(w2, p) by {
                assert(covered(w, p));
            }
            assert forall|x: Seq<char>| #[trigger] covered(w2, x) implies reachable(store, w2.tips, x) by {
                if x != h {
                    assert(covered(w, x) || w.tips.contains(x));
                    if !covered(w, x) {
                        let t = choose|t: int| 0 <= t < w.tips.len() && w.tips[t] == x;
                        lemma_reach_tip(store, w.tips, t);
                    }
                } else {
                    assert(covered(w, h) || w.tips.contains(h));
                    if !covered(w, h) {
                        let t = choose|t: int| 0 <= t < w.tips.len() && w.tips[t] == h;
                        lemma_reach_tip(store, w.tips, t);
                    }
                }
            }
            assert forall|t: int| 0 <= t < w2.next_tip implies covered(w2, #[trigger] w2.tips[t]) by {
                if t < w.next_tip {
                    assert(covered(w, w.tips[t]));
                }
            }
        },
    }
    assert(w1.seen.len() == w.seen.len() + 1);
}

/// The walk runs to its end: after finitely many questions it has nothing more to ask, and its
/// invariant still holds.
proof fn lemma_run_walk_ends(store: Seq<Commit>, w: WalkView) -> (k: nat)
    requires
        walk_inv(store, w),
    ensures
        walk_done(run_walk(store, w, k)),
        walk_inv(store, run_walk(store, w, k)),
        run_walk(store, w, k).tips == w.tips,
    decreases universe(w.tips, store).len() - w.seen.len(),
{
    let u = universe(w.tips, store);
    assert(u.finite());
    assert(w.seen.subset_of(u));
    vstd::set_lib::lemma_len_subset(w.seen, u);
    match walk_step(store, w) {
        None => {
            assert(run_walk(store, w, 0) == w);
            0
        },
        Some(w2) => {
            lemma_walk_step(store, w);
            assert(w2.seen.subset_of(u));
            vstd::set_lib::lemma_len_subset(w2.seen, u);
            let k2 = lemma_run_walk_ends(store, w2);
            assert(run_walk(store, w, k2 + 1) == run_walk(store, w2, k2));
            k2 + 1
        },
    }
}

/// Whether a walk over this store from these tips is over and found exactly the reachable
/// commits: every commit the store holds under a hash reachable from a tip, each the store's
/// commit for its hash, and no hash twice.
pub open spec fn walk_complete(store: Seq<Commit>, tips: Seq<Seq<char>>, w: WalkView) -> bool {
    &&& walk_done(w)
    &&& forall|h: Seq<char>| #[trigger] reachable(store, tips, h) && stored(store, h) is Some ==> w.found.contains(
        stored(store, h)->0,
    )
    &&& forall|i: int|
        0 <= i < w.found.len() ==> reachable(store, tips, #[trigger] w.found[i].hash@) && stored(store, w.found[i].hash@)
            == Some(w.found[i])
    &&& hashes(w.found).no_duplicates()
}

proof fn lemma_path_asked(store: Seq<Commit>, w: WalkView, path: Seq<Seq<char>>, i: int)
    requires
        walk_inv(store, w),
        parent_path(store, w.tips, path),
        0 <= i < path.len(),
        forall|t: int| 0 <= t < w.tips.len() ==> w.seen.contains(#[trigger] w.tips[t]),
        forall|x: Seq<char>| covered(w, x) ==> #[trigger] w.seen.contains(x),
    ensures
        w.seen.contains(path[i]),
    decreases i,
{
    if i == 0 {
        let t = choose|t: int| 0 <= t < w.tips.len() && w.tips[t] == path[0];
        assert(w.seen.contains(w.tips[t]));
    } else {
        lemma_path_asked(store, w, path, i - 1);
        let x = path[i - 1];
        assert(stored(store, x) matches Some(c) && texts(c.parents@).contains(path[i]));
        let c = stored(store, x)->0;
        assert(w.found.contains(c));
        let k = choose|k: int| 0 <= k < w.found.len() && w.found[k] == c;
        assert(texts(w.found[k].parents@).contains(path[i]));
        assert(covered(w, path[i]));
    }
}

/// The walk over a project's history, answered by its store, finds every commit reachable from
/// the branch tips, each once: asked for by its hash and answered with what the store holds,
/// it is over after finitely many questions, every commit the store holds under a hash that
/// parent links lead to from a tip has been found, everything found is such a commit, and no
/// commit is found twice. A hash the store does not hold contributes nothing.
pub proof fn lemma_walk_finds_every_reachable_commit(store: Seq<Commit>, tips: Seq<Seq<char>>)
    ensures
        exists|k: nat| #[trigger] walk_complete(store, tips, run_walk(store, walk_start(tips), k)),
{
    let w0 = walk_start(tips);
    assert(hashes(w0.found) =~= Seq::<Seq<char>>::empty());
    assert(walk_inv(store, w0));
    let k = lemma_run_walk_ends(store, w0);
    let w = run_walk(store, w0, k);
    lemma_walk_next_covers(w);
    lemma_walk_asks_once(w);
    let w1 = walk_next(w).1;
    assert forall|x: Seq<char>| covered(w, x) implies #[trigger] w.seen.contains(x) by {
        assert(covered(w1, x));
        if w1.stack.contains(x) {
            let m = choose|m: int| 0 <= m < w1.stack.len() && w1.stack[m] == x;
        }
    }
    assert forall|t: int| 0 <= t < w.tips.len() implies w.seen.contains(#[trigger] w.tips[t]) by {
        if t < w.next_tip {
            assert(covered(w, w.tips[t]));
        } else {
            assert(covered(w1, w.tips[t]));
            if w1.stack.contains(w.tips[t]) {
                let m = choose|m: int| 0 <= m < w1.stack.len() && w1.stack[m] == w.tips[t];
            }
        }
    }
    assert forall|h: Seq<char>| #[trigger] reachable(store, tips, h) && stored(store, h) is Some implies w.found.contains(
        stored(store, h)->0,
    ) by {
        let path = choose|path: Seq<Seq<char>>| #[trigger] parent_path(store, tips, path) && path.last() == h;
        lemma_path_asked(store, w, path, path.len() - 1);
    }
    assert forall|i: int| 0 <= i < w.found.len() implies reachable(store, tips, #[trigger] w.found[i].hash@) by {
        assert(covered(w, w.found[i].hash@));
    }
    assert(walk_complete(store, tips, w));
}

} // verus!
