use workbench::layout::{commit_time, current_ref, section_href, Commit, CommitWalk, Nav};
use workbench::model::{branch_tip, default_branch, requested_revision, resolve_ref, view_branch, ModelQuery, Revision};
use workbench::access::{admin_gate, project_known, read_gate, write_gate, Refusal};

fn commit(hash: &str, parents: &[&str], created_at: &str) -> Commit {
    Commit {
        hash: hash.to_string(),
        parents: parents.iter().map(|p| p.to_string()).collect(),
        author: "ada".to_string(),
        branch: "main".to_string(),
        message: format!("commit {hash}"),
        created_at: created_at.to_string(),
    }
}

#[test]
fn the_navigator_lists_only_reachable_models_by_name() {
    let listed = vec!["zeta".to_string(), "alpha".to_string(), "secret".to_string(), "Beta".to_string()];
    let reach = vec![true, true, false, true];
    let nav = Nav::load(&listed, &reach, Some("alpha"), vec![("main".to_string(), "h1".to_string())], Vec::new(), true);
    assert_eq!(nav.projects, vec!["Beta", "alpha", "zeta"]);
    assert_eq!(nav.current.as_deref(), Some("alpha"));
    assert_eq!(nav.branches.len(), 1);
    assert!(nav.can_write);
    assert!(nav.section.is_none());
}

#[test]
fn without_a_current_model_there_are_no_versions() {
    let nav = Nav::load(&vec![], &vec![], None, vec![("main".to_string(), "h".to_string())], Vec::new(), false);
    assert!(nav.branches.is_empty());
    assert!(nav.current.is_none());
    let none = Nav::none();
    assert!(none.projects.is_empty() && !none.can_write);
}

#[test]
fn a_section_address_keeps_the_version_being_viewed() {
    let mut nav = Nav::none();
    nav.current = Some("coffee machine".to_string());
    assert_eq!(section_href(&nav, "overview"), "/ui/projects/coffee%20machine/overview");
    nav.branch = Some("a&b".to_string());
    assert_eq!(section_href(&nav, "checks"), "/ui/projects/coffee%20machine/checks?branch=a%26b");
    nav.commit = Some("abc123".to_string());
    assert_eq!(section_href(&nav, "checks"), "/ui/projects/coffee%20machine/checks?commit=abc123");
    assert_eq!(section_href(&Nav::none(), "x"), "/ui/projects//x");
}

#[test]
fn the_compare_endpoint_prefers_the_branch() {
    let mut nav = Nav::none();
    assert_eq!(current_ref(&nav), None);
    nav.commit = Some("c".to_string());
    assert_eq!(current_ref(&nav).as_deref(), Some("c"));
    nav.branch = Some("b".to_string());
    assert_eq!(current_ref(&nav).as_deref(), Some("b"));
}

#[test]
fn a_commit_time_that_does_not_read_counts_as_the_epoch() {
    assert_eq!(commit_time(&commit("a", &[], "1700000000")), 1_700_000_000);
    assert_eq!(commit_time(&commit("a", &[], "-5")), -5);
    assert_eq!(commit_time(&commit("a", &[], "yesterday")), 0);
}

/// Runs a walk against a fixed history, as the shell runs it against the store.
fn walk(branches: Vec<(String, String)>, history: &[Commit]) -> (Vec<String>, Vec<Commit>) {
    let mut w = CommitWalk::new(&branches);
    let mut asked = Vec::new();
    while let Some(hash) = w.next() {
        asked.push(hash.clone());
        let found = history.iter().find(|c| c.hash == hash).map(|c| commit(&c.hash, &c.parents.iter().map(|p| p.as_str()).collect::<Vec<_>>(), &c.created_at));
        w.deliver(found);
    }
    (asked, w.finish())
}

#[test]
fn the_walk_asks_for_each_commit_once_even_in_a_cycle() {
    let history = vec![
        commit("c3", &["c2"], "30"),
        commit("c2", &["c1"], "20"),
        commit("c1", &["c3"], "10"),
        commit("f1", &["c2"], "25"),
    ];
    let branches = vec![("main".to_string(), "c3".to_string()), ("feature".to_string(), "f1".to_string())];
    let (asked, recent) = walk(branches, &history);
    assert_eq!(asked, vec!["c3", "c2", "c1", "f1"]);
    let hashes: Vec<&str> = recent.iter().map(|c| c.hash.as_str()).collect();
    assert_eq!(hashes, vec!["c3", "f1", "c2", "c1"], "newest first");
}

#[test]
fn a_missing_commit_is_skipped_and_every_reachable_commit_is_listed() {
    let mut history = Vec::new();
    for i in 0..20 {
        let parent = format!("h{}", i + 1);
        history.push(commit(&format!("h{i}"), &[parent.as_str()], &format!("{}", 100 - i)));
    }
    let (asked, recent) = walk(vec![("main".to_string(), "h0".to_string())], &history);
    assert_eq!(asked.len(), 21, "h20 is asked for and not found");
    assert_eq!(recent.len(), 20);
    assert_eq!(recent[0].hash, "h0");
    assert_eq!(recent[19].hash, "h19");
}

#[test]
fn equal_times_keep_the_order_they_were_found_in() {
    let history = vec![commit("a", &["b"], "5"), commit("b", &[], "5")];
    let (_, recent) = walk(vec![("main".to_string(), "a".to_string())], &history);
    let hashes: Vec<&str> = recent.iter().map(|c| c.hash.as_str()).collect();
    assert_eq!(hashes, vec!["a", "b"]);
}

#[test]
fn the_view_is_scoped_to_the_asked_branch() {
    let c = commit("h", &[], "1");
    let q = ModelQuery { branch: Some("dev".to_string()), commit: None, view: None, select: None };
    assert_eq!(view_branch(&q, &c), "dev");
    let q = ModelQuery { branch: Some(String::new()), commit: None, view: None, select: None };
    assert_eq!(view_branch(&q, &c), "main");
}

#[test]
fn the_default_branch_is_the_main_line_or_the_first() {
    assert_eq!(default_branch(&vec![]), None);
    let b = |n: &str| (n.to_string(), "t".to_string());
    assert_eq!(default_branch(&vec![b("a"), b("main")]).as_deref(), Some("main"));
    assert_eq!(default_branch(&vec![b("b"), b("c")]).as_deref(), Some("b"));
}

#[test]
fn an_explicit_commit_wins_over_a_branch() {
    let q = ModelQuery { branch: Some("dev".to_string()), commit: Some("abc".to_string()), view: None, select: None };
    assert!(matches!(requested_revision(&q), Revision::Commit(h) if h == "abc"));
    let q = ModelQuery { branch: Some("dev".to_string()), commit: Some(String::new()), view: None, select: None };
    assert!(matches!(requested_revision(&q), Revision::BranchTip(b) if b == "dev"));
    let q = ModelQuery { branch: None, commit: None, view: None, select: None };
    assert!(matches!(requested_revision(&q), Revision::BranchTip(b) if b == "main"));
}

#[test]
fn refusals_name_what_was_missing() {
    assert!(matches!(branch_tip("dev", None), Err(Refusal::NotFound(m)) if m == "branch dev has no commits"));
    assert_eq!(branch_tip("dev", Some("t".to_string())).ok().as_deref(), Some("t"));
    assert_eq!(resolve_ref("v", true, None).ok().as_deref(), Some("v"));
    assert_eq!(resolve_ref("v", false, Some("tip".to_string())).ok().as_deref(), Some("tip"));
    assert!(matches!(resolve_ref("v", false, None), Err(Refusal::NotFound(m)) if m == "commit or branch v"));
    assert!(matches!(project_known("p", false), Err(Refusal::NotFound(m)) if m == "project p"));
}

#[test]
fn the_permission_decision_comes_first() {
    assert!(matches!(write_gate(false, false), Err(Refusal::Forbidden(m)) if m == "write permission required"));
    assert!(matches!(write_gate(true, false), Err(Refusal::Forbidden(m)) if m == "project not in scope"));
    assert!(write_gate(true, true).is_ok());
    assert!(matches!(read_gate(false, true), Err(Refusal::Forbidden(m)) if m == "read permission required"));
    assert!(read_gate(true, true).is_ok());
    assert!(matches!(admin_gate(false, true), Err(Refusal::Forbidden(m)) if m == "admin permission required"));
    assert!(matches!(admin_gate(true, false), Err(Refusal::Forbidden(m)) if m == "project not in scope"));
    assert!(admin_gate(true, true).is_ok());
}
