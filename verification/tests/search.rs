use workbench::analyses::default_diff_pair;
use workbench::search::{collect_hits, hit_matches, search_hits, search_needle, Hit, SearchQuery};
use workbench::analyses::{diff_endpoints, run_label, run_request, severity_class, severity_empty, severity_heading, value, DiffQuery, RunSummary, Severity};
use workbench::form::FormFields;
use workbench::access::Refusal;

fn hit(id: &str, name: &str, kind: &str) -> Hit {
    Hit { id: id.to_string(), name: name.to_string(), kind: kind.to_string() }
}

fn ids(v: &[Hit]) -> Vec<&str> {
    v.iter().map(|h| h.id.as_str()).collect()
}

#[test]
fn every_element_is_found_once_by_its_first_listing() {
    let hits = collect_hits(vec![
        hit("b1", "Boiler", "block"),
        hit("", "Nameless", "block"),
        hit("b1", "Other", "requirement"),
        hit("r1", "Flow", "requirement"),
    ]);
    assert_eq!(ids(&hits), vec!["b1", "r1"]);
    assert_eq!(hits[0].name, "Boiler");
}

#[test]
fn a_search_matches_id_name_or_kind_ignoring_case() {
    let q = SearchQuery { q: Some("  PUMP ".to_string()), branch: None, commit: None };
    let needle = search_needle(&q);
    assert_eq!(needle, "pump");
    assert!(hit_matches(&hit("p-1", "Water Pump", "block"), &needle));
    assert!(hit_matches(&hit("PUMP-2", "", "block"), &needle));
    assert!(!hit_matches(&hit("t", "Tank", "block"), &needle));
    assert_eq!(search_needle(&SearchQuery { q: None, branch: None, commit: None }), "");
}

#[test]
fn results_are_listed_by_name_then_id() {
    let found = search_hits(
        vec![
            hit("z", "Pump", "block"),
            hit("a", "Pump", "block"),
            hit("m", "Motor", "block"),
            hit("t", "Tank", "block"),
        ],
        "",
    );
    assert_eq!(ids(&found), vec!["m", "a", "z", "t"]);
    let pumps = search_hits(vec![hit("z", "Pump", "block"), hit("t", "Tank", "block"), hit("a", "Pump", "block")], "pump");
    assert_eq!(ids(&pumps), vec!["a", "z"]);
}

#[test]
fn severities_have_their_words() {
    assert_eq!(severity_class(Severity::Gap), "uncovered");
    assert_eq!(severity_class(Severity::Clean), "covered");
    assert_eq!(severity_heading(Severity::Unknown), "Not measured");
    assert_eq!(severity_empty(Severity::Clean), "None.");
}

#[test]
fn a_run_is_labelled_by_definition_commit_and_time() {
    let run = RunSummary {
        definition_name: "coverage".to_string(),
        definition_version: 3,
        commit_hash: "0123456789".to_string(),
        created_at: "1700000000".to_string(),
    };
    assert_eq!(run_label(&run), "coverage v3 @ 01234567 (1700000000)");
}

#[test]
fn a_run_request_is_trimmed_and_defaults_to_main() {
    let mut f = FormFields::new();
    f.insert("definition".to_string(), "  cov ".to_string());
    f.insert("branch".to_string(), "   ".to_string());
    assert_eq!(value(&f, "definition"), "cov");
    let req = run_request(&f);
    assert_eq!(req.definition, "cov");
    assert_eq!(req.branch, "main");
}

#[test]
fn a_diff_names_both_runs() {
    let q = DiffQuery { from: Some("a".to_string()), to: Some("b".to_string()) };
    assert!(matches!(diff_endpoints(&q), Ok((f, t)) if f == "a" && t == "b"));
    let q = DiffQuery { from: Some(String::new()), to: Some("b".to_string()) };
    assert!(matches!(diff_endpoints(&q), Err(Refusal::BadRequest(m)) if m == "name the earlier run as from="));
    let q = DiffQuery { from: Some("a".to_string()), to: None };
    assert!(matches!(diff_endpoints(&q), Err(Refusal::BadRequest(m)) if m == "name the later run as to="));
}

fn runs(v: &[(&str, &str)]) -> Vec<(String, String)> {
    v.iter().map(|(d, r)| (d.to_string(), r.to_string())).collect()
}

#[test]
fn the_default_diff_compares_two_readings_of_one_analysis() {
    assert_eq!(default_diff_pair(&runs(&[])), (0, 0));
    assert_eq!(default_diff_pair(&runs(&[("coverage", "r1")])), (0, 0));
    assert_eq!(default_diff_pair(&runs(&[("health", "r4"), ("coverage", "r3"), ("health", "r2"), ("coverage", "r1")])), (3, 1));
    assert_eq!(default_diff_pair(&runs(&[("health", "r2"), ("coverage", "r1")])), (1, 0));
}
