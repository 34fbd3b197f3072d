use workbench::allocation::{boundary_lists, document_roles};
use workbench::gate::{components_line, coverage_line, gate_evidence, GateRun};
use workbench::json::JsonValue;

fn run(evidence: &str) -> GateRun {
    GateRun { reference_hash: "r".to_string(), candidate_hash: "c".to_string(), evidence: evidence.to_string() }
}

fn strings(v: &[&str]) -> Vec<String> {
    v.iter().map(|s| s.to_string()).collect()
}

#[test]
fn a_run_shows_what_its_evidence_recorded() {
    let e = gate_evidence(&run(
        r#"{"roundtrip":{"equal":false,"missingElements":["r7",3],"changedAttributes":["b1.name"]},
            "integration":{"isolated":["n9"],"componentCount":2,"componentSizes":[5,1,-1]},
            "coverage":{"total":4,"covered":3,"uncovered":["R-2"],"satisfied":2,"refined":1,"verified":0,"allocated":1},
            "validationErrors":["bad id"],"failures":["coverage"]}"#,
    ));
    assert!(e.unparsable.is_none());
    assert!(!e.roundtrip_equal);
    assert_eq!(e.missing_elements, strings(&["r7"]));
    assert_eq!(e.changed_attributes, strings(&["b1.name"]));
    assert!(e.extra_edges.is_empty());
    assert_eq!(e.isolated, strings(&["n9"]));
    assert_eq!(e.uncovered, strings(&["R-2"]));
    assert_eq!(e.validation_errors, strings(&["bad id"]));
    assert!(e.validation_warnings.is_empty());
    assert_eq!(e.failures, strings(&["coverage"]));
    assert_eq!(e.counts.component_count, Some(2));
    assert_eq!(e.counts.component_sizes, vec![5, 1]);
    assert_eq!((e.counts.total, e.counts.covered, e.counts.uncovered), (Some(4), Some(3), 1));
    assert_eq!(components_line(&e.counts).unwrap(), "2 connected components (sizes: 5, 1)");
    assert!(coverage_line(&e.counts).unwrap().starts_with("4 requirements: 3 covered, 1 uncovered"));
}

#[test]
fn unreadable_evidence_is_kept_as_it_is() {
    let e = gate_evidence(&run("not json {"));
    assert_eq!(e.unparsable.as_deref(), Some("not json {"));
    assert!(!e.roundtrip_equal && e.missing_elements.is_empty() && e.counts.total.is_none());
    let ok = gate_evidence(&run(r#"{"roundtrip":{"equal":true}}"#));
    assert!(ok.unparsable.is_none() && ok.roundtrip_equal);
}

#[test]
fn each_activity_role_is_read_from_its_allocated_to_attribute() {
    let doc = r#"{"activities":[
        {"id":"a1","attributes":[{"name":"allocatedTo","type":"brewer"},{"name":"other","type":"x"}]},
        {"id":"a2","attributes":[{"name":"allocatedTo","type":""}]},
        {"attributes":[{"name":"allocatedTo","type":"lost"}]},
        {"id":"a3","attributes":[{"name":"allocatedTo","type":"grinder"},{"name":"allocatedTo","type":"pump"}]}
    ]}"#;
    let roles = document_roles(doc).unwrap();
    let pairs: Vec<(&str, &str)> = roles.iter().map(|(a, b)| (a.as_str(), b.as_str())).collect();
    assert_eq!(pairs, vec![("a1", "brewer"), ("a3", "grinder"), ("a3", "pump")]);
    assert_eq!(document_roles("{}").unwrap(), Vec::<(String, String)>::new());
    assert!(document_roles("[1,").is_none());
}

#[test]
fn the_boundary_lists_are_read_verbatim() {
    let evidence = JsonValue::Object(vec![(
        "boundary".to_string(),
        JsonValue::Object(vec![
            ("measured".to_string(), JsonValue::Array(vec![JsonValue::Text("coverage".to_string()), JsonValue::Null])),
            ("asserted".to_string(), JsonValue::Array(vec![JsonValue::Text("inside subsystems".to_string())])),
        ]),
    )]);
    let (measured, asserted) = boundary_lists(&evidence);
    assert_eq!(measured, strings(&["coverage"]));
    assert_eq!(asserted, strings(&["inside subsystems"]));
    assert_eq!(boundary_lists(&JsonValue::Null), (vec![], vec![]));
}

#[test]
fn the_boundary_lists_are_read_from_evidence_text() {
    let (measured, asserted) =
        workbench::allocation::evidence_boundary(r#"{"boundary":{"measured":["a"],"asserted":["b",1]}}"#).unwrap();
    assert_eq!(measured, strings(&["a"]));
    assert_eq!(asserted, strings(&["b"]));
    assert!(workbench::allocation::evidence_boundary("{").is_none());
}
