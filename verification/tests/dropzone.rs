use base64::Engine as _;
use workbench::detect::{detect, is_zip, looks_like_sysmlv2, looks_like_xmi, Format};
use workbench::facts::{FactsInput, HealthFacts, OnboardFacts, MAX_LOSS_CLASSES};
use workbench::inflate::inflate;
use workbench::losses::loss_classes;
use workbench::naming::derived_project_name;
use workbench::zip::extract_cameo;

/// A real DEFLATE stream and a real zip container, both produced by a real compressor and
/// written down here verbatim, so unpacking is checked against streams this code did not
/// produce.
const DEFLATE_FIXTURE: &str = "s6nIzbSK8PVUqMjNySu2AvJs1TNKSgqs9PXLy8v18nPT9fKL0vWLC1KT9YHK9I0MDI0NDQwM1aEaSnNzcGsI9fVBaLCzAaq18s1PSc1RyEvMTbVVT85PS0tN1c1NTM7IzEsFmZhplZliqx5vqK5PgmojklQbg1TrQ31tBwA=";
const ZIP_FIXTURE: &str = "UEsDBBQAAAAIADNJNl2pTzqNfQAAAP8AAAAJAAAAbW9kZWwueG1ps6nIzbSK8PVUqMjNySu2AvJs1TNKSgqs9PXLy8v18nPT9fKL0vWLC1KT9YHK9I0MDI0NDQwM1aEaSnNzcGsI9fVBaLCzAaq18s1PSc1RyEvMTbVVT85PS0tN1c1NTM7IzEsFmZhplZliqx5vqK5PgmojklQbg1TrQ31tBwBQSwECFAAUAAAACAAzSTZdqU86jX0AAAD/AAAACQAAAAAAAAAAAAAAAAAAAAAAbW9kZWwueG1pUEsFBgAAAAABAAEANwAAAKQAAAAAAA==";
const FIXTURE_TEXT: &str = "<xmi:XMI xmlns:xmi='http://www.omg.org/spec/XMI/20131001' xmlns:uml='http://www.omg.org/spec/UML/20131001'><uml:Model name='coffee-machine' xmi:id='_1'/><uml:Model name='coffee-machine' xmi:id='_2'/><uml:Model name='coffee-machine' xmi:id='_3'/></xmi:XMI>";

fn fixture(encoded: &str) -> Vec<u8> {
    base64::engine::general_purpose::STANDARD
        .decode(encoded)
        .expect("the fixture must be valid base64")
}

/// The smallest zip that stores one entry without compressing it.
fn stored_zip(name: &str, data: &[u8]) -> Vec<u8> {
    let mut out = Vec::new();
    out.extend_from_slice(&0x0403_4b50u32.to_le_bytes());
    out.extend_from_slice(&20u16.to_le_bytes());
    out.extend_from_slice(&0u16.to_le_bytes());
    out.extend_from_slice(&0u16.to_le_bytes());
    out.extend_from_slice(&0u16.to_le_bytes());
    out.extend_from_slice(&0u16.to_le_bytes());
    out.extend_from_slice(&0u32.to_le_bytes());
    out.extend_from_slice(&(data.len() as u32).to_le_bytes());
    out.extend_from_slice(&(data.len() as u32).to_le_bytes());
    out.extend_from_slice(&(name.len() as u16).to_le_bytes());
    out.extend_from_slice(&0u16.to_le_bytes());
    out.extend_from_slice(name.as_bytes());
    out.extend_from_slice(data);
    let central = out.len();
    out.extend_from_slice(&0x0201_4b50u32.to_le_bytes());
    out.extend_from_slice(&20u16.to_le_bytes());
    out.extend_from_slice(&20u16.to_le_bytes());
    out.extend_from_slice(&0u16.to_le_bytes());
    out.extend_from_slice(&0u16.to_le_bytes());
    out.extend_from_slice(&0u16.to_le_bytes());
    out.extend_from_slice(&0u16.to_le_bytes());
    out.extend_from_slice(&0u32.to_le_bytes());
    out.extend_from_slice(&(data.len() as u32).to_le_bytes());
    out.extend_from_slice(&(data.len() as u32).to_le_bytes());
    out.extend_from_slice(&(name.len() as u16).to_le_bytes());
    out.extend_from_slice(&0u16.to_le_bytes());
    out.extend_from_slice(&0u16.to_le_bytes());
    out.extend_from_slice(&0u16.to_le_bytes());
    out.extend_from_slice(&0u16.to_le_bytes());
    out.extend_from_slice(&0u32.to_le_bytes());
    out.extend_from_slice(&0u32.to_le_bytes());
    out.extend_from_slice(name.as_bytes());
    let central_size = out.len() - central;
    out.extend_from_slice(&0x0605_4b50u32.to_le_bytes());
    out.extend_from_slice(&0u16.to_le_bytes());
    out.extend_from_slice(&0u16.to_le_bytes());
    out.extend_from_slice(&1u16.to_le_bytes());
    out.extend_from_slice(&1u16.to_le_bytes());
    out.extend_from_slice(&(central_size as u32).to_le_bytes());
    out.extend_from_slice(&(central as u32).to_le_bytes());
    out.extend_from_slice(&0u16.to_le_bytes());
    out
}

#[test]
fn detection_prefers_the_bytes_over_the_file_name() {
    assert_eq!(detect(b"PK\x03\x04rest", "CoffeeMachine.mdzip"), Format::Cameo);
    assert_eq!(
        detect(b"<?xml version='1.0'?><xmi:XMI xmlns:uml='x'>", "model.xml"),
        Format::Xmi
    );
    assert_eq!(
        detect(b"package Coffee {\n  part def Machine;\n}", "model.txt"),
        Format::SysmlV2
    );
    assert!(matches!(detect(b"hello", "notes.txt"), Format::Unknown(_)));
}

#[test]
fn a_project_name_is_derived_from_the_file_and_obeys_the_name_rule() {
    assert_eq!(derived_project_name("coffee-machine.xmi"), "coffee-machine");
    assert_eq!(
        derived_project_name("C:\\models\\Coffee Machine.mdzip"),
        "Coffee-Machine"
    );
    assert_eq!(derived_project_name("model.xmi"), "model");
    assert_eq!(derived_project_name("...xmi"), "model");
    assert_eq!(
        derived_project_name(&format!("{}.xmi", "a".repeat(90))).len(),
        64
    );
}

#[test]
fn a_real_deflate_stream_and_a_real_cameo_container_are_unpacked() {
    let deflated = fixture(DEFLATE_FIXTURE);
    assert_eq!(
        inflate(&deflated, FIXTURE_TEXT.len()).unwrap(),
        FIXTURE_TEXT.as_bytes(),
        "the deflate decoder must reproduce what a real compressor wrote"
    );
    let container = fixture(ZIP_FIXTURE);
    assert!(is_zip(&container));
    let extracted = extract_cameo(&container).unwrap();
    assert_eq!(extracted, FIXTURE_TEXT.as_bytes());
    assert_eq!(detect(&extracted, "model.xmi"), Format::Xmi);
    let stored = stored_zip("model.xmi", FIXTURE_TEXT.as_bytes());
    assert_eq!(
        extract_cameo(&stored).unwrap(),
        FIXTURE_TEXT.as_bytes(),
        "a stored entry is copied byte for byte"
    );
}

#[test]
fn a_damaged_deflate_stream_is_refused_rather_than_trusted() {
    let deflated = fixture(DEFLATE_FIXTURE);
    assert!(inflate(&deflated, FIXTURE_TEXT.len() + 1).is_err());
    assert!(inflate(&deflated, FIXTURE_TEXT.len() - 1).is_err());
    assert!(inflate(&deflated[..deflated.len() / 2], FIXTURE_TEXT.len()).is_err());
    let not_a_zip = b"PK\x03\x04garbage".to_vec();
    assert!(extract_cameo(&not_a_zip).is_err());
}

fn blocking_subjects() -> Vec<String> {
    // The blocking entries of a report: every entry that is not an exact mapping.
    vec![
        "uml:Property _a".to_string(),
        "uml:Property _b".to_string(),
        "uml:Class _c".to_string(),
        "uml:Class _d".to_string(),
        "uml:Model _e".to_string(),
    ]
}

#[test]
fn loss_classes_partition_the_blocking_set_and_name_the_engines_own_constructs() {
    let blocking = blocking_subjects();
    let classes = loss_classes(&blocking, 5);
    assert_eq!(classes.len(), 3, "three classes, not one per entry");
    assert_eq!(classes[0].name, "uml:Class");
    assert_eq!(classes[0].count, 2);
    assert_eq!(classes[1].name, "uml:Property");
    assert_eq!(classes[1].count, 2);
    assert_eq!(classes[2].name, "uml:Model");
    assert_eq!(classes[2].count, 1);
    let total: u64 = classes.iter().map(|class| class.count).sum();
    assert_eq!(total, blocking.len() as u64);
}

#[test]
fn a_loss_class_names_its_first_entry_as_the_example() {
    let classes = loss_classes(&blocking_subjects(), 5);
    assert_eq!(classes[0].example, "uml:Class _c");
    assert_eq!(classes[1].example, "uml:Property _a");
    assert_eq!(classes[2].example, "uml:Model _e");
}

#[test]
fn loss_classes_are_cut_at_the_limit_biggest_first() {
    let classes = loss_classes(&blocking_subjects(), 1);
    assert_eq!(classes.len(), 1);
    assert_eq!(classes[0].name, "uml:Class");
    assert!(loss_classes(&[], 5).is_empty());
}

#[test]
fn the_class_of_an_entry_is_its_first_word_after_leading_space() {
    let classes = loss_classes(&["   uml:Port  _p".to_string(), "".to_string()], 5);
    assert_eq!(classes.len(), 2);
    // One entry each; ties break by name, and the empty name sorts first.
    assert_eq!(classes[0].name, "");
    assert_eq!(classes[1].name, "uml:Port");
}

#[test]
fn the_markers_are_read_from_the_bytes() {
    assert!(looks_like_xmi(b"<root xmlns:uml='x'>"));
    assert!(looks_like_xmi(b"see http://www.omg.org/spec/XMI here"));
    assert!(!looks_like_xmi(b"<html>"));
    assert!(looks_like_sysmlv2(b"part def Engine;", "engine.sysml"));
    assert!(!is_zip(b"PK"));
}

#[test]
fn a_format_names_its_binding() {
    assert_eq!(
        Format::Cameo.binding("xmi", "2", "sysml", "1").as_deref(),
        Some("xmi@2")
    );
    assert_eq!(
        Format::SysmlV2.binding("xmi", "2", "sysml", "1").as_deref(),
        Some("sysml@1")
    );
    assert_eq!(Format::Unknown("x".to_string()).binding("a", "b", "c", "d"), None);
}

#[test]
fn the_facts_are_read_from_the_engine_values() {
    let facts = OnboardFacts::from_engine(FactsInput {
        format_label: "XMI".to_string(),
        binding: "xmi@2".to_string(),
        viewer: true,
        structure: 3,
        requirements: 2,
        graph: None,
        summary_nodes: 7,
        summary_edges: 9,
        artifact_bytes: 100,
        blocking: blocking_subjects(),
        unmappable: 3,
        lossy: 2,
        declarations: 1,
        round_trip: None,
        health: Some(HealthFacts {
            nodes: 7,
            relationships: 9,
            components: 1,
            isolated: 0,
            requirements: 2,
            covered: 2,
            uncovered: 0,
        }),
    });
    assert_eq!(facts.graph_nodes, 7);
    assert_eq!(facts.relationships, 9);
    assert_eq!(facts.blocking, 5);
    assert_eq!(facts.classes.len(), 3);
    assert!(facts.classes.len() <= MAX_LOSS_CLASSES);
}

#[test]
fn a_container_without_an_xmi_entry_is_refused() {
    let container = stored_zip("readme.txt", b"hi");
    assert_eq!(extract_cameo(&container), Err("the .mdzip container holds no model entry".to_string()));
    let uml = stored_zip("Model.UML", b"<xmi/>");
    assert_eq!(extract_cameo(&uml).unwrap(), b"<xmi/>".to_vec());
}
