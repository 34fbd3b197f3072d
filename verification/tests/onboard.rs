use workbench::detect::Format;
use workbench::import::AcceptForm;
use workbench::facts::OnboardFacts;
use workbench::onboard::{accept_button_label, accept_plan, drop_gate, drop_plan, health_href, onboard_file_name, OnboardRefusal};

const XMI: (&str, &str) = ("sysml-v1-xmi", "2.4");
const SYSML: (&str, &str) = ("sysml-v2-text", "1.0");

fn words(r: OnboardRefusal) -> (u8, String) {
    match r {
        OnboardRefusal::Forbidden(m) => (0, m),
        OnboardRefusal::BadRequest(m) => (1, m),
        OnboardRefusal::Unprocessable(m) => (2, m),
    }
}

fn accept(hash: &str, message: &str, holder: &str, losses: &[&str]) -> AcceptForm {
    AcceptForm {
        artifact_hash: hash.to_string(),
        branch: "main".to_string(),
        message: message.to_string(),
        holder: holder.to_string(),
        accept_losses: losses.iter().map(|s| s.to_string()).collect(),
    }
}

#[test]
fn a_drop_needs_write_permission_first() {
    let r = drop_plan(false, Some(10), 5, &Format::Unknown("x".to_string()), "", "", "m.xmi", XMI, SYSML);
    assert_eq!(words(r.err().unwrap()), (0, "write permission required".to_string()));
}

#[test]
fn an_oversized_drop_is_refused_with_both_sizes() {
    let r = drop_plan(true, Some(2048), 1024, &Format::Xmi, "", "", "m.xmi", XMI, SYSML);
    assert_eq!(
        words(r.err().unwrap()),
        (
            2,
            "the dropped file is larger than this server accepts: 2048 bytes received, limit 1024 bytes (MW_MAX_BODY_BYTES). Nothing was imported and nothing was stored; raise the limit and drop it again.".to_string()
        )
    );
}

#[test]
fn an_unrecognised_drop_names_what_was_seen() {
    let r = drop_plan(true, None, 1024, &Format::Unknown("it starts with hello".to_string()), "", "", "notes.txt", XMI, SYSML);
    assert_eq!(
        words(r.err().unwrap()),
        (
            2,
            "This file was not recognised, so nothing was imported: it starts with hello. Drop an XMI export, a Cameo .mdzip container or a SysML v2 .sysml file.".to_string()
        )
    );
}

#[test]
fn a_drop_takes_the_formats_binding_and_the_files_name() {
    let plan = drop_plan(true, None, 1024, &Format::Cameo, "  ", "", "C:\\models\\Coffee Machine.mdzip", XMI, SYSML).ok().unwrap();
    assert_eq!(plan.binding, "sysml-v1-xmi@2.4");
    assert_eq!(plan.project, "Coffee-Machine");
    assert!(!plan.project_typed);
    assert_eq!(plan.message, "onboard C:\\models\\Coffee Machine.mdzip");
    let plan = drop_plan(true, None, 1024, &Format::SysmlV2, "", "", "coffee.sysml", XMI, SYSML).ok().unwrap();
    assert_eq!(plan.binding, "sysml-v2-text@1.0");
}

#[test]
fn typed_choices_win_trimmed() {
    let plan = drop_plan(true, None, 1024, &Format::Xmi, " custom@3 ", " plant ", "m.xmi", XMI, SYSML).ok().unwrap();
    assert_eq!(plan.binding, "custom@3");
    assert_eq!(plan.project, "plant");
    assert!(plan.project_typed);
}

#[test]
fn an_acceptance_is_checked_in_order() {
    let ok = accept("abc", "onboard m.xmi", "", &["accept_loss_0"]);
    assert_eq!(words(accept_plan(false, true, &ok, None).err().unwrap()), (0, "write permission required".to_string()));
    assert_eq!(words(accept_plan(true, false, &ok, None).err().unwrap()), (0, "project not in scope".to_string()));
    let no_hash = accept("", "m", "", &["a"]);
    assert_eq!(words(accept_plan(true, true, &no_hash, None).err().unwrap()), (1, "an artifact hash is required".to_string()));
    let no_loss = accept("abc", "m", "", &[]);
    assert_eq!(words(accept_plan(true, true, &no_loss, None).err().unwrap()), (1, "at least one accepted loss is required".to_string()));
    let blank = accept("abc", "  ", "", &["a"]);
    assert_eq!(words(accept_plan(true, true, &blank, None).err().unwrap()), (1, "commit message must not be empty".to_string()));
    assert_eq!(accept_plan(true, true, &ok, None).ok().unwrap(), None);
    let held = accept("abc", "m", "lease-1", &["a"]);
    assert_eq!(accept_plan(true, true, &held, None).ok().unwrap(), Some("lease-1".to_string()));
}

#[test]
fn the_file_name_comes_back_from_the_message() {
    assert_eq!(onboard_file_name("onboard coffee.xmi"), "coffee.xmi");
    assert_eq!(onboard_file_name("merge things"), "merge things");
    assert_eq!(onboard_file_name("onboard "), "");
}

fn facts(blocks: u64, relationships: u64, blocking: u64) -> OnboardFacts {
    OnboardFacts {
        format_label: String::new(),
        binding: String::new(),
        viewer: false,
        blocks,
        relationships,
        requirements: 0,
        graph_nodes: 0,
        artifact_bytes: 0,
        blocking,
        unmappable: 0,
        lossy: 0,
        declarations: 0,
        round_trip: None,
        classes: vec![],
        health: None,
    }
}

#[test]
fn the_accept_button_says_what_it_imports() {
    assert_eq!(accept_button_label(&None), "Accept the losses and import");
    assert_eq!(
        accept_button_label(&Some(facts(12, 1, 3))),
        "Import 12 blocks and 1 relationship, accepting these 3 named losses"
    );
    assert_eq!(accept_button_label(&Some(facts(1, 0, 1))), "Import 1 block and 0 relationships, accepting these 1 named loss");
}

#[test]
fn the_check_link_names_the_commit_or_the_branch() {
    assert_eq!(health_href("coffee machine", Some("abc123")), "/ui/projects/coffee%20machine/health?commit=abc123");
    assert_eq!(health_href("coffee", None), "/ui/projects/coffee/health?branch=main");
}

#[test]
fn a_bad_branch_name_is_refused_before_a_blank_message() {
    let form = AcceptForm {
        artifact_hash: "h".to_string(),
        branch: "bad name".to_string(),
        message: " ".to_string(),
        holder: String::new(),
        accept_losses: vec!["uml:Class _c".to_string()],
    };
    let refused = Some(OnboardRefusal::Unprocessable("invalid branch name".to_string()));
    assert_eq!(words(accept_plan(true, true, &form, refused).err().unwrap()), (2, "invalid branch name".to_string()));
    assert_eq!(words(accept_plan(true, true, &form, None).err().unwrap()), (1, "commit message must not be empty".to_string()));
}

#[test]
fn a_drop_is_refused_before_it_is_read() {
    assert!(drop_gate(true).is_ok());
    assert_eq!(words(drop_gate(false).err().unwrap()), (0, "write permission required".to_string()));
}
