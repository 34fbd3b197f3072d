use workbench::create::{model_source, ModelSource};
use workbench::access::Refusal;
use workbench::create::element_form_error;
use workbench::create::ElementInput;
use workbench::editing::{edit_step, EditAction, EditEvent, EditPhase};
use workbench::create::{add_element, empty_model, ModelDocument};
use workbench::scope::{Graph, GraphNode};
use workbench::edit::{parse_attributes, split_stereotypes, EditInput, Element, Attribute};
use workbench::form::{branch_field, field, parse_accept_losses, FormFields};
use workbench::import::{AcceptForm, ImportForm};
use workbench::number::{parse_i64_of, parse_usize_from};
use workbench::text::{split_lines, trim_text};

fn form(pairs: &[(&str, &str)]) -> FormFields {
    let mut f = FormFields::new();
    for (k, v) in pairs {
        f.insert(k.to_string(), v.to_string());
    }
    f
}

fn chars(s: &str) -> Vec<char> {
    s.chars().collect()
}

#[test]
fn a_field_is_read_or_empty() {
    let f = form(&[("message", "hello"), ("message", "again")]);
    assert_eq!(f.len(), 1, "a name occurs once; a later value replaces it");
    assert_eq!(field(&f, "message"), "again");
    assert_eq!(field(&f, "absent"), "");
}

#[test]
fn the_branch_defaults_to_the_main_line() {
    assert_eq!(branch_field(&form(&[])), "main");
    assert_eq!(branch_field(&form(&[("branch", "")])), "main");
    assert_eq!(branch_field(&form(&[("branch", "feature")])), "feature");
}

#[test]
fn the_checked_boxes_come_back_in_checkbox_order() {
    let f = form(&[
        ("accept_loss_10", "ten"),
        ("accept_loss_2", "two"),
        ("accept_loss_x", "not a number"),
        ("other", "ignored"),
        ("accept_loss_0", "zero"),
    ]);
    assert_eq!(parse_accept_losses(&f), vec!["zero", "two", "ten"]);
}

#[test]
fn a_box_is_read_back_under_its_canonical_name() {
    // "+3" and "03" both name box 3; each is read back as accept_loss_3, which is absent.
    let f = form(&[("accept_loss_+3", "plus"), ("accept_loss_03", "padded")]);
    assert!(parse_accept_losses(&f).is_empty());
    // With the canonical name present, each number found reads it once.
    let g = form(&[("accept_loss_3", "three"), ("accept_loss_03", "padded")]);
    assert_eq!(parse_accept_losses(&g), vec!["three", "three"]);
}

#[test]
fn accept_all_splits_the_identities_as_a_browser_sends_them() {
    let f = form(&[
        ("artifactHash", "abc"),
        ("accept_all", "1"),
        ("all_losses", "one\r\ntwo\r\n\r\nthree"),
        ("accept_loss_0", "ignored"),
    ]);
    let a = AcceptForm::from_form(&f);
    assert_eq!(a.accept_losses, vec!["one", "two", "three"]);
    assert_eq!(a.artifact_hash, "abc");
    assert_eq!(a.branch, "main");
    assert_eq!(a.holder, "");
}

#[test]
fn without_accept_all_the_boxes_are_read() {
    let f = form(&[("accept_all", "0"), ("all_losses", "one"), ("accept_loss_1", "box")]);
    assert_eq!(AcceptForm::from_form(&f).accept_losses, vec!["box"]);
}

#[test]
fn an_import_form_carries_its_fields() {
    let f = form(&[
        ("binding", "xmi@2"),
        ("branch", "dev"),
        ("artifact", "<xmi/>"),
        ("accept_loss_1", "b"),
    ]);
    let i = ImportForm::from_form(&f);
    assert_eq!(i.binding, "xmi@2");
    assert_eq!(i.branch, "dev");
    assert_eq!(i.message, "");
    assert_eq!(i.artifact, "<xmi/>");
    assert_eq!(i.accept_losses, vec!["b"]);
}

#[test]
fn lines_are_split_as_str_lines_splits_them() {
    assert_eq!(split_lines("a\r\nb\nc"), vec!["a", "b", "c"]);
    assert_eq!(split_lines("a\n"), vec!["a"]);
    assert_eq!(split_lines(""), Vec::<String>::new());
    assert_eq!(split_lines("a\r"), vec!["a\r"]);
    assert_eq!(split_lines("\n\n"), vec!["", ""]);
}

#[test]
fn numbers_are_read_as_parse_reads_them() {
    assert_eq!(parse_usize_from(&chars("42"), 0), Some(42));
    assert_eq!(parse_usize_from(&chars("+7"), 0), Some(7));
    assert_eq!(parse_usize_from(&chars("-7"), 0), None);
    assert_eq!(parse_usize_from(&chars("+"), 0), None);
    assert_eq!(parse_usize_from(&chars(""), 0), None);
    assert_eq!(parse_usize_from(&chars("99999999999999999999999"), 0), None);
    assert_eq!(parse_usize_from(&chars("x12"), 1), Some(12));
    assert_eq!(parse_i64_of(&chars("-9223372036854775808")), Some(i64::MIN));
    assert_eq!(parse_i64_of(&chars("9223372036854775807")), Some(i64::MAX));
    assert_eq!(parse_i64_of(&chars("9223372036854775808")), None);
    assert_eq!(parse_i64_of(&chars("12a")), None);
    assert_eq!(parse_i64_of(&chars("+5")), Some(5));
}

#[test]
fn trimming_removes_white_space_at_both_ends() {
    assert_eq!(trim_text("  a b \t\n"), "a b");
    assert_eq!(trim_text("\u{3000}x"), "x");
    assert_eq!(trim_text("   "), "");
}

#[test]
fn stereotypes_are_split_and_trimmed() {
    assert_eq!(split_stereotypes("Block, Signal"), vec!["Block", "Signal"]);
    assert!(split_stereotypes("").is_empty());
    assert_eq!(split_stereotypes(" , a ,, "), vec!["a"]);
}

#[test]
fn attributes_with_blank_names_are_dropped() {
    let f = form(&[
        ("attr_count", "3"),
        ("attr_name_0", "mass"),
        ("attr_type_0", "Real"),
        ("attr_name_1", "   "),
        ("attr_name_2", "power"),
        ("attr_default_2", "5"),
    ]);
    let attrs = parse_attributes(&f);
    assert_eq!(attrs.len(), 2);
    assert_eq!(attrs[0].name, "mass");
    assert_eq!(attrs[0].attr_type, "Real");
    assert_eq!(attrs[0].aggregation, "");
    assert_eq!(attrs[1].name, "power");
    assert_eq!(attrs[1].default, "5");
    assert!(parse_attributes(&form(&[("attr_name_0", "x")])).is_empty(), "no count, no rows");
}

#[test]
fn an_edit_form_keeps_the_element_id_when_it_names_none() {
    let e = EditInput::from_form(&form(&[("name", "Pump")]), "blk-1");
    assert_eq!(e.id, "blk-1");
    assert_eq!(e.name, "Pump");
    assert_eq!(e.branch, "main");
    let emptied = EditInput::from_form(&form(&[("id", "")]), "blk-1");
    assert_eq!(emptied.id, "");
}

#[test]
fn an_edit_form_is_filled_from_the_element() {
    let element = Element {
        id: "b".to_string(),
        name: "Boiler".to_string(),
        documentation: "heats".to_string(),
        stereotypes: vec!["Block".to_string(), "Part".to_string()],
        attributes: vec![Attribute {
            name: "t".to_string(),
            attr_type: "Real".to_string(),
            aggregation: String::new(),
            default: String::new(),
        }],
    };
    let e = EditInput::from_element("dev", &element);
    assert_eq!(e.stereotypes, "Block, Part");
    assert_eq!(e.attributes.len(), 1);
    assert_eq!(e.branch, "dev");
    assert_eq!(e.message, "");
}

#[test]
fn an_element_form_carries_its_fields() {
    let e = ElementInput::from_form(&form(&[("kind", "block"), ("name", "Pump")]));
    assert_eq!(e.kind, "block");
    assert_eq!(e.name, "Pump");
    assert_eq!(e.id, "");
    assert_eq!(e.branch, "main");
}

fn element(id: &str) -> workbench::edit::Element {
    workbench::edit::Element { id: id.to_string(), name: String::new(), documentation: String::new(), stereotypes: vec![], attributes: vec![] }
}

#[test]
fn an_edit_passes_its_checks_in_order() {
    let input = |message: &str| workbench::edit::EditInput {
        id: "b1".to_string(),
        name: "Pump".to_string(),
        documentation: String::new(),
        stereotypes: String::new(),
        attributes: vec![],
        branch: "main".to_string(),
        message: message.to_string(),
    };
    assert!(matches!(workbench::editing::edit_gate(false, true, None, &input("m")), Err(Refusal::Forbidden(m)) if m == "write permission required"));
    assert!(matches!(workbench::editing::edit_gate(true, false, None, &input("m")), Err(Refusal::Forbidden(m)) if m == "project not in scope"));
    assert!(matches!(workbench::editing::edit_gate(true, true, None, &input(" \t")), Err(Refusal::BadRequest(m)) if m == "commit message must not be empty"));
    assert!(workbench::editing::edit_gate(true, true, None, &input("rename")).is_ok());
    let refused = Some(Refusal::BadRequest("invalid branch name".to_string()));
    assert!(matches!(workbench::editing::edit_gate(true, true, refused, &input(" ")), Err(Refusal::BadRequest(m)) if m == "invalid branch name"));
    let refused = Some(Refusal::BadRequest("invalid branch name".to_string()));
    assert!(matches!(workbench::editing::edit_gate(false, true, refused, &input(" ")), Err(Refusal::Forbidden(_))));
}

#[test]
fn an_edit_names_the_first_element_with_its_id_and_sets_its_fields() {
    let mut elements = vec![element("a"), element("b"), element("b")];
    assert_eq!(workbench::editing::find_element(&elements, "b"), Some(1));
    assert_eq!(workbench::editing::find_element(&elements, "z"), None);
    let input = workbench::edit::EditInput {
        id: "b2".to_string(),
        name: "Pump".to_string(),
        documentation: "Moves water".to_string(),
        stereotypes: " Block , , Part".to_string(),
        attributes: vec![workbench::edit::Attribute {
            name: "flow".to_string(),
            attr_type: "Real".to_string(),
            aggregation: "none".to_string(),
            default: "0".to_string(),
        }],
        branch: "main".to_string(),
        message: "edit".to_string(),
    };
    workbench::editing::apply_edit(&mut elements[1], &input);
    assert_eq!(elements[1].id, "b2");
    assert_eq!(elements[1].name, "Pump");
    assert_eq!(elements[1].documentation, "Moves water");
    assert_eq!(elements[1].stereotypes, vec!["Block".to_string(), "Part".to_string()]);
    assert_eq!(elements[1].attributes.len(), 1);
    assert_eq!(elements[1].attributes[0].attr_type, "Real");
}

#[test]
fn the_add_element_form_is_refused_for_the_first_problem() {
    let input = |kind: &str, req_id: &str, message: &str| ElementInput {
        kind: kind.to_string(),
        id: "x".to_string(),
        name: "X".to_string(),
        req_id: req_id.to_string(),
        text: String::new(),
        branch: "main".to_string(),
        message: message.to_string(),
    };
    assert_eq!(element_form_error(&input("actor", "", "")), Some("commit message must not be empty".to_string()));
    assert_eq!(element_form_error(&input("actor", "", "add")), Some("kind must be block or requirement".to_string()));
    assert_eq!(element_form_error(&input("requirement", "  ", "add")), Some("a requirement needs a reqId".to_string()));
    assert_eq!(element_form_error(&input("requirement", "R-1", "add")), None);
    assert_eq!(element_form_error(&input("block", "", "add")), None);
}

#[test]
fn a_new_model_starts_empty_or_from_a_paste() {
    assert!(matches!(model_source(&form(&[("mode", "empty")])), Ok(ModelSource::Empty)));
    assert!(matches!(model_source(&form(&[("mode", "paste"), ("okf", "{}")])), Ok(ModelSource::Paste(t)) if t == "{}"));
    assert!(matches!(model_source(&form(&[("mode", "paste"), ("okf", "  ")])), Err(m) if m == "paste an OKF document"));
    assert!(matches!(model_source(&form(&[])), Err(m) if m == "choose to start from empty or paste a document"));
}

#[test]
fn stereotypes_round_trip_through_the_edit_form() {
    let stored = Element {
        id: "b1".to_string(),
        name: "Pump".to_string(),
        documentation: String::new(),
        stereotypes: vec!["Block".to_string(), "Signal".to_string()],
        attributes: vec![],
    };
    let shown = EditInput::from_element("main", &stored);
    assert_eq!(shown.stereotypes, "Block, Signal");
    assert_eq!(split_stereotypes(&shown.stereotypes), stored.stereotypes);
    let none = Element { stereotypes: vec![], ..stored };
    assert_eq!(split_stereotypes(&EditInput::from_element("main", &none).stereotypes), Vec::<String>::new());
}

fn new_element(kind: &str, id: &str, name: &str) -> ElementInput {
    ElementInput {
        kind: kind.to_string(),
        id: id.to_string(),
        name: name.to_string(),
        req_id: "R-7".to_string(),
        text: "shall pump".to_string(),
        branch: "main".to_string(),
        message: "add".to_string(),
    }
}

fn document(with_graph: bool) -> ModelDocument {
    ModelDocument {
        project: "pump".to_string(),
        structure: vec![],
        requirements: vec![],
        graph: if with_graph {
            Some(Graph { nodes: vec![GraphNode { id: "root".to_string(), name: "root".to_string(), kind: "block".to_string() }], edges: vec![] })
        } else {
            None
        },
        blocks: 0,
        requirement_count: 0,
        graph_nodes: if with_graph { 1 } else { 0 },
    }
}

#[test]
fn an_added_block_lands_in_the_structure_and_the_graph() {
    let r = add_element(document(true), &new_element("block", "b1", "Pump"));
    assert_eq!(r.structure.len(), 1);
    assert_eq!(r.structure[0].id, "b1");
    assert_eq!(r.structure[0].name, "Pump");
    assert_eq!(r.blocks, 1);
    assert_eq!(r.requirement_count, 0);
    assert_eq!(r.graph_nodes, 2);
    let graph = r.graph.unwrap();
    assert_eq!(graph.nodes.len(), 2);
    assert_eq!(graph.nodes[1].id, "b1");
    assert_eq!(graph.nodes[1].kind, "block");
}

#[test]
fn an_added_requirement_keeps_its_req_id_and_text() {
    let r = add_element(document(false), &new_element("requirement", "r1", "Flow"));
    assert_eq!(r.requirements.len(), 1);
    assert_eq!(r.requirements[0].req_id, "R-7");
    assert_eq!(r.requirements[0].req_text, "shall pump");
    assert_eq!(r.requirement_count, 1);
    assert!(r.graph.is_none());
    assert_eq!(r.graph_nodes, 0);
    let other = add_element(document(true), &new_element("port", "p1", "P"));
    assert_eq!(other.structure.len() + other.requirements.len(), 0);
    assert_eq!(other.graph_nodes, 1);
}

#[test]
fn an_empty_model_has_only_its_root_node() {
    let m = empty_model("pump");
    assert_eq!(m.project, "pump");
    assert!(m.structure.is_empty() && m.requirements.is_empty());
    let g = m.graph.unwrap();
    assert_eq!(g.nodes.len(), 1);
    assert_eq!((g.nodes[0].id.as_str(), g.nodes[0].kind.as_str()), ("root", "block"));
    assert_eq!((m.blocks, m.requirement_count, m.graph_nodes), (0, 0, 1));
    let added = add_element(empty_model("pump"), &new_element("block", "b1", "Pump"));
    assert_eq!(added.graph_nodes, 2);
    assert_eq!(added.project, "pump");
}

fn finish_of(r: (workbench::editing::EditPhase, Option<workbench::editing::EditAction>)) -> Option<String> {
    match r.1 {
        Some(workbench::editing::EditAction::Finish(workbench::editing::EditResult::Committed(h))) => Some(format!("committed {h}")),
        Some(workbench::editing::EditAction::Finish(workbench::editing::EditResult::Locked(m))) => Some(format!("locked {m}")),
        Some(workbench::editing::EditAction::Finish(workbench::editing::EditResult::Failed(m))) => Some(format!("failed {m}")),
        _ => None,
    }
}

#[test]
fn a_granted_lock_is_released_before_the_edit_ends() {
    use_edit_exchange();
}

fn use_edit_exchange() {
    let (phase, action) = edit_step(EditPhase::Start, EditEvent::Begin);
    assert!(matches!(action, Some(EditAction::AcquireLock)));
    let (phase, action) = edit_step(phase, EditEvent::LockGranted(vec!["l1".to_string()]));
    assert!(matches!(action, Some(EditAction::Commit)));
    let (phase, action) = edit_step(phase, EditEvent::CommitLocked("held by bob".to_string()));
    assert!(matches!(action, Some(EditAction::Release(ref ids)) if ids == &vec!["l1".to_string()]));
    let (phase, action) = edit_step(phase, EditEvent::Committed("x".to_string()));
    assert!(action.is_none());
    let done = edit_step(phase, EditEvent::Released);
    assert!(matches!(done.0, EditPhase::Done));
    assert_eq!(finish_of(done), Some("locked held by bob".to_string()));
}

#[test]
fn a_lock_refused_up_front_is_recorded_then_answered() {
    let (phase, action) = edit_step(EditPhase::Locking, EditEvent::LockRefused("held by ann".to_string()));
    assert!(matches!(action, Some(EditAction::RecordRefusal(ref m)) if m == "held by ann"));
    assert_eq!(finish_of(edit_step(phase, EditEvent::Recorded)), Some("locked held by ann".to_string()));
    let (phase, _) = edit_step(EditPhase::Locking, EditEvent::LockGranted(vec![]));
    let (phase, _) = edit_step(phase, EditEvent::Committed("c9".to_string()));
    assert_eq!(finish_of(edit_step(phase, EditEvent::Released)), Some("committed c9".to_string()));
    assert_eq!(finish_of(edit_step(EditPhase::Locking, EditEvent::Failed("disk".to_string()))), Some("failed disk".to_string()));
}
