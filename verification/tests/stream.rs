use workbench::access::Refusal;
use workbench::stream::{message_gate, UploadIntake};

#[test]
fn parts_set_what_they_name_and_losses_accumulate() {
    let mut intake = UploadIntake::new();
    intake.field("binding", "sysml-v1-xmi@2.4".to_string());
    intake.field("message", "import".to_string());
    intake.field("acceptLosses", "uml:Class _a".to_string());
    intake.field("acceptLosses", "uml:Class _b".to_string());
    intake.field("colour", "blue".to_string());
    intake.artifact_started();
    assert!(intake.chunk(10, 100));
    let request = intake.finish().ok().unwrap();
    assert_eq!(request.binding, "sysml-v1-xmi@2.4");
    assert_eq!(request.branch, "main");
    assert_eq!(request.message, "import");
    assert_eq!(request.holder, None);
    assert_eq!(request.accept_losses, vec!["uml:Class _a".to_string(), "uml:Class _b".to_string()]);
    assert!(message_gate(&request).is_ok());
}

#[test]
fn the_size_is_counted_against_the_limit_and_saturates() {
    let mut intake = UploadIntake::new();
    assert!(intake.chunk(60, 100));
    assert!(intake.chunk(40, 100));
    assert!(!intake.chunk(1, 100));
    assert_eq!(intake.received, 101);
    assert!(!intake.chunk(u64::MAX, 100));
    assert_eq!(intake.received, u64::MAX);
}

#[test]
fn a_finished_upload_needs_an_artifact_and_a_binding() {
    let intake = UploadIntake::new();
    assert!(matches!(intake.finish(), Err(Refusal::BadRequest(m)) if m == "the source artifact must be supplied as the `artifact` file field"));
    let mut intake = UploadIntake::new();
    intake.artifact_started();
    assert!(matches!(intake.finish(), Err(Refusal::BadRequest(m)) if m == "a binding must be selected"));
    let mut intake = UploadIntake::new();
    intake.artifact_started();
    intake.field("binding", "b@1".to_string());
    intake.field("branch", "feature".to_string());
    intake.field("holder", "lease".to_string());
    intake.field("message", "  ".to_string());
    let request = intake.finish().ok().unwrap();
    assert_eq!(request.branch, "feature");
    assert_eq!(request.holder, Some("lease".to_string()));
    assert!(matches!(message_gate(&request), Err(Refusal::BadRequest(m)) if m == "commit message must not be empty"));
}
