use canvas_core::entities::{create_card, create_project, new_card, new_project, update_project};
use canvas_core::assets::finish_ingest;
use canvas_core::assets::plan_ingest_from_path_at;
use canvas_core::error::CoreError;

#[test]
fn new_card_counts_words_and_stamps_times() {
    let card = new_card("c1".to_string(), None, "hello  world\nthird".to_string(), 42);
    assert_eq!(card.word_count, 3);
    assert_eq!(card.content_type, "tiptap");
    assert_eq!(card.created_at, 42);
    assert_eq!(card.updated_at, 42);
    assert!(!card.is_hidden);
}

#[test]
fn empty_content_has_zero_words() {
    let card = new_card("c1".to_string(), None, String::new(), 1);
    assert_eq!(card.word_count, 0);
    let spaces = new_card("c2".to_string(), None, "   ".to_string(), 1);
    assert_eq!(spaces.word_count, 0);
}

#[test]
fn created_entities_stamp_both_timestamps_alike() {
    let p = create_project("p1".to_string(), "Title".to_string(), None, None);
    assert_eq!(p.created_at, p.updated_at);
    assert_eq!(p.id, "p1");
    let c = create_card("c1".to_string(), Some("t".to_string()), "one two".to_string());
    assert_eq!(c.created_at, c.updated_at);
    assert_eq!(c.word_count, 2);
}

#[test]
fn new_project_keeps_fields() {
    let p = new_project(
        "p1".to_string(),
        "Novel".to_string(),
        Some("a draft".to_string()),
        Some("#fff".to_string()),
        7,
    );
    assert_eq!(p.title, "Novel");
    assert_eq!(p.description.as_deref(), Some("a draft"));
    assert_eq!(p.color.as_deref(), Some("#fff"));
    assert_eq!(p.created_at, 7);
}

#[test]
fn updating_a_project_defaults_a_missing_title() {
    let p = update_project("p1".to_string(), None, Some("d".to_string()), None, 9);
    assert_eq!(p.title, "");
    assert_eq!(p.description.as_deref(), Some("d"));
    assert_eq!(p.created_at, 9);
    let q = update_project("p1".to_string(), Some("New".to_string()), None, None, 10);
    assert_eq!(q.title, "New");
}

#[test]
fn locator_is_returned_only_after_durable_write() {
    let plan = plan_ingest_from_path_at(true, "a.txt", "other", 5).unwrap();
    let loc = plan.locator.clone();
    let ok = finish_ingest(plan, None);
    assert_eq!(ok.unwrap(), loc);
    let plan2 = plan_ingest_from_path_at(true, "a.txt", "other", 6).unwrap();
    match finish_ingest(plan2, Some("disk full".to_string())) {
        Err(CoreError::IoFailure { detail, .. }) => assert_eq!(detail, "disk full"),
        _ => panic!("expected IoFailure"),
    }
}

#[test]
fn error_messages_are_descriptive() {
    let e = CoreError::NotFound { path: "foo.pdf".to_string() };
    assert_eq!(e.message(), "not found: foo.pdf");
    let io = CoreError::IoFailure {
        op: "copy".to_string(),
        path: "pdfs/1_a.pdf".to_string(),
        detail: "denied".to_string(),
    };
    assert!(io.message().contains("copy"));
    assert!(io.message().contains("denied"));
}
