use canvas_core::coordinator::{derive_record, join, on_entity_changed, rebuild_all, EntitySnapshot};
use canvas_core::entities::{new_board, new_card, new_project, Tag};
use canvas_core::index::{EntityType, SearchIndex};

fn card_snapshot(id: &str, title: Option<&str>, content: &str, tags: &[&str]) -> EntitySnapshot {
    EntitySnapshot::Card {
        card: new_card(id.to_string(), title.map(|t| t.to_string()), content.to_string(), 100),
        tag_names: tags.iter().map(|t| t.to_string()).collect(),
    }
}

#[test]
fn derived_card_record_joins_tags() {
    let snap = card_snapshot("c1", Some("My card"), "alpha beta", &["red", "blue"]);
    let rec = derive_record(snap).unwrap();
    assert_eq!(rec.entity_id, "c1");
    assert_eq!(rec.title, "My card");
    assert_eq!(rec.content, "alpha beta");
    assert_eq!(rec.tags, "red blue");
    assert_eq!(rec.updated_at, 100);
}

#[test]
fn join_handles_empty_and_single() {
    assert_eq!(join(&vec![]), "");
    assert_eq!(join(&vec!["one".to_string()]), "one");
    assert_eq!(join(&vec!["a".to_string(), "b".to_string(), "c".to_string()]), "a b c");
}

#[test]
fn derivation_rejects_empty_id() {
    let snap = card_snapshot("", None, "text", &[]);
    let r = derive_record(snap);
    assert!(r.is_err());
}

#[test]
fn entity_change_upserts_and_deletion_removes() {
    let mut idx = SearchIndex::new();
    let snap = card_snapshot("c1", None, "alpha beta", &["urgent"]);
    on_entity_changed(&mut idx, EntityType::Card, &"c1".to_string(), Some(snap)).unwrap();
    let found = idx.query("urgent", &vec![], None, None, None);
    assert_eq!(found.len(), 1);
    assert_eq!(found[0].entity_id, "c1");
    on_entity_changed(&mut idx, EntityType::Card, &"c1".to_string(), None).unwrap();
    let gone = idx.query("urgent", &vec![], None, None, None);
    assert!(gone.is_empty());
}

#[test]
fn board_and_project_snapshots_index_their_titles() {
    let mut idx = SearchIndex::new();
    let board = new_board("b1".to_string(), "p1".to_string(), "Storyboard".to_string(), 0, 50);
    on_entity_changed(
        &mut idx,
        EntityType::Board,
        &"b1".to_string(),
        Some(EntitySnapshot::Board { board }),
    )
    .unwrap();
    let project = new_project("p1".to_string(), "Novel".to_string(), Some("draft outline".to_string()), None, 60);
    on_entity_changed(
        &mut idx,
        EntityType::Project,
        &"p1".to_string(),
        Some(EntitySnapshot::Project { project }),
    )
    .unwrap();
    assert_eq!(idx.query("storyboard", &vec![], None, None, None).len(), 1);
    assert_eq!(idx.query("outline", &vec![], None, None, None).len(), 1);
}

#[test]
fn rebuild_all_reports_counts_and_skips_failures() {
    let mut idx = SearchIndex::new();
    idx.upsert(canvas_core::index::IndexRecord {
        entity_type: EntityType::Card,
        entity_id: "stale".to_string(),
        title: String::new(),
        content: "stale content".to_string(),
        tags: String::new(),
        updated_at: 1,
    })
    .unwrap();
    let tag = Tag {
        id: "t1".to_string(),
        name: "research".to_string(),
        color: None,
        group_id: None,
        position: 0,
        created_at: 10,
    };
    let report = rebuild_all(
        &mut idx,
        vec![
            card_snapshot("c1", None, "alpha", &[]),
            card_snapshot("", None, "invalid", &[]),
            EntitySnapshot::Tag { tag },
        ],
    );
    assert_eq!(report.written, 2);
    assert_eq!(report.skipped, 1);
    assert_eq!(report.cards, 1);
    assert_eq!(report.tags, 1);
    assert_eq!(report.boards, 0);
    // the rebuild replaced the stale record
    assert!(idx.query("stale", &vec![], None, None, None).is_empty());
    assert_eq!(idx.query("research", &vec![], None, None, None).len(), 1);
}
