use canvas_core::index::{EntityType, IndexRecord, SearchIndex};

fn card(id: &str, title: &str, content: &str, tags: &str, updated_at: i64) -> IndexRecord {
    IndexRecord {
        entity_type: EntityType::Card,
        entity_id: id.to_string(),
        title: title.to_string(),
        content: content.to_string(),
        tags: tags.to_string(),
        updated_at,
    }
}

#[test]
fn upsert_then_query_finds_key() {
    let mut idx = SearchIndex::new();
    idx.upsert(card("c1", "", "alpha beta", "", 100)).unwrap();
    let out = idx.query("beta", &vec![], None, None, None);
    assert_eq!(out.len(), 1);
    assert_eq!(out[0].entity_id, "c1");
    assert!(matches!(out[0].entity_type, EntityType::Card));
}

#[test]
fn remove_then_query_misses_until_reupsert() {
    let mut idx = SearchIndex::new();
    idx.upsert(card("c1", "", "alpha beta", "", 100)).unwrap();
    let removed = idx.remove(EntityType::Card, &"c1".to_string());
    assert!(removed);
    let out = idx.query("beta", &vec![], None, None, None);
    assert!(out.iter().all(|r| r.entity_id != "c1"));
    // removing again reports that nothing was there
    let removed_again = idx.remove(EntityType::Card, &"c1".to_string());
    assert!(!removed_again);
    // a later upsert restores the key
    idx.upsert(card("c1", "", "alpha beta", "", 101)).unwrap();
    let out2 = idx.query("beta", &vec![], None, None, None);
    assert_eq!(out2.len(), 1);
    assert_eq!(out2[0].entity_id, "c1");
}

#[test]
fn upsert_is_idempotent() {
    let mut once = SearchIndex::new();
    once.upsert(card("c1", "t", "alpha beta", "", 100)).unwrap();
    let mut twice = SearchIndex::new();
    twice.upsert(card("c1", "t", "alpha beta", "", 100)).unwrap();
    twice.upsert(card("c1", "t", "alpha beta", "", 100)).unwrap();
    assert_eq!(once.len(), 1);
    assert_eq!(twice.len(), 1);
    let a = once.query("alpha", &vec![], None, None, None);
    let b = twice.query("alpha", &vec![], None, None, None);
    assert_eq!(a.len(), b.len());
    for (x, y) in a.iter().zip(b.iter()) {
        assert_eq!(x.entity_id, y.entity_id);
        assert_eq!(x.rank, y.rank);
        assert_eq!(x.snippet, y.snippet);
    }
}

#[test]
fn rebuild_replaces_everything() {
    let mut idx = SearchIndex::new();
    idx.upsert(card("old1", "", "alpha beta", "", 100)).unwrap();
    idx.upsert(card("old2", "", "beta gamma", "", 100)).unwrap();
    let written = idx.rebuild(vec![
        card("new1", "", "delta beta", "", 200),
        card("new2", "", "epsilon", "", 200),
    ]);
    assert_eq!(written, 2);
    let out = idx.query("beta", &vec![], None, None, None);
    assert_eq!(out.len(), 1);
    assert_eq!(out[0].entity_id, "new1");
    let gone = idx.query("alpha", &vec![], None, None, None);
    assert!(gone.is_empty());
}

#[test]
fn repeated_queries_are_identical() {
    let mut idx = SearchIndex::new();
    idx.upsert(card("a", "", "beta one", "", 5)).unwrap();
    idx.upsert(card("b", "", "beta two", "", 9)).unwrap();
    idx.upsert(card("c", "", "beta three", "", 7)).unwrap();
    let first = idx.query("beta", &vec![], None, None, None);
    let second = idx.query("beta", &vec![], None, None, None);
    assert_eq!(first.len(), second.len());
    for (x, y) in first.iter().zip(second.iter()) {
        assert_eq!(x.entity_id, y.entity_id);
        assert_eq!(x.rank, y.rank);
        assert_eq!(x.title, y.title);
        assert_eq!(x.snippet, y.snippet);
    }
}

#[test]
fn date_filter_boundaries_are_inclusive() {
    let mut idx = SearchIndex::new();
    idx.upsert(card("c1", "", "alpha", "", 100)).unwrap();
    let at_from = idx.query("alpha", &vec![], Some(100), Some(200), None);
    assert_eq!(at_from.len(), 1);
    let at_to = idx.query("alpha", &vec![], Some(50), Some(100), None);
    assert_eq!(at_to.len(), 1);
    let before = idx.query("alpha", &vec![], Some(101), None, None);
    assert!(before.is_empty());
    let after = idx.query("alpha", &vec![], None, Some(99), None);
    assert!(after.is_empty());
}

#[test]
fn two_cards_and_boolean_and_semantics() {
    let mut idx = SearchIndex::new();
    idx.upsert(card("c1", "", "alpha beta", "", 100)).unwrap();
    idx.upsert(card("c2", "", "beta gamma", "", 200)).unwrap();
    let both = idx.query("beta", &vec![], None, None, None);
    assert_eq!(both.len(), 2);
    // equal scores: the more recently updated card wins the tie
    assert_eq!(both[0].entity_id, "c2");
    assert_eq!(both[1].entity_id, "c1");
    let neither = idx.query("alpha gamma", &vec![], None, None, None);
    assert!(neither.is_empty());
}

#[test]
fn matching_is_case_insensitive() {
    let mut idx = SearchIndex::new();
    idx.upsert(card("c1", "", "Beta Release Notes", "", 1)).unwrap();
    let out = idx.query("bEtA", &vec![], None, None, None);
    assert_eq!(out.len(), 1);
    let out2 = idx.query("release notes", &vec![], None, None, None);
    assert_eq!(out2.len(), 1);
}

#[test]
fn title_hits_outrank_content_hits() {
    let mut idx = SearchIndex::new();
    idx.upsert(card("in_title", "beta", "something else", "", 1)).unwrap();
    idx.upsert(card("in_content", "", "a beta here", "", 2)).unwrap();
    let out = idx.query("beta", &vec![], None, None, None);
    assert_eq!(out.len(), 2);
    assert_eq!(out[0].entity_id, "in_title");
    assert!(out[0].rank < out[1].rank);
}

#[test]
fn limit_caps_results() {
    let mut idx = SearchIndex::new();
    idx.upsert(card("a", "", "beta", "", 1)).unwrap();
    idx.upsert(card("b", "", "beta", "", 2)).unwrap();
    idx.upsert(card("c", "", "beta", "", 3)).unwrap();
    let out = idx.query("beta", &vec![], None, None, Some(2));
    assert_eq!(out.len(), 2);
    let all = idx.query("beta", &vec![], None, None, None);
    assert_eq!(all.len(), 3);
}

#[test]
fn type_filter_restricts_and_empty_admits_all() {
    let mut idx = SearchIndex::new();
    idx.upsert(card("c1", "", "beta", "", 1)).unwrap();
    idx.upsert(IndexRecord {
        entity_type: EntityType::Board,
        entity_id: "b1".to_string(),
        title: "beta board".to_string(),
        content: "beta board".to_string(),
        tags: String::new(),
        updated_at: 2,
    })
    .unwrap();
    let only_cards = idx.query("beta", &vec![EntityType::Card], None, None, None);
    assert_eq!(only_cards.len(), 1);
    assert_eq!(only_cards[0].entity_id, "c1");
    let all = idx.query("beta", &vec![], None, None, None);
    assert_eq!(all.len(), 2);
}

#[test]
fn punctuation_delimits_tokens() {
    let mut idx = SearchIndex::new();
    idx.upsert(card("c1", "", "alpha,beta;gamma.delta", "", 1)).unwrap();
    assert_eq!(idx.query("beta", &vec![], None, None, None).len(), 1);
    assert_eq!(idx.query("gamma delta", &vec![], None, None, None).len(), 1);
    assert!(idx.query("alphabeta", &vec![], None, None, None).is_empty());
}

#[test]
fn tags_are_searchable() {
    let mut idx = SearchIndex::new();
    idx.upsert(card("c1", "", "plain text", "urgent red", 1)).unwrap();
    let out = idx.query("urgent", &vec![], None, None, None);
    assert_eq!(out.len(), 1);
}

#[test]
fn snippet_marks_matches() {
    let mut idx = SearchIndex::new();
    idx.upsert(card("c1", "", "alpha beta", "", 1)).unwrap();
    let out = idx.query("beta", &vec![], None, None, None);
    assert_eq!(out.len(), 1);
    assert_eq!(out[0].snippet, "alpha <b>beta</b>");
}

#[test]
fn snippet_truncates_long_content_with_ellipsis() {
    let words: Vec<String> = (0..60).map(|i| format!("word{}", i)).collect();
    let content = words.join(" ");
    let mut idx = SearchIndex::new();
    idx.upsert(card("c1", "", &content, "", 1)).unwrap();
    let out = idx.query("word40", &vec![], None, None, None);
    assert_eq!(out.len(), 1);
    assert!(out[0].snippet.contains("<b>word40</b>"));
    assert!(out[0].snippet.starts_with("..."));
}

#[test]
fn empty_entity_id_is_rejected_without_mutation() {
    let mut idx = SearchIndex::new();
    let r = idx.upsert(card("", "", "alpha", "", 1));
    assert!(r.is_err());
    let msg = r.unwrap_err().message();
    assert!(msg.contains("invalid input"));
    assert_eq!(idx.len(), 0);
}

#[test]
fn rebuild_skips_invalid_and_last_write_wins() {
    let mut idx = SearchIndex::new();
    let written = idx.rebuild(vec![
        card("dup", "", "first version", "", 1),
        card("", "", "invalid", "", 1),
        card("dup", "", "second version", "", 2),
    ]);
    assert_eq!(written, 1);
    let out = idx.query("second", &vec![], None, None, None);
    assert_eq!(out.len(), 1);
    let old = idx.query("first", &vec![], None, None, None);
    assert!(old.is_empty());
}
