use vstd::prelude::*;
use crate::clock::now_millis;
use crate::text::{spec_word_count, word_count};

verus! {

/// A project: the top-level container of boards.
#[derive(Debug, Clone)]
pub struct Project {
    pub id: String,
    pub title: String,
    pub description: Option<String>,
    pub thumbnail_path: Option<String>,
    pub color: Option<String>,
    pub created_at: i64,
    pub updated_at: i64,
    pub settings: Option<String>,
}

/// A board: an infinite canvas inside a project.
#[derive(Debug, Clone)]
pub struct Board {
    pub id: String,
    pub project_id: String,
    pub parent_board_id: Option<String>,
    pub title: String,
    pub position: i32,
    pub tldraw_snapshot: Option<String>,
    pub created_at: i64,
    pub updated_at: i64,
}

/// A card: a rich-text block placed on boards.
#[derive(Debug, Clone)]
pub struct Card {
    pub id: String,
    pub title: Option<String>,
    pub content: String,
    pub content_type: String,
    pub color: Option<String>,
    pub is_hidden: bool,
    pub word_count: i32,
    pub created_at: i64,
    pub updated_at: i64,
    pub metadata: Option<String>,
}

/// A file attached to an entity, as recorded in primary storage.
#[derive(Debug, Clone)]
pub struct FileEntry {
    pub id: String,
    pub filename: String,
    pub file_path: String,
    pub file_type: String,
    pub file_size: Option<i64>,
    pub mime_type: Option<String>,
    pub thumbnail_path: Option<String>,
    pub import_mode: String,
    pub created_at: i64,
    pub updated_at: i64,
    pub metadata: Option<String>,
}

/// A tag that can be attached to cards and boards.
#[derive(Debug, Clone)]
pub struct Tag {
    pub id: String,
    pub name: String,
    pub color: Option<String>,
    pub group_id: Option<String>,
    pub position: i32,
    pub created_at: i64,
}

/// Build a fresh project record with both timestamps set to `now_ms`.
pub fn new_project(
    id: String,
    title: String,
    description: Option<String>,
    color: Option<String>,
    now_ms: i64,
) -> (r: Project)
    ensures
        r.id@ == id@,
        r.title@ == title@,
        r.description == description,
        r.thumbnail_path is None,
        r.color == color,
        r.created_at == now_ms,
        r.updated_at == now_ms,
        r.settings is None,
{
    Project {
        id,
        title,
        description,
        thumbnail_path: None,
        color,
        created_at: now_ms,
        updated_at: now_ms,
        settings: None,
    }
}

/// Build a fresh project record, timestamped with the current wall clock.
pub fn create_project(
    id: String,
    title: String,
    description: Option<String>,
    color: Option<String>,
) -> (r: Project)
    ensures
        r.id@ == id@,
        r.title@ == title@,
        r.description == description,
        r.thumbnail_path is None,
        r.color == color,
        r.created_at == r.updated_at,
        r.settings is None,
{
    let now: i64 = now_millis();
    new_project(id, title, description, color, now)
}

/// Rebuild a project row from an update request, as the storage layer expects
/// it back: a missing title becomes empty, and both timestamps are set to
/// `now_ms`.
pub fn update_project(
    id: String,
    title: Option<String>,
    description: Option<String>,
    color: Option<String>,
    now_ms: i64,
) -> (r: Project)
    ensures
        r.id@ == id@,
        title matches Some(t) ==> r.title@ == t@,
        title is None ==> r.title@.len() == 0,
        r.description == description,
        r.thumbnail_path is None,
        r.color == color,
        r.created_at == now_ms,
        r.updated_at == now_ms,
        r.settings is None,
{
    let t = match title {
        Option::Some(t) => t,
        Option::None => String::new(),
    };
    Project {
        id,
        title: t,
        description,
        thumbnail_path: None,
        color,
        created_at: now_ms,
        updated_at: now_ms,
        settings: None,
    }
}

/// Build a fresh board record with both timestamps set to `now_ms`.
pub fn new_board(
    id: String,
    project_id: String,
    title: String,
    position: i32,
    now_ms: i64,
) -> (r: Board)
    ensures
        r.id@ == id@,
        r.project_id@ == project_id@,
        r.parent_board_id is None,
        r.title@ == title@,
        r.position == position,
        r.tldraw_snapshot is None,
        r.created_at == now_ms,
        r.updated_at == now_ms,
{
    Board {
        id,
        project_id,
        parent_board_id: None,
        title,
        position,
        tldraw_snapshot: None,
        created_at: now_ms,
        updated_at: now_ms,
    }
}

/// Build a fresh board record, timestamped with the current wall clock.
pub fn create_board(id: String, project_id: String, title: String, position: i32) -> (r: Board)
    ensures
        r.id@ == id@,
        r.project_id@ == project_id@,
        r.parent_board_id is None,
        r.title@ == title@,
        r.position == position,
        r.tldraw_snapshot is None,
        r.created_at == r.updated_at,
{
    let now: i64 = now_millis();
    new_board(id, project_id, title, position, now)
}

/// Build a fresh card record with both timestamps set to `now_ms`. The word
/// count is derived from the content; the content type is the editor's fixed
/// format tag.
pub fn new_card(id: String, title: Option<String>, content: String, now_ms: i64) -> (r: Card)
    ensures
        r.id@ == id@,
        r.title == title,
        r.content@ == content@,
        r.content_type@ == "tiptap"@,
        r.color is None,
        !r.is_hidden,
        r.word_count as nat == if spec_word_count(content@, content@.len() as int) > i32::MAX
            as nat {
            i32::MAX as nat
        } else {
            spec_word_count(content@, content@.len() as int)
        },
        r.created_at == now_ms,
        r.updated_at == now_ms,
        r.metadata is None,
{
    let wc = word_count(content.as_str());
    Card {
        id,
        title,
        content,
        content_type: String::from_str("tiptap"),
        color: None,
        is_hidden: false,
        word_count: wc,
        created_at: now_ms,
        updated_at: now_ms,
        metadata: None,
    }
}

/// Build a fresh card record, timestamped with the current wall clock.
pub fn create_card(id: String, title: Option<String>, content: String) -> (r: Card)
    ensures
        r.id@ == id@,
        r.title == title,
        r.content@ == content@,
        r.content_type@ == "tiptap"@,
        r.color is None,
        !r.is_hidden,
        r.word_count as nat == if spec_word_count(content@, content@.len() as int) > i32::MAX
            as nat {
            i32::MAX as nat
        } else {
            spec_word_count(content@, content@.len() as int)
        },
        r.created_at == r.updated_at,
        r.metadata is None,
{
    let now: i64 = now_millis();
    new_card(id, title, content, now)
}

} // verus!
