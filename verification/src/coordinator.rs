use vstd::prelude::*;
use crate::entities::{Board, Card, FileEntry, Project, Tag};
use crate::error::CoreError;
use crate::index::{
    EntityType, IndexRecord, RecordModel, SearchIndex, spec_rebuild, spec_remove, spec_upsert,
};

verus! {

/// A snapshot of one primary entity, as the CRUD layer hands it to the
/// coordinator after a mutation. A card carries the names of its tags, so
/// that they become searchable alongside its text.
pub enum EntitySnapshot {
    Card { card: Card, tag_names: Vec<String> },
    Board { board: Board },
    Project { project: Project },
    Tag { tag: Tag },
    File { file: FileEntry },
}

pub open spec fn strings_view(v: Seq<String>) -> Seq<Seq<char>> {
    v.map_values(|s: String| s@)
}

/// The parts joined by single spaces.
pub open spec fn spec_join(parts: Seq<Seq<char>>) -> Seq<char>
    decreases parts.len(),
{
    if parts.len() == 0 {
        Seq::empty()
    } else if parts.len() == 1 {
        parts[0]
    } else {
        spec_join(parts.drop_last()) + seq![' '] + parts.last()
    }
}

/// Join the parts with single spaces.
pub fn join(parts: &Vec<String>) -> (r: String)
    ensures
        r@ == spec_join(strings_view(parts@)),
{
    let ghost pv = strings_view(parts@);
    let mut out = String::new();
    let mut i: usize = 0;
    proof {
        assert(out@ =~= spec_join(pv.take(0)));
    }
    while i < parts.len()
        invariant
            i <= parts.len(),
            pv == strings_view(parts@),
            parts@.len() == pv.len(),
            out@ == spec_join(pv.take(i as int)),
        decreases parts.len() - i,
    {
        if i > 0 {
            out.append(" ");
        }
        out.append(parts[i].as_str());
        i = i + 1;
        proof {
            reveal_strlit(" ");
            assert(" "@ =~= seq![' ']);
            assert(pv[i - 1 as int] == parts@[i - 1 as int]@);
            assert(pv.take(i as int).drop_last() =~= pv.take(i - 1 as int));
            assert(pv.take(i as int).last() == pv[i - 1 as int]);
            assert(out@ =~= spec_join(pv.take(i as int)));
        }
    }
    proof {
        assert(pv.take(pv.len() as int) =~= pv);
    }
    out
}

/// The entity key carried by a snapshot.
pub open spec fn snapshot_id(s: EntitySnapshot) -> Seq<char> {
    match s {
        EntitySnapshot::Card { card, .. } => card.id@,
        EntitySnapshot::Board { board } => board.id@,
        EntitySnapshot::Project { project } => project.id@,
        EntitySnapshot::Tag { tag } => tag.id@,
        EntitySnapshot::File { file } => file.id@,
    }
}

pub open spec fn snapshot_type(s: EntitySnapshot) -> EntityType {
    match s {
        EntitySnapshot::Card { .. } => EntityType::Card,
        EntitySnapshot::Board { .. } => EntityType::Board,
        EntitySnapshot::Project { .. } => EntityType::Project,
        EntitySnapshot::Tag { .. } => EntityType::Tag,
        EntitySnapshot::File { .. } => EntityType::File,
    }
}

/// The index record derived from a snapshot: the entity's display title, its
/// searchable text, its denormalized tag names, and its last-modified time
/// (creation time for tags, which are never edited in place).
pub open spec fn spec_derived(s: EntitySnapshot) -> RecordModel {
    match s {
        EntitySnapshot::Card { card, tag_names } => RecordModel {
            etype: EntityType::Card,
            id: card.id@,
            title: match card.title {
                Option::Some(t) => t@,
                Option::None => Seq::empty(),
            },
            content: card.content@,
            tags: spec_join(strings_view(tag_names@)),
            updated_at: card.updated_at as int,
        },
        EntitySnapshot::Board { board } => RecordModel {
            etype: EntityType::Board,
            id: board.id@,
            title: board.title@,
            content: board.title@,
            tags: Seq::empty(),
            updated_at: board.updated_at as int,
        },
        EntitySnapshot::Project { project } => RecordModel {
            etype: EntityType::Project,
            id: project.id@,
            title: project.title@,
            content: match project.description {
                Option::Some(d) => d@,
                Option::None => Seq::empty(),
            },
            tags: Seq::empty(),
            updated_at: project.updated_at as int,
        },
        EntitySnapshot::Tag { tag } => RecordModel {
            etype: EntityType::Tag,
            id: tag.id@,
            title: tag.name@,
            content: tag.name@,
            tags: Seq::empty(),
            updated_at: tag.created_at as int,
        },
        EntitySnapshot::File { file } => RecordModel {
            etype: EntityType::File,
            id: file.id@,
            title: file.filename@,
            content: file.filename@,
            tags: Seq::empty(),
            updated_at: file.updated_at as int,
        },
    }
}

/// Derive the index record for a snapshot. Fails, before anything is written,
/// exactly when the snapshot carries an empty entity id.
pub fn derive_record(snap: EntitySnapshot) -> (r: Result<IndexRecord, CoreError>)
    ensures
        r is Ok <==> snapshot_id(snap).len() > 0,
        r matches Ok(rec) ==> rec@ == spec_derived(snap),
        r matches Err(e) ==> e matches CoreError::InvalidInput { .. },
{
    match snap {
        EntitySnapshot::Card { card, tag_names } => {
            if card.id.as_str().unicode_len() == 0 {
                return Err(
                    CoreError::InvalidInput { reason: String::from_str("empty entity id") },
                );
            }
            let title = match card.title {
                Option::Some(t) => t,
                Option::None => String::new(),
            };
            Ok(
                IndexRecord {
                    entity_type: EntityType::Card,
                    entity_id: card.id,
                    title,
                    content: card.content,
                    tags: join(&tag_names),
                    updated_at: card.updated_at,
                },
            )
        },
        EntitySnapshot::Board { board } => {
            if board.id.as_str().unicode_len() == 0 {
                return Err(
                    CoreError::InvalidInput { reason: String::from_str("empty entity id") },
                );
            }
            Ok(
                IndexRecord {
                    entity_type: EntityType::Board,
                    entity_id: board.id,
                    title: board.title.clone(),
                    content: board.title,
                    tags: String::new(),
                    updated_at: board.updated_at,
                },
            )
        },
        EntitySnapshot::Project { project } => {
            if project.id.as_str().unicode_len() == 0 {
                return Err(
                    CoreError::InvalidInput { reason: String::from_str("empty entity id") },
                );
            }
            let content = match project.description {
                Option::Some(d) => d,
                Option::None => String::new(),
            };
            Ok(
                IndexRecord {
                    entity_type: EntityType::Project,
                    entity_id: project.id,
                    title: project.title,
                    content,
                    tags: String::new(),
                    updated_at: project.updated_at,
                },
            )
        },
        EntitySnapshot::Tag { tag } => {
            if tag.id.as_str().unicode_len() == 0 {
                return Err(
                    CoreError::InvalidInput { reason: String::from_str("empty entity id") },
                );
            }
            Ok(
                IndexRecord {
                    entity_type: EntityType::Tag,
                    entity_id: tag.id,
                    title: tag.name.clone(),
                    content: tag.name,
                    tags: String::new(),
                    updated_at: tag.created_at,
                },
            )
        },
        EntitySnapshot::File { file } => {
            if file.id.as_str().unicode_len() == 0 {
                return Err(
                    CoreError::InvalidInput { reason: String::from_str("empty entity id") },
                );
            }
            Ok(
                IndexRecord {
                    entity_type: EntityType::File,
                    entity_id: file.id,
                    title: file.filename.clone(),
                    content: file.filename,
                    tags: String::new(),
                    updated_at: file.updated_at,
                },
            )
        },
    }
}

/// The single synchronization point between primary entities and the index:
/// a present `new_state` is derived and upserted; an absent one removes the
/// key. A failure to derive one entity leaves the index unchanged and does
/// not block other entities.
pub fn on_entity_changed(
    index: &mut SearchIndex,
    entity_type: EntityType,
    entity_id: &String,
    new_state: Option<EntitySnapshot>,
) -> (r: Result<(), CoreError>)
    requires
        old(index).wf(),
        new_state matches Option::Some(s) ==> snapshot_type(s) == entity_type && snapshot_id(s)
            == entity_id@,
    ensures
        final(index).wf(),
        new_state is None ==> r is Ok && final(index).models() == spec_remove(
            old(index).models(),
            entity_type,
            entity_id@,
        ),
        new_state matches Option::Some(s) ==> {
            &&& snapshot_id(s).len() > 0 ==> r is Ok && final(index).models() == spec_upsert(
                old(index).models(),
                spec_derived(s),
            )
            &&& snapshot_id(s).len() == 0 ==> (r matches Err(CoreError::InvalidInput { .. }))
                && final(index).models() == old(index).models()
        },
{
    match new_state {
        Option::None => {
            index.remove(entity_type, entity_id);
            Ok(())
        },
        Option::Some(snap) => {
            match derive_record(snap) {
                Ok(rec) => {
                    let res = index.upsert(rec);
                    res
                },
                Err(e) => Err(e),
            }
        },
    }
}

/// What a full rebuild reports: how many records the new index holds, how
/// many snapshots failed derivation and were skipped, and how many records
/// were derived per entity type.
#[derive(Debug, Clone, Copy, PartialEq, Eq, Structural)]
pub struct RebuildReport {
    pub written: usize,
    pub skipped: usize,
    pub cards: usize,
    pub boards: usize,
    pub projects: usize,
    pub tags: usize,
    pub files: usize,
}

/// The records derived from the valid snapshots, in order.
pub open spec fn spec_derived_records(ss: Seq<EntitySnapshot>) -> Seq<RecordModel>
    decreases ss.len(),
{
    if ss.len() == 0 {
        Seq::empty()
    } else {
        let prev = spec_derived_records(ss.drop_last());
        if snapshot_id(ss.last()).len() > 0 {
            prev.push(spec_derived(ss.last()))
        } else {
            prev
        }
    }
}

/// How many snapshots fail derivation.
pub open spec fn spec_skipped(ss: Seq<EntitySnapshot>) -> nat
    decreases ss.len(),
{
    if ss.len() == 0 {
        0
    } else {
        spec_skipped(ss.drop_last()) + if snapshot_id(ss.last()).len() == 0 {
            1nat
        } else {
            0nat
        }
    }
}

/// How many valid snapshots carry the given entity type.
pub open spec fn spec_type_count(ss: Seq<EntitySnapshot>, et: EntityType) -> nat
    decreases ss.len(),
{
    if ss.len() == 0 {
        0
    } else {
        spec_type_count(ss.drop_last(), et) + if snapshot_id(ss.last()).len() > 0
            && snapshot_type(ss.last()) == et {
            1nat
        } else {
            0nat
        }
    }
}

/// Drain all snapshot providers, derive index records, and atomically rebuild
/// the index from them. A snapshot that fails derivation is skipped and
/// counted, never fatal to the rebuild.
pub fn rebuild_all(index: &mut SearchIndex, snapshots: Vec<EntitySnapshot>) -> (report:
    RebuildReport)
    ensures
        final(index).wf(),
        final(index).models() == spec_rebuild(
            spec_derived_records(snapshots@),
            spec_derived_records(snapshots@).len() as int,
        ),
        report.written == final(index).models().len(),
        report.skipped == spec_skipped(snapshots@),
        report.cards == spec_type_count(snapshots@, EntityType::Card),
        report.boards == spec_type_count(snapshots@, EntityType::Board),
        report.projects == spec_type_count(snapshots@, EntityType::Project),
        report.tags == spec_type_count(snapshots@, EntityType::Tag),
        report.files == spec_type_count(snapshots@, EntityType::File),
{
    let ghost ss = snapshots@;
    let mut source = snapshots;
    let total: usize = source.len();
    let mut recs: Vec<IndexRecord> = Vec::new();
    let mut skipped: usize = 0;
    let mut cards: usize = 0;
    let mut boards: usize = 0;
    let mut projects: usize = 0;
    let mut tags: usize = 0;
    let mut files: usize = 0;
    let mut i: usize = 0;
    proof {
        assert(recs@.map_values(|r: IndexRecord| r@) =~= spec_derived_records(ss.take(0)));
    }
    while source.len() > 0
        invariant
            total == ss.len(),
            i <= total,
            i + source@.len() == ss.len(),
            forall|j: int| 0 <= j < source@.len() ==> #[trigger] source@[j] == ss[i + j],
            recs@.map_values(|r: IndexRecord| r@) == spec_derived_records(ss.take(i as int)),
            skipped == spec_skipped(ss.take(i as int)),
            cards == spec_type_count(ss.take(i as int), EntityType::Card),
            boards == spec_type_count(ss.take(i as int), EntityType::Board),
            projects == spec_type_count(ss.take(i as int), EntityType::Project),
            tags == spec_type_count(ss.take(i as int), EntityType::Tag),
            files == spec_type_count(ss.take(i as int), EntityType::File),
            skipped <= i,
            cards <= i,
            boards <= i,
            projects <= i,
            tags <= i,
            files <= i,
        decreases source@.len(),
    {
        let snap = source.remove(0);
        proof {
            assert(snap == ss[i as int]);
            assert(forall|j: int| 0 <= j < source@.len() ==> #[trigger] source@[j] == ss[i + 1 + j]);
        }
        let is_card = snap matches EntitySnapshot::Card { .. };
        let is_board = snap matches EntitySnapshot::Board { .. };
        let is_project = snap matches EntitySnapshot::Project { .. };
        let is_tag = snap matches EntitySnapshot::Tag { .. };
        match derive_record(snap) {
            Ok(rec) => {
                recs.push(rec);
                if is_card {
                    cards = cards + 1;
                } else if is_board {
                    boards = boards + 1;
                } else if is_project {
                    projects = projects + 1;
                } else if is_tag {
                    tags = tags + 1;
                } else {
                    files = files + 1;
                }
            },
            Err(_) => {
                skipped = skipped + 1;
            },
        }
        i = i + 1;
        proof {
            assert(ss.take(i as int).drop_last() =~= ss.take(i - 1 as int));
            assert(ss.take(i as int).last() == ss[i - 1 as int]);
            assert(recs@.map_values(|r: IndexRecord| r@) =~~= spec_derived_records(
                ss.take(i as int),
            ));
        }
    }
    proof {
        assert(ss.take(ss.len() as int) =~= ss);
    }
    let written = index.rebuild(recs);
    RebuildReport { written, skipped, cards, boards, projects, tags, files }
}

} // verus!
