//! Core of a desktop note-taking application's backend: a verified full-text
//! search index over heterogeneous entities (cards, boards, projects, tags,
//! files), the coordinator that keeps it synchronized with entity mutations,
//! and the planning logic of a content-addressed asset store.

pub mod assets;
pub mod clock;
pub mod coordinator;
pub mod entities;
pub mod error;
pub mod index;
pub mod text;
