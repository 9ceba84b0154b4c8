pub mod commit_parser;
pub mod config;
pub mod de;
pub mod note_generation;
pub mod provider;
pub mod release;
pub mod support;
pub mod repository;
pub mod utils;
pub mod error;
pub mod fmt;
pub mod laws;
pub mod ser;
pub mod model;
pub mod text;
pub mod version;

pub use model::{
    ChangeLog, FooterLink, FooterLinks, Release, ReleaseEntry, ReleaseSection,
    ReleaseSectionNote, ReleaseTitle,
};
pub use version::Version;
