//! Commit-graph mutation core: a content-addressed commit store, revset
//! resolution, insertion and rebase planning, and an operation log that
//! reconciles concurrent views.

pub mod dag;
pub mod error;
pub mod merge;
pub mod plan;
pub mod rebase;
pub mod repo;
pub mod request;
pub mod revset;
pub mod store;
pub mod summary;
pub mod text;
pub mod ui;
pub mod view;
