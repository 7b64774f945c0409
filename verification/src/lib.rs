//! Tracks GitHub issues and pull requests for one repository and label.
//!
//! The library is the synchronization-and-landing-detection engine: it
//! reconciles freshly fetched snapshots against stored entities, producing an
//! ordered transition history; it decides how a paginated fetch adapts its
//! batch size to timeouts; and, for merged pull requests, it determines which
//! release channels each merge commit has landed in.  All I/O (the GraphQL
//! transport, git subprocesses, state files, feed rendering) lives outside the
//! library and hands it plain values.

pub mod api;
pub mod feed;
pub mod fetch;
pub mod history;
pub mod landing;
pub mod reconcile;
pub mod repo;
pub mod store;
pub mod string_set;
pub mod text;
pub mod time;
pub mod types;

pub use time::DateTime;
