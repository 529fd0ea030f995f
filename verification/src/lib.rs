//! A library for keeping a personal directory of commit co-authors.
//!
//! A co-author is a short key (such as `lm`) mapped to an identity string of
//! the shape `Name <email>`. The directory lives in an external key/value
//! configuration store; [`coauthor_repo`] states the store's contract and
//! gives an in-memory implementation, [`git_config`] computes the invocations
//! of the external store and reads their output, and [`commands`] carries the
//! command that adds, deletes and lists co-authors.

pub mod coauthor_repo;
pub mod commands;
pub mod git_config;
