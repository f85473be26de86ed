//! Synchronises a repository's issue labels with a label list: the colour
//! codec, the repository reference grammar, the reconciliation plan and its
//! sequential execution, and the persisted access token.
pub mod hex_color;
pub mod label;
pub mod repo;
pub mod reconcile;
pub mod run;
pub mod config;
