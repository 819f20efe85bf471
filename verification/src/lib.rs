//! Verified core of a folder backup-and-restore tool: portable path handling,
//! backup identities, game-save detection, change detection, snapshot retention
//! and the decisions of the sync engine.
use vstd::prelude::*;

pub mod text;
pub mod winpath;
pub mod pathutil;
pub mod config;
pub mod gamescan;
pub mod sync;
pub mod health;
pub mod synclog;
pub mod update;
pub mod crashlog;
pub mod commands;
pub mod window;
pub mod signer;
pub mod syncrun;
pub mod reparse;
pub mod unpackrun;
