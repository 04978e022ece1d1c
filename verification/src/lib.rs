//! Verified core of a guild scoreboard service: the data model for guilds,
//! scoreboards and per-user scores, the idempotent registration and lookup
//! logic that guards it against duplicate rows, and the command dispatch
//! decisions. Everything that talks to the chat platform or to the database
//! lives outside this crate and hands plain values in and out.
pub mod commands;
pub mod laws;
pub mod pool;
pub mod queries;
pub mod schema;
pub mod store;

pub use store::Scoreboard;
