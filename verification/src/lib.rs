//! Persistence core for an interactive application: numbered, encrypted game
//! save slots managed by a slot table, and a single human-readable settings
//! record, both written durably in the background by the host.

pub mod codec;
pub mod save;
pub mod setting;
