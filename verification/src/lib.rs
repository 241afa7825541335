//! Game engine for a chat-room entertainment bot: a slot-machine ledger and a
//! duel table, shared by many concurrent event handlers.
//!
//! Every public operation is one atomic step on a store value (`&mut self`),
//! so a caller that holds each store behind one exclusive lock gets the
//! check-and-act atomicity the game rules need. Transport, persistence
//! encoding and rendering live outside this crate and talk to it in plain
//! values.

pub mod casino;
pub mod duel;
pub mod engine;
pub mod kv;
