//! Rate-limit-aware fetch orchestration for crawling a social graph.
//!
//! The crate tracks per-session, per-endpoint call budgets, picks a usable
//! session for each remote call, drives cursor-based pagination to
//! completion, and checkpoints partial results so long crawls survive
//! interruption. Remote transport and file handling live outside the
//! library; the logic here works on plain values handed in by the caller.

pub mod auth;
pub mod checkpoint;
pub mod fetcher;
pub mod lookup;
pub mod model;
pub mod report;
pub mod selector;
