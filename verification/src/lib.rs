//! A file-backed personal task list.
//!
//! A [`store::TaskStack`] is an ordered sequence of tasks, each holding
//! text content and a completion flag. The order of insertion is the
//! authoritative order; the number shown to a user is always the current
//! position plus one, recomputed on every listing and never stored.
//!
//! A store is persisted as a flat text file, one line per task:
//! `<position>,<completed>,<content>`. The position field is advisory
//! only and is discarded on reload; the content field runs to the end of
//! the line and may itself contain commas. The [`codec`] module defines
//! this format and proves that a store survives a write/read round trip
//! unchanged.
//!
//! Known limitation: writes rewrite the whole file with no staging or
//! locking, so concurrent invocations against the same file can race,
//! and a failure partway through a write can leave a truncated file.

pub mod codec;
pub mod errors;
pub mod groups;
pub mod store;
