//! Temporary, auto-reverting suspension of community members.
//!
//! A moderator revokes a member's roles for a bounded time. The library keeps
//! the table of suspension records, decides who may suspend whom and for how
//! long, claims records that are due exactly once, and drives the step-by-step
//! restoration of the roles that were taken away.

pub mod config;
pub mod db;
pub mod duration;
pub mod error;
pub mod history;
pub mod lift;
pub mod member;
pub mod monitor;
pub mod restore;
pub mod row;
pub mod suspend;
pub mod suspension;
pub mod text;
