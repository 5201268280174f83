//! Scheduled loops: their prompts, their schedule, pausing and resuming them,
//! the crash guard, and the sentinel that stops them on an API block.

pub mod files;
pub mod incident;
pub mod interval;
pub mod journal;
pub mod mail;
pub mod pause;
pub mod prompt;
pub mod sentinel;
