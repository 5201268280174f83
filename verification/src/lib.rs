//! Verified logic of a toolkit for long-running assistant sessions: scheduled
//! loops, a message mesh between sessions, session isolation, and audits of
//! the prompt budget and of the installed skills.

pub mod budget;
pub mod clock;
pub mod double;
pub mod json;
pub mod letters;
pub mod lists;
pub mod loops;
pub mod mesh;
pub mod package;
pub mod paths;
pub mod session;
pub mod skills;
pub mod text;
