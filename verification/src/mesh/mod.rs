//! Messages between sessions, and the screen they are read on.

pub mod archive;
pub mod delivery;
pub mod editor;
pub mod layout;
pub mod message;
pub mod monitor;
pub mod names;
pub mod node;
pub mod reading;
pub mod registry;
pub mod roster;
pub mod screen;
pub mod signing;
