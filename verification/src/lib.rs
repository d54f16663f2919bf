//! petri: the logic of a Petri net player for the terminal.
//!
//! A net is read from plain text (`parse`), played by firing its transitions
//! (`net`, `app`), explored for deadlocks and bounds (`analysis`), and shown
//! as text (`report`, `screen`). Every function has a contract over the
//! mathematical models of nets and sessions; `firing`, `format`, `reach`,
//! `legible` and `session` hold the laws that relate them.

pub mod analysis;
pub mod app;
pub mod cli;
pub mod demo;
pub mod firing;
pub mod format;
pub mod layout;
pub mod legible;
pub mod net;
pub mod parse;
pub mod reach;
pub mod report;
pub mod rng;
pub mod screen;
pub mod session;
pub mod style;
pub mod text;
pub mod visited;
