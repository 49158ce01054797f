//! Rehearsal planning: users give the times they are free, and the library
//! finds the windows of time when most of them can meet, ranked by attendance
//! and then by start. It also reads and writes the dates, the prompt's
//! commands and the text of the availability store.

pub mod text;
pub mod domain;
pub mod persistence;
pub mod service;
pub mod command;
