//! Tools for a human-in-the-loop translation workflow: text is extracted
//! from a structured document (timed subtitle entries, book sections),
//! translated by an outside tool, and the translated words are redistributed onto
//! the original document without disturbing timing or whitespace layout.

pub mod book;
pub mod chars;
pub mod error;
pub mod proportional;
pub mod subtitle;
pub mod tokenize;
pub mod translation;
pub mod youtube;
