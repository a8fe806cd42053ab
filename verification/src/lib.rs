//! Core logic of a flashcard viewer: a tolerant two-field delimited-line
//! parser, a loader that turns text lines into cards, a cyclically navigable
//! deck catalog with display-name derivation, a greedy word-wrap algorithm,
//! and a small navigation state machine. All I/O and rendering is left to
//! the host around this library.

pub mod chars;
pub mod parser;
pub mod cards;
pub mod wrap;
pub mod catalog;
pub mod session;
pub mod errors;
