//! Core of a terminal typing trainer: a text model (pages of lines of words),
//! a cursor that walks a reference page, and a keystroke engine that scores
//! what the user types against the reference text.
pub mod cursor;
pub mod engine;
pub mod model;
pub mod parse;
