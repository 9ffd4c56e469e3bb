//! Fuzzy text-replacement engine for a code-editing agent.
//!
//! The engine locates a caller-supplied search string inside a text buffer
//! using a fixed, ordered chain of nine increasingly tolerant matching
//! strategies ("replacers"), then substitutes it with a replacement string.
//! Each replacer emits candidate substrings of the buffer; an orchestrator
//! checks every candidate for uniqueness (unless `replace_all` is set) and
//! either commits the substitution or reports that no confident match exists.

pub mod diff;
pub mod engine;
pub mod laws;
pub mod levenshtein;
pub mod pattern;
pub mod replacers;
pub mod server;
pub mod text;
pub mod tools;
