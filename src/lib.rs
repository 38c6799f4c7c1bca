//! A bit-pattern driven instruction decoder: rules made of fixed-width token
//! patterns are compiled into a table, and the table is matched against a
//! byte stream to pick the first rule whose pattern and actions accept.
//!
//! - `token`: tokens read from the stream and the bits that masks select.
//! - `pattern`: the compiler of textual single-token patterns.
//! - `state`: the decode state that actions read and fill.
//! - `disassembler`: rule terms, compiled tables and the streaming matcher.
//! - `laws`: facts about table construction and matching.
pub mod token;
pub mod pattern;
pub mod state;
pub mod disassembler;
pub mod laws;
