//! A small library around a shared-state visit recorder: a counter plus an
//! append-only transcript, mutated one visit at a time, with helper modules
//! for an in-memory file stub, line-oriented pattern search, and a couple of
//! arithmetic helpers.

pub mod file_ops;
pub mod recorder;
pub mod simple_math;
pub mod string_utils;
pub mod text;
