//! Rules engine for a two-suit Spider solitaire variant.
//!
//! The engine tracks ten tableau stacks, a stock pile, completed foundation
//! suits and a reversible action log. Move legality is decided by segmenting
//! each stack into maximal same-suit descending face-up runs; every mutation
//! is recorded as an action value that can be undone exactly, including the
//! cheats, which stay reversible by snapshotting the random generator state
//! around every shuffle.

pub mod action;
pub mod cards;
pub mod cheats;
pub mod codec;
pub mod help;
pub mod laws;
pub mod rng;
pub mod session;
