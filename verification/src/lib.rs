//! Per-turn decision engine for a grid-based territorial-conquest bot.
//!
//! Each turn the engine receives a snapshot of the map and emits at most one
//! movement: a source tile, a destination tile, and a half-split flag.  The
//! engine combines a target selector, a greedy local expander, a bounded
//! randomized best-first path search and a tactical half-split rule, with
//! cross-turn state (a sticky target and a committed frontier tile).

pub mod bot;
pub mod map;
pub mod rng;
pub mod score;
