//! Exhaustive search for busy-beaver Turing machines.
//!
//! For a machine with `N` non-halting states and `K` tape symbols, the
//! library enumerates every transition table that contains at least one
//! halting transition, runs each candidate for a bounded number of steps on
//! an initially blank tape, and records per-step statistics so that the
//! highest-scoring and longest-running halting candidates can be selected.

pub mod combinations;
pub mod engine;
pub mod enumerate;
pub mod leaderboard;
pub mod machine;
pub mod stats;
pub mod tape;

pub use combinations::generate_combinations;
pub use engine::busy_beaver;
pub use enumerate::Machines;
pub use leaderboard::highest_action;
pub use leaderboard::highest_score;
pub use machine::Card;
pub use machine::Cards;
pub use machine::Direction;
pub use machine::Instructions;
pub use machine::State;
pub use machine::Symbol;
pub use stats::Stats;
pub use tape::Tape;
pub use tape::Typewriter;
