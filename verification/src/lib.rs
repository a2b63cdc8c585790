//! Aggregation engine for battle-log winrate statistics: filters records by a
//! rating threshold, extracts per-species game outcomes, normalizes cosmetic
//! species variants, accumulates win/game counters in insertion order, and
//! ranks species by a confidence-scaled deviations score.
pub mod extract;
pub mod normalize;
pub mod numbers;
pub mod outside;
pub mod ranking;
pub mod render;
pub mod stats;

pub use render::FinalStats;
pub use stats::GameResult;
pub use stats::PokemonStats;
pub use stats::Stats;
pub use stats::StatsError;
