//! Challenge arena: players submit solutions to challenges, each submission is
//! checked against the challenge's constraints and ranked on a leaderboard.

pub mod arena;
pub mod challenge;
pub mod keyed;
pub mod order;
pub mod prebuilt;
pub mod quantity;
pub mod ranking;
pub mod laws;

pub use arena::ChallengeArena;
pub use challenge::{Challenge, ChallengeCategory, ChallengeResult, Constraint, ScoringRule, Submission};
pub use prebuilt::prebuilt_challenges;
pub use quantity::Real;
