use vstd::prelude::*;

verus! {

/// How the score grows when a piece locks.
/// - `BurnOnly`: a flat 1 per lock event, no matter how many lines burnt
/// - `PieceAndBurn`: 1 + (lines burnt)^2 * field width
#[derive(Debug, Eq, PartialEq, Clone, Copy, Structural)]
pub enum Scoring {
    BurnOnly,
    PieceAndBurn,
}

/// How the next tetrimino to spawn is chosen.
/// - `JustRandom`: every spawn draws an index uniformly from 0..7
/// - `ShuffledQueue`: a bag holding a shuffled permutation of 0..7 is
///   popped from the back; an empty bag is refilled and reshuffled
#[derive(Debug, Eq, PartialEq, Clone, Copy, Structural)]
pub enum Randomness {
    JustRandom,
    ShuffledQueue,
}

#[derive(Debug, Eq, PartialEq, Clone, Copy, Structural)]
pub struct Config {
    pub scoring: Scoring,
    pub randomness: Randomness,
}

impl Default for Config {
    fn default() -> (c: Config)
        ensures
            c == (Config { scoring: Scoring::BurnOnly, randomness: Randomness::JustRandom }),
    {
        Config { scoring: Scoring::BurnOnly, randomness: Randomness::JustRandom }
    }
}

} // verus!
