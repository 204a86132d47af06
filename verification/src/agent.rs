//! What a player is, and the player that picks at random.

use crate::game::Game;
use crate::rng::{random_below, Rand};
use vstd::prelude::*;

verus! {

/// A player: picks one of the steps that a game offers.
pub trait CombatAgent: Sized {
    /// The player can judge `game`.
    spec fn can_act(&self, game: Game) -> bool;

    /// The player, as it was `before`, may pick step `i` of `game`, and is then as `after` says.
    spec fn picks(before: Self, game: Game, after: Self, i: usize) -> bool;

    /// Picks the position of a step among those that `game` offers.
    fn act(&mut self, game: &Game) -> (i: usize)
        requires
            old(self).can_act(*game),
        ensures
            Self::picks(*old(self), *game, *final(self), i),
            game.steps@.len() > 0 ==> i < game.steps@.len(),
    ;
}

/// The player that picks any step, each as likely as the next.
#[derive(Debug)]
pub struct RandomAgent {
    rng: Rand,
}

impl RandomAgent {
    /// The player's random source.
    pub closed spec fn source(&self) -> Rand {
        self.rng
    }

    /// A player with a random source of its own, freshly seeded.
    pub fn new() -> (r: RandomAgent)
        ensures
            r.source().seed() is None,
    {
        RandomAgent { rng: Rand::default() }
    }
}

impl CombatAgent for RandomAgent {
    /// There is a step to pick.
    open spec fn can_act(&self, game: Game) -> bool {
        game.steps@.len() > 0
    }

    /// The step is the one that the random source draws next, and any may be drawn.
    open spec fn picks(before: RandomAgent, game: Game, after: RandomAgent, i: usize) -> bool {
        &&& i < game.steps@.len()
        &&& (i, after.source().state()) == random_below(
            before.source().state(),
            game.steps@.len() as usize,
        )
    }

    fn act(&mut self, game: &Game) -> usize {
        self.rng.below(game.steps.len())
    }
}

} // verus!
