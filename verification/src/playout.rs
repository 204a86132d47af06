//! Playing one fight to its end: when it counts as won, lost or given up.

use crate::game::{Creature, Game, GameStatus, Monster};
use crate::step::{settle, settled, StepKind};
use crate::sums::{an_element_counts_anywhere, one_more_adds_to_the_total, total_of};
use vstd::prelude::*;

verus! {

/// A fight that takes more steps than this is given up.
pub const MAX_FIGHT_STEPS: u32 = 3000;

/// A look ahead plays a fight on for at most this many turns.
pub const LOOKAHEAD_TURNS: i32 = 25;

/// How a fight went.
#[derive(Clone, Copy, PartialEq, Eq, Debug, Structural)]
pub enum Outcome {
    Win { hp_lost: i32, turns: i32 },
    Loss,
    /// The fight was given up undecided.
    Stall,
}

/// How a fight went that began at `start_hp` and is decided after `turns` turns.
pub open spec fn concluded(start_hp: i32, turns: i32, game: Game) -> Outcome {
    if game.status == GameStatus::Defeat || game.player.cur_hp <= 0 {
        Outcome::Loss
    } else {
        Outcome::Win { hp_lost: (start_hp - game.player.cur_hp) as i32, turns }
    }
}

/// A fight that is being played: what it began with, and how far it is.
#[derive(Clone, Copy, PartialEq, Eq, Debug, Structural)]
pub struct PlayOut {
    pub start_hp: i32,
    pub turns: i32,
    pub steps_taken: u32,
    pub max_turns: i32,
}

impl PlayOut {
    /// The counts are within their limits.
    pub open spec fn wf(&self) -> bool {
        &&& 0 <= self.turns <= self.steps_taken
        &&& self.turns <= 0 || self.turns <= self.max_turns
        &&& self.steps_taken <= MAX_FIGHT_STEPS + 1
    }

    /// The health lost so far is a number that the outcome can hold.
    pub open spec fn can_settle(&self, game: Game) -> bool {
        game.player.cur_hp > 0 ==> self.start_hp - game.player.cur_hp >= i32::MIN
    }

    /// How the fight ended, where it did, before another step is taken.
    pub open spec fn verdict(&self, game: Game) -> Option<Outcome> {
        if game.status == GameStatus::Defeat {
            Some(Outcome::Loss)
        } else if !game.in_combat {
            Some(concluded(self.start_hp, self.turns, game))
        } else if self.turns >= self.max_turns {
            Some(Outcome::Stall)
        } else if game.steps@.len() == 0 {
            Some(concluded(self.start_hp, self.turns, game))
        } else {
            None
        }
    }

    /// The fight once a step was taken.
    pub open spec fn taken(&self, kind: StepKind) -> PlayOut {
        PlayOut {
            start_hp: self.start_hp,
            turns: (self.turns + (if kind == StepKind::EndTurn {
                1int
            } else {
                0
            })) as i32,
            steps_taken: (self.steps_taken + 1) as u32,
            max_turns: self.max_turns,
        }
    }

    /// Begins a fight. After `max_turns` turns it is given up; with `i32::MAX` only the cap on its
    /// steps ends a fight before its end.
    pub fn begin(game: &Game, max_turns: i32) -> (r: PlayOut)
        ensures
            r == (PlayOut {
                start_hp: game.player.cur_hp,
                turns: 0,
                steps_taken: 0,
                max_turns,
            }),
            r.wf(),
    {
        PlayOut { start_hp: game.player.cur_hp, turns: 0, steps_taken: 0, max_turns }
    }

    /// How the fight ended, where it did, before another step is taken.
    pub fn check(&self, game: &Game) -> (r: Option<Outcome>)
        requires
            self.can_settle(*game),
        ensures
            r == self.verdict(*game),
    {
        if game.status == GameStatus::Defeat {
            return Some(Outcome::Loss);
        }
        if game.in_combat {
            if self.turns >= self.max_turns {
                return Some(Outcome::Stall);
            }
            if game.steps.len() > 0 {
                return None;
            }
        }
        if game.player.cur_hp <= 0 {
            Some(Outcome::Loss)
        } else {
            Some(
                Outcome::Win { hp_lost: self.start_hp - game.player.cur_hp, turns: self.turns },
            )
        }
    }

    /// The step that is taken where the player picks `wanted`: the last one where there are not
    /// so many. Ending the turn counts as a turn. The fight is given up where it has taken too
    /// many steps by then, which the second part of the result says.
    pub fn take(&mut self, game: &Game, wanted: usize) -> (r: (usize, Option<Outcome>))
        requires
            old(self).wf(),
            old(self).verdict(*game) is None,
            old(self).steps_taken <= MAX_FIGHT_STEPS,
        ensures
            r.0 == settled(game.steps@, wanted),
            r.0 < game.steps@.len(),
            final(self).wf(),
            *final(self) == (PlayOut {
                start_hp: old(self).start_hp,
                turns: (old(self).turns + (if game.steps@[r.0 as int].kind == StepKind::EndTurn {
                    1int
                } else {
                    0
                })) as i32,
                steps_taken: (old(self).steps_taken + 1) as u32,
                max_turns: old(self).max_turns,
            }),
            *final(self) == old(self).taken(game.steps@[r.0 as int].kind),
            r.1 == (if old(self).steps_taken >= MAX_FIGHT_STEPS {
                Some(Outcome::Stall)
            } else {
                None
            }),
    {
        let i: usize = settle(&game.steps, wanted);
        if game.steps[i].kind == StepKind::EndTurn {
            self.turns = self.turns + 1;
        }
        self.steps_taken = self.steps_taken + 1;
        if self.steps_taken > MAX_FIGHT_STEPS {
            (i, Some(Outcome::Stall))
        } else {
            (i, None)
        }
    }
}

/// A fight is won only by a player who is alive and not defeated, and what it cost is the
/// difference in health.
pub proof fn a_win_is_survived(play: PlayOut, game: Game)
    requires
        play.can_settle(game),
        play.verdict(game) matches Some(Outcome::Win { .. }),
    ensures
        game.player.cur_hp > 0,
        game.status != GameStatus::Defeat,
        play.verdict(game) == Some(
            Outcome::Win {
                hp_lost: (play.start_hp - game.player.cur_hp) as i32,
                turns: play.turns,
            },
        ),
        play.verdict(game)->0->hp_lost + game.player.cur_hp == play.start_hp,
{
}

/// A defeated player never wins, whatever else the board shows.
pub proof fn a_defeat_is_a_loss(play: PlayOut, game: Game)
    requires
        game.status == GameStatus::Defeat,
    ensures
        play.verdict(game) == Some(Outcome::Loss),
{
}

/// Once the turns are used up, an undecided fight is given up.
pub proof fn turns_are_capped(play: PlayOut, game: Game)
    requires
        play.wf(),
        game.status != GameStatus::Defeat,
        game.in_combat,
        play.turns >= play.max_turns,
    ensures
        play.verdict(game) == Some(Outcome::Stall),
{
}

/// Without a limit on its turns, a fight is given up by the cap on its steps alone.
pub proof fn an_unlimited_fight_does_not_run_out_of_turns(play: PlayOut, game: Game)
    requires
        play.wf(),
        play.max_turns == i32::MAX,
    ensures
        play.verdict(game) != Some(Outcome::Stall),
{
}

/// The hit points, and the block in front of them, of the first `n` monsters that take part in
/// the fight.
pub open spec fn toughness(monsters: Seq<Monster>, n: int) -> int
    decreases n,
{
    if n <= 0 {
        0
    } else if monsters[n - 1].creature.actionable {
        toughness(monsters, n - 1) + monsters[n - 1].creature.cur_hp
            + monsters[n - 1].creature.block
    } else {
        toughness(monsters, n - 1)
    }
}

/// What a finished or abandoned fight is worth.
pub open spec fn worth_of(game: Game, outcome: Outcome) -> int {
    match outcome {
        Outcome::Win { .. } => 1000 + game.player.cur_hp,
        Outcome::Loss => -1000 + game.turn,
        Outcome::Stall => game.player.cur_hp - toughness(
            game.monsters@,
            game.monsters@.len() as int,
        ),
    }
}

/// What a finished or abandoned fight is worth: a win is worth the more the more health is left,
/// a loss is the less bad the longer it took, and an abandoned fight counts by what is left on
/// either side.
pub fn rollout_value(game: &Game, outcome: Outcome) -> (r: i128)
    ensures
        r == worth_of(*game, outcome),
        game.monsters@.len() <= u32::MAX ==> -0x2_0000_0000_0000_0000 <= r
            <= 0x2_0000_0000_0000_0000,
{
    match outcome {
        Outcome::Win { .. } => 1000 + game.player.cur_hp as i128,
        Outcome::Loss => -1000 + game.turn as i128,
        Outcome::Stall => {
            let n: usize = game.monsters.len();
            let mut left: i128 = 0;
            let mut i: usize = 0;
            while i < n
                invariant
                    i <= n,
                    n == game.monsters@.len(),
                    left == toughness(game.monsters@, i as int),
                    -0x1_0000_0000 * i <= left <= 0x1_0000_0000 * i,
                decreases n - i,
            {
                let creature: Creature = game.monsters[i].creature;
                if creature.is_actionable() {
                    left = left + creature.cur_hp as i128 + creature.block as i128;
                }
                i = i + 1;
            }
            game.player.cur_hp as i128 - left
        },
    }
}

/// Winning dominates: a win is worth more than any loss that came within two thousand turns.
pub proof fn a_win_beats_a_loss(won: Game, hp_lost: i32, turns: i32, lost: Game)
    requires
        won.player.cur_hp > 0,
        lost.turn <= 2000,
    ensures
        worth_of(won, Outcome::Win { hp_lost, turns }) > worth_of(lost, Outcome::Loss),
{
}

/// Winning dominates: a win is worth more than any fight that was abandoned with a thousand points
/// of health or fewer, whatever is left of the monsters.
pub proof fn a_win_beats_a_stall(won: Game, hp_lost: i32, turns: i32, stalled: Game)
    requires
        won.player.cur_hp > 0,
        stalled.player.cur_hp <= 1000,
        forall|i: int|
            0 <= i < stalled.monsters@.len() ==> (#[trigger] stalled.monsters@[i]).creature.cur_hp
                + stalled.monsters@[i].creature.block >= 0,
    ensures
        worth_of(won, Outcome::Win { hp_lost, turns }) > worth_of(stalled, Outcome::Stall),
{
    lemma_toughness_is_not_negative(stalled.monsters@, stalled.monsters@.len() as int);
}

proof fn lemma_toughness_is_not_negative(monsters: Seq<Monster>, n: int)
    requires
        0 <= n <= monsters.len(),
        forall|i: int|
            0 <= i < monsters.len() ==> (#[trigger] monsters[i]).creature.cur_hp
                + monsters[i].creature.block >= 0,
    ensures
        toughness(monsters, n) >= 0,
    decreases n,
{
    if n > 0 {
        lemma_toughness_is_not_negative(monsters, n - 1);
        assert(monsters[n - 1].creature.cur_hp + monsters[n - 1].creature.block >= 0);
    }
}

/// Among wins, more health left is worth more; among losses, a later one is less bad.
pub proof fn wins_go_by_health_and_losses_by_turns(
    a: Game,
    b: Game,
    a_cost: i32,
    a_turns: i32,
    b_cost: i32,
    b_turns: i32,
)
    ensures
        worth_of(a, Outcome::Win { hp_lost: a_cost, turns: a_turns }) > worth_of(
            b,
            Outcome::Win { hp_lost: b_cost, turns: b_turns },
        ) <==> a.player.cur_hp > b.player.cur_hp,
        worth_of(a, Outcome::Loss) > worth_of(b, Outcome::Loss) <==> a.turn > b.turn,
{
}

/// A fight is told from its board: it is lost where the player is defeated, or where it is over or
/// offers nothing and the player is dead; it is won where it is over or offers nothing and the
/// player lives undefeated; it is given up where it is on and the turns are used up; and it goes
/// on in every other case, and in no other.
pub proof fn a_fight_is_told_from_its_board(play: PlayOut, game: Game, r: Option<Outcome>)
    requires
        play.can_settle(game),
        call_ensures(PlayOut::check, (&play, &game), r),
    ensures
        ({
            let beaten = game.status == GameStatus::Defeat;
            let out_of_turns = game.in_combat && play.turns >= play.max_turns;
            let done = !game.in_combat || game.steps@.len() == 0;
            let alive = game.player.cur_hp > 0;
            &&& r == Some(Outcome::Loss) <==> beaten || (done && !out_of_turns && !alive)
            &&& r == Some(Outcome::Stall) <==> !beaten && out_of_turns
            &&& (r matches Some(Outcome::Win { .. })) <==> !beaten && done && !out_of_turns && alive
            &&& r is None <==> !beaten && !done && !out_of_turns
            &&& r matches Some(Outcome::Win { hp_lost, turns }) ==> hp_lost
                == play.start_hp - game.player.cur_hp && turns == play.turns
        }),
{
}

/// What a monster that takes part in the fight can take before it dies; none other counts.
pub open spec fn holds_out() -> spec_fn(Monster) -> int {
    |m: Monster|
        if m.creature.actionable {
            m.creature.cur_hp + m.creature.block
        } else {
            0
        }
}

proof fn lemma_toughness_sums(monsters: Seq<Monster>, n: int)
    requires
        0 <= n <= monsters.len(),
    ensures
        toughness(monsters, n) == total_of(monsters.take(n), holds_out()),
    decreases n,
{
    if n == 0 {
        assert(monsters.take(0) =~= Seq::empty());
        one_more_adds_to_the_total(monsters, holds_out(), arbitrary());
    } else {
        lemma_toughness_sums(monsters, n - 1);
        one_more_adds_to_the_total(monsters.take(n - 1), holds_out(), monsters[n - 1]);
        assert(monsters.take(n - 1).push(monsters[n - 1]) =~= monsters.take(n));
    }
}

/// A win counts a thousand and the health left, a loss a thousand less than the turns it took, and
/// an abandoned fight the player's health less the health and block of every monster that takes
/// part in it.
pub proof fn an_end_counts_by_what_is_left(game: Game, outcome: Outcome, r: i128)
    requires
        call_ensures(rollout_value, (&game, outcome), r),
    ensures
        outcome is Win ==> r - game.player.cur_hp == 1000,
        outcome is Loss ==> game.turn - r == 1000,
        outcome is Stall ==> r + total_of(game.monsters@, holds_out()) == game.player.cur_hp,
{
    lemma_toughness_sums(game.monsters@, game.monsters@.len() as int);
    assert(game.monsters@.take(game.monsters@.len() as int) =~= game.monsters@);
}

/// One more monster that takes part in an abandoned fight, wherever it stands, makes it worth less
/// by its health and block; one that does not take part changes nothing.
pub proof fn one_more_monster_weighs_on_a_stall(
    game: Game,
    larger: Game,
    i: int,
    m: Monster,
    r: i128,
    q: i128,
)
    requires
        0 <= i <= game.monsters@.len(),
        larger.monsters@ == game.monsters@.insert(i, m),
        larger.player == game.player,
        call_ensures(rollout_value, (&game, Outcome::Stall), r),
        call_ensures(rollout_value, (&larger, Outcome::Stall), q),
    ensures
        m.creature.actionable ==> r - q == m.creature.cur_hp + m.creature.block,
        !m.creature.actionable ==> r == q,
{
    an_end_counts_by_what_is_left(game, Outcome::Stall, r);
    an_end_counts_by_what_is_left(larger, Outcome::Stall, q);
    an_element_counts_anywhere(game.monsters@, holds_out(), i, m);
}

/// The fight once the steps were taken, one after the other.
pub open spec fn played(play: PlayOut, kinds: Seq<StepKind>) -> PlayOut
    decreases kinds.len(),
{
    if kinds.len() == 0 {
        play
    } else {
        played(play, kinds.drop_last()).taken(kinds.last())
    }
}

/// One for a step that ends the turn.
pub open spec fn ends_the_turn() -> spec_fn(StepKind) -> int {
    |kind: StepKind|
        if kind == StepKind::EndTurn {
            1int
        } else {
            0
        }
}

/// After any row of steps the fight counts every one of them as a step, and those that ended a turn
/// as turns; what it began with stays as it was.
pub proof fn every_step_and_turn_counts(play: PlayOut, kinds: Seq<StepKind>)
    requires
        play.turns == 0,
        play.steps_taken == 0,
        kinds.len() <= i32::MAX,
    ensures
        played(play, kinds).steps_taken == kinds.len(),
        played(play, kinds).turns == total_of(kinds, ends_the_turn()),
        0 <= total_of(kinds, ends_the_turn()) <= kinds.len(),
        played(play, kinds).start_hp == play.start_hp,
        played(play, kinds).max_turns == play.max_turns,
    decreases kinds.len(),
{
    if kinds.len() == 0 {
        assert(kinds =~= Seq::empty());
        one_more_adds_to_the_total(kinds, ends_the_turn(), StepKind::Other);
    } else {
        every_step_and_turn_counts(play, kinds.drop_last());
        one_more_adds_to_the_total(kinds.drop_last(), ends_the_turn(), kinds.last());
        assert(kinds.drop_last().push(kinds.last()) =~= kinds);
    }
}

} // verus!
