//! Playing one climb to its end, and which climb a worker plays next.

use crate::game::{Game, GameStatus};
use crate::step::{any_named, has_kind, is_named};
use vstd::prelude::*;

verus! {

/// A climb that takes more steps than this is given up.
pub const MAX_CLIMB_STEPS: u32 = 1800;

/// How a climb went. It stops at the reward of the first act's boss.
#[derive(Clone, Copy, PartialEq, Eq, Debug, Structural)]
pub enum RunResult {
    Cleared { hp: i32, floor: i32 },
    Died { floor: i32 },
    /// The climb was given up.
    Stalled,
}

/// The boss is dead: the relics that it guarded are on offer.
pub open spec fn boss_is_dead(game: Game) -> bool {
    any_named(game.steps@, "BossRewardChooseStep"@) || any_named(
        game.steps@,
        "BossRewardSkipStep"@,
    )
}

/// How the climb ended, where it did, before another step is taken.
pub open spec fn climb_verdict(game: Game) -> Option<RunResult> {
    match game.status {
        GameStatus::Defeat => Some(RunResult::Died { floor: game.floor }),
        GameStatus::Victory => Some(
            RunResult::Cleared { hp: game.player.cur_hp, floor: game.floor },
        ),
        GameStatus::Combat => if game.steps@.len() == 0 {
            Some(RunResult::Stalled)
        } else if boss_is_dead(game) {
            Some(RunResult::Cleared { hp: game.player.cur_hp, floor: game.floor })
        } else {
            None
        },
    }
}

/// A climb that is being played.
#[derive(Clone, Copy, PartialEq, Eq, Debug, Structural)]
pub struct FullRun {
    pub steps_taken: u32,
}

impl FullRun {
    /// Begins a climb.
    pub fn begin() -> (r: FullRun)
        ensures
            r.steps_taken == 0,
    {
        FullRun { steps_taken: 0 }
    }

    /// How the climb ended, where it did, before another step is taken.
    pub fn check(&self, game: &Game) -> (r: Option<RunResult>)
        ensures
            r == climb_verdict(*game),
    {
        match game.status {
            GameStatus::Defeat => Some(RunResult::Died { floor: game.floor }),
            GameStatus::Victory => Some(
                RunResult::Cleared { hp: game.player.cur_hp, floor: game.floor },
            ),
            GameStatus::Combat => {
                if game.steps.len() == 0 {
                    Some(RunResult::Stalled)
                } else if has_kind(&game.steps, "BossRewardChooseStep") || has_kind(
                    &game.steps,
                    "BossRewardSkipStep",
                ) {
                    Some(RunResult::Cleared { hp: game.player.cur_hp, floor: game.floor })
                } else {
                    None
                }
            },
        }
    }

    /// Counts a step that was taken. The climb is given up where it took too many of them, or
    /// where it is `late`.
    pub fn took(&mut self, late: bool) -> (r: Option<RunResult>)
        requires
            old(self).steps_taken <= MAX_CLIMB_STEPS,
        ensures
            final(self).steps_taken == old(self).steps_taken + 1,
            r == (if late || old(self).steps_taken >= MAX_CLIMB_STEPS {
                Some(RunResult::Stalled)
            } else {
                None
            }),
    {
        self.steps_taken = self.steps_taken + 1;
        if self.steps_taken > MAX_CLIMB_STEPS || late {
            Some(RunResult::Stalled)
        } else {
            None
        }
    }
}

/// A climb ends cleared only by victory or over the boss's reward, and never in defeat.
pub proof fn a_clear_is_earned(game: Game)
    requires
        climb_verdict(game) matches Some(RunResult::Cleared { .. }),
    ensures
        game.status == GameStatus::Victory || (game.status == GameStatus::Combat && boss_is_dead(
            game,
        )),
        climb_verdict(game) == Some(
            RunResult::Cleared { hp: game.player.cur_hp, floor: game.floor },
        ),
{
}

/// The fighter of a climb.
#[derive(Clone, Copy, PartialEq, Eq, Debug, Structural)]
pub enum Fighter {
    Greedy,
    /// Search with `iters` rounds per decision, from `seed`.
    Search { iters: u32, seed: u64 },
}

/// A climb that a worker is to play.
#[derive(Clone, Copy, PartialEq, Eq, Debug, Structural)]
pub struct Job {
    pub seed: u64,
    pub fighter: Fighter,
}

/// The seed of climb `i`: the one `i` places after `base`, going round at the end of the range.
pub open spec fn seed_of(base: u64, i: u32) -> u64 {
    ((base + i) % 0x1_0000_0000_0000_0000) as u64
}

/// The climb that ticket `i` of `trials` stands for; none once all are handed out. A search
/// budget of zero leaves the fights to the greedy player.
pub fn claim(i: u32, trials: u32, base: u64, iters: u32) -> (r: Option<Job>)
    ensures
        r is None <==> i >= trials,
        r matches Some(job) ==> {
            &&& job.seed == seed_of(base, i)
            &&& job.fighter == (if iters == 0 {
                Fighter::Greedy
            } else {
                Fighter::Search { iters, seed: seed_of(base, i) }
            })
        },
{
    if i >= trials {
        return None;
    }
    let seed: u64 = base.wrapping_add(i as u64);
    let fighter: Fighter = if iters == 0 {
        Fighter::Greedy
    } else {
        Fighter::Search { iters, seed }
    };
    Some(Job { seed, fighter })
}

/// The seeds of an evaluation, ticket by ticket.
pub open spec fn seeds_of(base: u64, trials: u32) -> Seq<u64> {
    Seq::new(trials as nat, |i: int| seed_of(base, i as u32))
}

/// The tickets below `trials`, and no others, stand for climbs, and each seed of the evaluation is
/// played on one ticket only.
pub proof fn each_seed_is_played_once(base: u64, trials: u32, iters: u32, i: u32, r: Option<Job>)
    requires
        call_ensures(claim, (i, trials, base, iters), r),
    ensures
        r is Some <==> i < trials,
        r matches Some(job) ==> job.seed == seeds_of(base, trials)[i as int],
        seeds_of(base, trials).len() == trials,
        seeds_of(base, trials).no_duplicates(),
{
    let seeds = seeds_of(base, trials);
    assert forall|j: int, k: int| 0 <= j < seeds.len() && 0 <= k < seeds.len() && j != k implies
        seeds[j] != seeds[k] by {
        climbs_have_seeds_of_their_own(base, j as u32, k as u32);
    }
}

/// How many workers share the climbs: as many as asked for, and at least one.
pub fn workers(threads: u32) -> (r: u32)
    ensures
        r == (if threads == 0 {
            1
        } else {
            threads
        }),
{
    if threads == 0 {
        1
    } else {
        threads
    }
}

/// No two climbs of an evaluation share a seed, so a policy is never judged on one twice.
pub proof fn climbs_have_seeds_of_their_own(base: u64, i: u32, j: u32)
    requires
        i != j,
    ensures
        seed_of(base, i) != seed_of(base, j),
{
}

/// A climb is told from its board: it ended in death where the player is defeated; it was cleared
/// by victory or, before any defeat, where a step of the boss's reward is on offer; it stalled
/// where it goes on but offers nothing; and it goes on in every other case, and in no other. The
/// floor and the health are those of the board.
pub proof fn a_climb_is_told_from_its_board(run: FullRun, game: Game, r: Option<RunResult>)
    requires
        call_ensures(FullRun::check, (&run, &game), r),
    ensures
        ({
            let reward = exists|i: int|
                0 <= i < game.steps@.len() && (is_named(
                    #[trigger] game.steps@[i],
                    "BossRewardChooseStep"@,
                ) || is_named(game.steps@[i], "BossRewardSkipStep"@));
            &&& (r matches Some(RunResult::Died { .. })) <==> game.status == GameStatus::Defeat
            &&& (r matches Some(RunResult::Cleared { .. })) <==> game.status == GameStatus::Victory
                || (game.status == GameStatus::Combat && reward)
            &&& r == Some(RunResult::Stalled) <==> game.status == GameStatus::Combat
                && game.steps@.len() == 0
            &&& r is None <==> game.status == GameStatus::Combat && game.steps@.len() > 0 && !reward
            &&& r matches Some(RunResult::Died { floor }) ==> floor == game.floor
            &&& r matches Some(RunResult::Cleared { hp, floor }) ==> hp == game.player.cur_hp
                && floor == game.floor
        }),
{
    let steps = game.steps@;
    if exists|i: int|
        0 <= i < steps.len() && (is_named(#[trigger] steps[i], "BossRewardChooseStep"@) || is_named(
            steps[i],
            "BossRewardSkipStep"@,
        )) {
        let i = choose|i: int|
            0 <= i < steps.len() && (is_named(#[trigger] steps[i], "BossRewardChooseStep"@)
                || is_named(steps[i], "BossRewardSkipStep"@));
        assert(boss_is_dead(game));
    }
    if any_named(steps, "BossRewardChooseStep"@) {
        let i = choose|i: int|
            0 <= i < steps.len() && #[trigger] is_named(steps[i], "BossRewardChooseStep"@);
        assert(is_named(steps[i], "BossRewardChooseStep"@));
    }
    if any_named(steps, "BossRewardSkipStep"@) {
        let i = choose|i: int|
            0 <= i < steps.len() && #[trigger] is_named(steps[i], "BossRewardSkipStep"@);
        assert(is_named(steps[i], "BossRewardSkipStep"@));
    }
}

/// The climbs of an evaluation follow one another: the next ticket has the next seed, going round
/// at the end of the range, and the first has the base.
pub proof fn tickets_have_seeds_in_turn(base: u64, i: u32, trials: u32, iters: u32, a: Option<Job>, b: Option<Job>)
    requires
        i < u32::MAX,
        i + 1 < trials,
        call_ensures(claim, (i, trials, base, iters), a),
        call_ensures(claim, ((i + 1) as u32, trials, base, iters), b),
    ensures
        a is Some && b is Some,
        i == 0 ==> a.unwrap().seed == base,
        a.unwrap().seed < u64::MAX ==> b.unwrap().seed == a.unwrap().seed + 1,
        a.unwrap().seed == u64::MAX ==> b.unwrap().seed == 0,
        iters == 0 <==> a.unwrap().fighter == Fighter::Greedy,
        iters > 0 ==> a.unwrap().fighter == (Fighter::Search { iters, seed: a.unwrap().seed }),
{
}

} // verus!
