//! Following one climb step by step, to report how it goes.

use crate::game::{Game, GameStatus};
use crate::map::RoomType;
use crate::route::{ascend_room, room_ahead};
use crate::step::{all_named, any_named, has_kind, indices_of, is_named};
use vstd::prelude::*;

verus! {

/// A climb that takes more steps than this is no longer followed.
pub const MAX_TRACE_STEPS: u32 = 100000;

/// What there is to report of a board.
#[derive(Clone, Copy, PartialEq, Eq, Debug, Structural)]
pub enum Sighting {
    /// The climb ended in defeat.
    Died,
    /// The climb came as far as it goes.
    Cleared,
    /// A fight begins.
    FightBegins,
    /// A fight is over and cost this much health.
    FightEnds { lost: i64 },
    Nothing,
}

/// A climb that is being followed.
#[derive(Clone, Copy, PartialEq, Eq, Debug, Structural)]
pub struct Trace {
    pub in_combat: bool,
    pub hp_at_combat_start: i32,
    pub steps_taken: u32,
}

impl Trace {
    /// What there is to report of the board.
    pub open spec fn sighting(&self, game: Game) -> Sighting {
        if game.status == GameStatus::Defeat {
            Sighting::Died
        } else if game.steps@.len() == 0 || any_named(game.steps@, "BossRewardChooseStep"@) {
            Sighting::Cleared
        } else if game.in_combat && !self.in_combat {
            Sighting::FightBegins
        } else if !game.in_combat && self.in_combat {
            Sighting::FightEnds { lost: (self.hp_at_combat_start - game.player.cur_hp) as i64 }
        } else {
            Sighting::Nothing
        }
    }

    /// The trace once the board was looked at.
    pub open spec fn seen(&self, game: Game) -> Trace {
        let r = self.sighting(game);
        if r is Died || r is Cleared {
            *self
        } else {
            Trace {
                in_combat: game.in_combat,
                hp_at_combat_start: if r is FightBegins {
                    game.player.cur_hp
                } else {
                    self.hp_at_combat_start
                },
                steps_taken: self.steps_taken,
            }
        }
    }

    /// The trace once the boards were looked at, one after the other.
    pub open spec fn seen_all(&self, boards: Seq<Game>) -> Trace
        decreases boards.len(),
    {
        if boards.len() == 0 {
            *self
        } else {
            self.seen_all(boards.drop_last()).seen(boards.last())
        }
    }

    /// Follows a climb from here on.
    pub fn begin(game: &Game) -> (r: Trace)
        ensures
            r == (Trace {
                in_combat: false,
                hp_at_combat_start: game.player.cur_hp,
                steps_taken: 0,
            }),
    {
        Trace { in_combat: false, hp_at_combat_start: game.player.cur_hp, steps_taken: 0 }
    }

    /// Looks at the board, and says what there is to report of it.
    pub fn observe(&mut self, game: &Game) -> (r: Sighting)
        ensures
            r == old(self).sighting(*game),
            *final(self) == old(self).seen(*game),
            r is Died || r is Cleared ==> *final(self) == *old(self),
            !(r is Died || r is Cleared) ==> *final(self) == (Trace {
                in_combat: game.in_combat,
                hp_at_combat_start: if r is FightBegins {
                    game.player.cur_hp
                } else {
                    old(self).hp_at_combat_start
                },
                steps_taken: old(self).steps_taken,
            }),
    {
        if game.status == GameStatus::Defeat {
            return Sighting::Died;
        }
        if game.steps.len() == 0 || has_kind(&game.steps, "BossRewardChooseStep") {
            return Sighting::Cleared;
        }
        let before: bool = self.in_combat;
        self.in_combat = game.in_combat;
        if game.in_combat && !before {
            self.hp_at_combat_start = game.player.cur_hp;
            Sighting::FightBegins
        } else if !game.in_combat && before {
            Sighting::FightEnds {
                lost: self.hp_at_combat_start as i64 - game.player.cur_hp as i64,
            }
        } else {
            Sighting::Nothing
        }
    }

    /// Counts a step that was taken, and says whether to follow on.
    pub fn took(&mut self) -> (go_on: bool)
        requires
            old(self).steps_taken <= MAX_TRACE_STEPS,
        ensures
            *final(self) == (Trace {
                steps_taken: (old(self).steps_taken + 1) as u32,
                ..*old(self)
            }),
            go_on == (final(self).steps_taken <= MAX_TRACE_STEPS),
    {
        self.steps_taken = self.steps_taken + 1;
        self.steps_taken <= MAX_TRACE_STEPS
    }
}

/// The rooms that the first `n` of the steps lead to.
pub open spec fn rooms_ahead(game: Game, n: int) -> Seq<Option<RoomType>> {
    Seq::new(
        n as nat,
        |k: int| room_ahead(game.map, game.steps@[all_named(game.steps@, "AscendStep"@)[k] as int]),
    )
}

/// Where the map is on offer, the rooms that can be gone to, and the one that step `i` goes to.
pub fn map_options(game: &Game, i: usize) -> (r: Option<(Vec<Option<RoomType>>, Option<RoomType>)>)
    requires
        i < game.steps@.len(),
    ensures
        r is Some <==> any_named(game.steps@, "AscendStep"@),
        r matches Some((options, taken)) ==> {
            &&& options@ == rooms_ahead(
                *game,
                all_named(game.steps@, "AscendStep"@).len() as int,
            )
            &&& taken == room_ahead(game.map, game.steps@[i as int])
        },
{
    let ways: Vec<usize> = indices_of(&game.steps, "AscendStep");
    if ways.len() == 0 {
        return None;
    }
    let mut options: Vec<Option<RoomType>> = Vec::new();
    let mut k: usize = 0;
    while k < ways.len()
        invariant
            k <= ways@.len(),
            ways@ == all_named(game.steps@, "AscendStep"@),
            forall|j: int| 0 <= j < ways@.len() ==> #[trigger] ways@[j] < game.steps@.len(),
            options@ == rooms_ahead(*game, k as int),
        decreases ways@.len() - k,
    {
        options.push(ascend_room(game, &game.steps[ways[k]]));
        k = k + 1;
        assert(options@ =~= rooms_ahead(*game, k as int));
    }
    Some((options, ascend_room(game, &game.steps[i])))
}

/// A climb is reported as it goes: its death, its end, and the fights that begin and end on the
/// way, each with what it cost; a board with nothing new is passed over.
pub proof fn a_climb_is_reported_as_it_goes(trace: Trace, game: Game)
    ensures
        ({
            let r = trace.sighting(game);
            let over = game.steps@.len() == 0 || exists|i: int|
                0 <= i < game.steps@.len() && #[trigger] is_named(
                    game.steps@[i],
                    "BossRewardChooseStep"@,
                );
            let dead = game.status == GameStatus::Defeat;
            let on = !dead && !over;
            &&& r is Died <==> dead
            &&& r is Cleared <==> !dead && over
            &&& r is FightBegins <==> on && game.in_combat && !trace.in_combat
            &&& r is FightEnds <==> on && !game.in_combat && trace.in_combat
            &&& r is Nothing <==> on && game.in_combat == trace.in_combat
            &&& r matches Sighting::FightEnds { lost } ==> lost + game.player.cur_hp
                == trace.hp_at_combat_start
        }),
{
}

/// A fight is reported to cost what the player's health lost between the board it began on and the
/// one it ended on, whatever was seen in between.
pub proof fn a_fight_costs_what_was_lost_in_it(before: Trace, first: Game, between: Seq<Game>, last: Game)
    requires
        before.sighting(first) is FightBegins,
        forall|k: int|
            0 <= k < between.len() ==> (#[trigger] between[k]).in_combat && between[k].status
                != GameStatus::Defeat && between[k].steps@.len() > 0 && !any_named(
                between[k].steps@,
                "BossRewardChooseStep"@,
            ),
        before.seen(first).seen_all(between).sighting(last) is FightEnds,
    ensures
        before.seen(first).seen_all(between).sighting(last) == (Sighting::FightEnds {
            lost: (first.player.cur_hp - last.player.cur_hp) as i64,
        }),
{
    lemma_seen_all(before.seen(first), between);
}

proof fn lemma_seen_all(trace: Trace, boards: Seq<Game>)
    requires
        trace.in_combat,
        forall|k: int|
            0 <= k < boards.len() ==> (#[trigger] boards[k]).in_combat && boards[k].status
                != GameStatus::Defeat && boards[k].steps@.len() > 0 && !any_named(
                boards[k].steps@,
                "BossRewardChooseStep"@,
            ),
    ensures
        trace.seen_all(boards).in_combat,
        trace.seen_all(boards).hp_at_combat_start == trace.hp_at_combat_start,
    decreases boards.len(),
{
    if boards.len() > 0 {
        let fewer = boards.drop_last();
        assert forall|k: int| 0 <= k < fewer.len() implies (#[trigger] fewer[k]).in_combat
            && fewer[k].status != GameStatus::Defeat && fewer[k].steps@.len() > 0 && !any_named(
            fewer[k].steps@,
            "BossRewardChooseStep"@,
        ) by {
            assert(fewer[k] == boards[k]);
        }
        lemma_seen_all(trace, fewer);
        assert(boards[boards.len() - 1] == boards.last());
    }
}

} // verus!
