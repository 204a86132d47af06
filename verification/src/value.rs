//! What a board is worth on a scale from nought to one.

use crate::game::{Creature, Game, GameStatus, Monster};
use crate::sums::{
    a_number_counts_anywhere, floored, no_number_is_above_the_sum, one_more_adds_to_the_sum, sum,
};
use vstd::prelude::*;

verus! {

/// What counts of a board when a look ahead ends there.
#[derive(Clone, Copy, PartialEq, Eq, Debug, Structural)]
pub enum Standing {
    /// The fight is won with `hp` points of health left, of `most`.
    Won { hp: i32, most: i32 },
    /// The monsters have `left` points of health left, of the `of` that they began with.
    Unfinished { left: i128, of: i128 },
}

/// The health of the first `n` monsters; below zero it counts as zero.
pub open spec fn health_left(monsters: Seq<Monster>, n: int) -> int
    decreases n,
{
    if n <= 0 {
        0
    } else if monsters[n - 1].creature.cur_hp > 0 {
        health_left(monsters, n - 1) + monsters[n - 1].creature.cur_hp
    } else {
        health_left(monsters, n - 1)
    }
}

/// The full health of the first `n` monsters.
pub open spec fn full_health(monsters: Seq<Monster>, n: int) -> int
    decreases n,
{
    if n <= 0 {
        0
    } else {
        full_health(monsters, n - 1) + monsters[n - 1].creature.max_hp
    }
}

/// The fight is won: the player lives and no monster does.
pub open spec fn is_won(game: Game) -> bool {
    &&& game.status != GameStatus::Defeat
    &&& game.player.cur_hp > 0
    &&& health_left(game.monsters@, game.monsters@.len() as int) == 0
}

/// What counts of the board.
pub open spec fn standing(game: Game) -> Standing {
    let n = game.monsters@.len() as int;
    if is_won(game) {
        Standing::Won {
            hp: game.player.cur_hp,
            most: if game.player.max_hp > 1 {
                game.player.max_hp
            } else {
                1
            },
        }
    } else {
        Standing::Unfinished {
            left: health_left(game.monsters@, n) as i128,
            of: full_health(game.monsters@, n) as i128,
        }
    }
}

impl Standing {
    /// The worth of the standing as a fraction, the numerator and the denominator: a win is worth
    /// a half and half the share of health kept; otherwise, forty-five hundredths of the share of
    /// the monsters' health that is gone, and all of them where there was none.
    pub open spec fn parts(&self) -> (int, int) {
        match *self {
            Standing::Won { hp, most } => (most + hp, 2 * most),
            Standing::Unfinished { left, of } => if of == 0 {
                (9, 20)
            } else {
                (9 * (of - left), 20 * of)
            },
        }
    }

    /// The numbers are small enough to be multiplied out.
    pub open spec fn wf(&self) -> bool {
        match *self {
            Standing::Won { hp, most } => most >= 1,
            Standing::Unfinished { left, of } => {
                &&& 0 <= left <= 0x1_0000_0000_0000_0000_0000_0000
                &&& -0x1_0000_0000_0000_0000_0000_0000 <= of <= 0x1_0000_0000_0000_0000_0000_0000
            },
        }
    }

    /// The worth of the standing as a fraction.
    pub fn fraction(&self) -> (r: (i128, i128))
        requires
            self.wf(),
        ensures
            r.0 == self.parts().0,
            r.1 == self.parts().1,
    {
        match *self {
            Standing::Won { hp, most } => (most as i128 + hp as i128, 2 * (most as i128)),
            Standing::Unfinished { left, of } => {
                if of == 0 {
                    (9, 20)
                } else {
                    (9 * (of - left), 20 * of)
                }
            },
        }
    }
}

/// What counts of the board.
pub fn value01(game: &Game) -> (r: Standing)
    ensures
        r == standing(*game),
        r.wf(),
{
    let n: usize = game.monsters.len();
    let mut left: i128 = 0;
    let mut of: i128 = 0;
    let mut i: usize = 0;
    while i < n
        invariant
            i <= n,
            n == game.monsters@.len(),
            left == health_left(game.monsters@, i as int),
            of == full_health(game.monsters@, i as int),
            0 <= left <= 0x8000_0000 * i,
            -0x8000_0000 * i <= of <= 0x8000_0000 * i,
        decreases n - i,
    {
        let creature: Creature = game.monsters[i].creature;
        if creature.cur_hp > 0 {
            left = left + creature.cur_hp as i128;
        }
        of = of + creature.max_hp as i128;
        i = i + 1;
    }
    if game.status != GameStatus::Defeat && game.player.cur_hp > 0 && left == 0 {
        let most: i32 = if game.player.max_hp > 1 {
            game.player.max_hp
        } else {
            1
        };
        Standing::Won { hp: game.player.cur_hp, most }
    } else {
        Standing::Unfinished { left, of }
    }
}

/// No creature has more health than it can have, and none can have less than nothing.
pub open spec fn health_in_bounds(game: Game) -> bool {
    &&& game.player.cur_hp <= game.player.max_hp
    &&& forall|i: int|
        0 <= i < game.monsters@.len() ==> {
            &&& (#[trigger] game.monsters@[i]).creature.cur_hp <= game.monsters@[i].creature.max_hp
            &&& 0 <= game.monsters@[i].creature.max_hp
        }
}

proof fn lemma_left_within_full(game: Game, n: int)
    requires
        health_in_bounds(game),
        0 <= n <= game.monsters@.len(),
    ensures
        0 <= health_left(game.monsters@, n) <= full_health(game.monsters@, n) <= 0x8000_0000 * n,
    decreases n,
{
    if n > 0 {
        lemma_left_within_full(game, n - 1);
        assert(game.monsters@[n - 1].creature.cur_hp <= game.monsters@[n - 1].creature.max_hp);
    }
}

/// The worth of a board lies between nought and one.
pub proof fn worth_lies_between_nought_and_one(game: Game)
    requires
        health_in_bounds(game),
        game.monsters@.len() <= usize::MAX,
    ensures
        standing(game).parts().1 > 0,
        0 <= standing(game).parts().0 <= standing(game).parts().1,
{
    lemma_left_within_full(game, game.monsters@.len() as int);
}

/// A win is always worth more than a half, and anything else forty-five hundredths at the most.
pub proof fn a_win_is_worth_more_than_a_half(game: Game)
    requires
        health_in_bounds(game),
        game.monsters@.len() <= usize::MAX,
    ensures
        is_won(game) ==> 2 * standing(game).parts().0 > standing(game).parts().1,
        !is_won(game) ==> 20 * standing(game).parts().0 <= 9 * standing(game).parts().1,
{
    lemma_left_within_full(game, game.monsters@.len() as int);
}

/// The more health survives a win, the more it is worth.
pub proof fn a_healthier_win_is_worth_more(hp: i32, more: i32, most: i32)
    requires
        most >= 1,
        hp < more,
    ensures
        (Standing::Won { hp, most }).parts().0 < (Standing::Won { hp: more, most }).parts().0,
        (Standing::Won { hp, most }).parts().1 == (Standing::Won { hp: more, most }).parts().1,
{
}

/// The less is left of the monsters, the more an undecided fight is worth.
pub proof fn progress_is_worth_more(left: i128, less: i128, of: i128)
    requires
        of > 0,
        less < left,
    ensures
        (Standing::Unfinished { left, of }).parts().0 < (Standing::Unfinished {
            left: less,
            of,
        }).parts().0,
        (Standing::Unfinished { left, of }).parts().1 == (Standing::Unfinished {
            left: less,
            of,
        }).parts().1,
{
}

/// The health that each monster has left; below zero it counts as zero.
pub open spec fn healths(monsters: Seq<Monster>) -> Seq<int> {
    Seq::new(monsters.len(), |i: int| floored(monsters[i].creature.cur_hp as int))
}

/// The full health of each monster.
pub open spec fn full_healths(monsters: Seq<Monster>) -> Seq<int> {
    Seq::new(monsters.len(), |i: int| monsters[i].creature.max_hp as int)
}

proof fn lemma_health_sums(monsters: Seq<Monster>, n: int)
    requires
        0 <= n <= monsters.len(),
    ensures
        health_left(monsters, n) == sum(healths(monsters).take(n)),
        full_health(monsters, n) == sum(full_healths(monsters).take(n)),
        -0x8000_0000 * n <= full_health(monsters, n) <= 0x8000_0000 * n,
        0 <= health_left(monsters, n) <= 0x8000_0000 * n,
    decreases n,
{
    let left = healths(monsters);
    let full = full_healths(monsters);
    if n == 0 {
        one_more_adds_to_the_sum(left, 0);
        assert(left.take(0) =~= Seq::empty());
        assert(full.take(0) =~= Seq::empty());
    } else {
        lemma_health_sums(monsters, n - 1);
        one_more_adds_to_the_sum(left.take(n - 1), left[n - 1]);
        one_more_adds_to_the_sum(full.take(n - 1), full[n - 1]);
        assert(left.take(n - 1).push(left[n - 1]) =~= left.take(n));
        assert(full.take(n - 1).push(full[n - 1]) =~= full.take(n));
    }
}

/// A board is won just if the player is not defeated and alive and every single monster is dead.
/// It then counts by the player's health, out of the most that it can be. Otherwise it counts by
/// what is left of the health of all the monsters, out of all that they can have.
pub proof fn a_board_counts_by_all_its_monsters(game: Game, r: Standing)
    requires
        call_ensures(value01, (&game,), r),
    ensures
        r is Won <==> {
            &&& game.status != GameStatus::Defeat
            &&& game.player.cur_hp > 0
            &&& forall|i: int|
                0 <= i < game.monsters@.len() ==> (#[trigger] game.monsters@[i]).creature.cur_hp
                    <= 0
        },
        r matches Standing::Won { hp, most } ==> {
            &&& hp == game.player.cur_hp
            &&& most >= 1
            &&& game.player.max_hp >= 1 ==> most == game.player.max_hp
            &&& game.player.max_hp < 1 ==> most == 1
        },
        r matches Standing::Unfinished { left, of } ==> {
            &&& left == sum(healths(game.monsters@))
            &&& of == sum(full_healths(game.monsters@))
            &&& left >= 0
            &&& left == 0 <==> forall|i: int|
                0 <= i < game.monsters@.len() ==> (#[trigger] game.monsters@[i]).creature.cur_hp
                    <= 0
            &&& forall|i: int|
                0 <= i < game.monsters@.len() ==> (#[trigger] game.monsters@[i]).creature.cur_hp
                    <= left
        },
{
    let monsters = game.monsters@;
    let n = monsters.len() as int;
    assert(game.monsters@.len() == game.monsters.len());
    lemma_health_sums(monsters, n);
    let left = healths(monsters);
    assert(left.take(n) =~= left);
    assert(full_healths(monsters).take(n) =~= full_healths(monsters));
    no_number_is_above_the_sum(left);
    assert forall|i: int| 0 <= i < n implies (#[trigger] monsters[i]).creature.cur_hp <= sum(
        left,
    ) by {
        assert(left[i] <= sum(left));
    }
    if sum(left) == 0 {
        assert forall|i: int| 0 <= i < n implies (#[trigger] monsters[i]).creature.cur_hp <= 0 by {
            assert(left[i] == 0);
        }
    } else if forall|i: int|
        0 <= i < n ==> (#[trigger] monsters[i]).creature.cur_hp <= 0 {
        assert forall|i: int| 0 <= i < n implies #[trigger] left[i] == 0 by {
            assert(monsters[i].creature.cur_hp <= 0);
        }
    }
}

/// One more monster in the fight, wherever it stands, counts by its own health: what is left and
/// what there was grow by what it has, and a living one keeps a fight from being won.
pub proof fn one_more_monster_counts(
    game: Game,
    larger: Game,
    i: int,
    m: Monster,
    r: Standing,
    q: Standing,
)
    requires
        0 <= i <= game.monsters@.len(),
        larger.monsters@ == game.monsters@.insert(i, m),
        larger.status == game.status,
        larger.player == game.player,
        call_ensures(value01, (&game,), r),
        call_ensures(value01, (&larger,), q),
    ensures
        m.creature.cur_hp > 0 ==> q is Unfinished,
        m.creature.cur_hp <= 0 ==> (q is Won <==> r is Won),
        r matches Standing::Unfinished { left, of } ==> q == (Standing::Unfinished {
            left: (left + floored(m.creature.cur_hp as int)) as i128,
            of: (of + m.creature.max_hp) as i128,
        }),
        r is Won && m.creature.cur_hp > 0 ==> q->Unfinished_left == m.creature.cur_hp,
{
    a_board_counts_by_all_its_monsters(game, r);
    a_board_counts_by_all_its_monsters(larger, q);
    let before = game.monsters@;
    let after = larger.monsters@;
    assert(game.monsters@.len() == game.monsters.len());
    assert(larger.monsters@.len() == larger.monsters.len());
    assert(after[i] == m);
    assert(healths(after) =~= healths(before).insert(i, floored(m.creature.cur_hp as int)));
    assert(full_healths(after) =~= full_healths(before).insert(i, m.creature.max_hp as int));
    a_number_counts_anywhere(healths(before), i, floored(m.creature.cur_hp as int));
    a_number_counts_anywhere(full_healths(before), i, m.creature.max_hp as int);
    assert forall|j: int| 0 <= j < before.len() implies exists|k: int|
        0 <= k < after.len() && #[trigger] after[k] == #[trigger] before[j] by {
        if j < i {
            assert(after[j] == before[j]);
        } else {
            assert(after[j + 1] == before[j]);
        }
    }
    assert forall|k: int| 0 <= k < after.len() implies (#[trigger] after[k] == m || exists|j: int|
        0 <= j < before.len() && #[trigger] before[j] == after[k]) by {
        if k < i {
            assert(after[k] == before[k]);
        } else if k > i {
            assert(after[k] == before[k - 1]);
        }
    }
    if r is Won {
        assert forall|j: int| 0 <= j < before.len() implies #[trigger] healths(before)[j] == 0 by {
            assert(before[j].creature.cur_hp <= 0);
        }
        no_number_is_above_the_sum(healths(before));
    }
    if m.creature.cur_hp <= 0 && r is Won {
        assert forall|k: int| 0 <= k < after.len() implies (#[trigger] after[k]).creature.cur_hp
            <= 0 by {
            if after[k] != m {
                let j = choose|j: int| 0 <= j < before.len() && #[trigger] before[j] == after[k];
                assert(before[j].creature.cur_hp <= 0);
            }
        }
    }
    if m.creature.cur_hp <= 0 && q is Won {
        assert forall|j: int| 0 <= j < before.len() implies (#[trigger] before[j]).creature.cur_hp
            <= 0 by {
            let k = choose|k: int| 0 <= k < after.len() && #[trigger] after[k] == before[j];
            assert(after[k].creature.cur_hp <= 0);
        }
    }
    if let Standing::Unfinished { left, of } = r {
        if q is Won {
            assert(after[i].creature.cur_hp <= 0);
        }
        lemma_health_sums(after, after.len() as int);
        assert(healths(after).take(after.len() as int) =~= healths(after));
        assert(full_healths(after).take(after.len() as int) =~= full_healths(after));
    }
}

/// A win is worth a half and half the share of health that is kept; otherwise a board is worth
/// forty-five hundredths of the share of the monsters' health that is gone.
pub proof fn a_board_is_worth_its_share(standing: Standing, r: (i128, i128))
    requires
        standing.wf(),
        call_ensures(Standing::fraction, (&standing,), r),
    ensures
        standing matches Standing::Won { hp, most } ==> r.1 > 0 && r.0 * (2 * most) == r.1 * (most
            + hp),
        standing matches Standing::Unfinished { left, of } ==> {
            &&& of > 0 ==> r.1 > 0 && r.0 * 100 * of == r.1 * 45 * (of - left)
            &&& of == 0 ==> r.1 > 0 && r.0 * 100 == r.1 * 45
        },
{
    match standing {
        Standing::Won { hp, most } => {
            assert(r.0 * (2 * most) == r.1 * (most + hp)) by (nonlinear_arith)
                requires
                    r.0 == most + hp,
                    r.1 == 2 * most,
            ;
        },
        Standing::Unfinished { left, of } => {
            if of > 0 {
                assert(r.0 * 100 * of == r.1 * 45 * (of - left)) by (nonlinear_arith)
                    requires
                        r.0 == 9 * (of - left),
                        r.1 == 20 * of,
                ;
            }
        },
    }
}

} // verus!
