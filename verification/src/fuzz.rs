//! Play at random, to find out whether the engine keeps its promises.

use crate::cards::{CardClass, CardColor, CardType};
use crate::game::{Creature, Game, GameStatus, Monster};
use crate::map::RoomType;
use crate::rng::{rand_slice, random_below, Rand};
use crate::step::OfferedStep;
use crate::sums::{one_more_adds_to_the_total, total_of};
use crate::text::{all_digits, decimal, digits_write_their_value, is_digit, only_the_tail_is_dropped};
use crate::text::{
    begins_with, chars_of, end_without, find_text, number, parse_usize, range_of, starts_with,
    trim_end_char,
};
use vstd::prelude::*;

verus! {

/// The rooms of a run, one behind the other.
pub const ROOMS: usize = 8;

/// A run gets fewer extra cards than this.
pub const EXTRA_CARDS: usize = 16;

/// A run that takes more steps than this is given up.
pub const MAX_RUN_STEPS: u32 = 10000;

/// After this many failures no more runs are played.
pub const MAX_FAILURES: usize = 15;

/// A card that decks are made of at random: one that the character can come by, and no mere
/// nuisance.
pub open spec fn is_fuzzable(class: CardClass) -> bool {
    &&& class.color == CardColor::Red || class.color == CardColor::Colorless
    &&& class.ty != CardType::Curse
    &&& class.ty != CardType::Status
}

/// Those of the first `n` cards that decks are made of, in order.
pub open spec fn fuzzable(cards: Seq<CardClass>, n: int) -> Seq<CardClass>
    decreases n,
{
    if n <= 0 {
        Seq::empty()
    } else if is_fuzzable(cards[n - 1]) {
        fuzzable(cards, n - 1).push(cards[n - 1])
    } else {
        fuzzable(cards, n - 1)
    }
}

/// Those of all the cards that decks are made of, in order.
pub fn fuzzable_cards(all: &Vec<CardClass>) -> (r: Vec<CardClass>)
    ensures
        r@ == fuzzable(all@, all@.len() as int),
{
    let mut r: Vec<CardClass> = Vec::new();
    let mut i: usize = 0;
    while i < all.len()
        invariant
            i <= all@.len(),
            r@ == fuzzable(all@, i as int),
        decreases all@.len() - i,
    {
        let class: CardClass = all[i];
        if (class.color == CardColor::Red || class.color == CardColor::Colorless) && class.ty
            != CardType::Curse && class.ty != CardType::Status {
            r.push(class);
        }
        i = i + 1;
    }
    r
}

/// Something about a game that must never be.
#[derive(Clone, Copy, PartialEq, Eq, Debug, Structural)]
pub enum Violation {
    NegativeEnergy { energy: i32 },
    PlayerAboveMax { cur_hp: i32, max_hp: i32 },
    MonsterAboveMax { cur_hp: i32, max_hp: i32 },
}

/// The first of the monsters from `from` on that has more health than it can have.
pub open spec fn monster_violation(
    monsters: Seq<Monster>,
    from: int,
) -> Option<Violation>
    decreases monsters.len() - from,
{
    if from < 0 || from >= monsters.len() {
        None
    } else if monsters[from].creature.cur_hp > monsters[from].creature.max_hp {
        Some(
            Violation::MonsterAboveMax {
                cur_hp: monsters[from].creature.cur_hp,
                max_hp: monsters[from].creature.max_hp,
            },
        )
    } else {
        monster_violation(monsters, from + 1)
    }
}

/// What first strikes the eye about the game that must not be.
pub open spec fn violation(game: Game) -> Option<Violation> {
    if game.energy < 0 {
        Some(Violation::NegativeEnergy { energy: game.energy })
    } else if game.player.cur_hp > game.player.max_hp {
        Some(
            Violation::PlayerAboveMax { cur_hp: game.player.cur_hp, max_hp: game.player.max_hp },
        )
    } else {
        monster_violation(game.monsters@, 0)
    }
}

/// Nothing about the game is as it must not be.
pub open spec fn keeps_promises(game: Game) -> bool {
    &&& game.energy >= 0
    &&& game.player.cur_hp <= game.player.max_hp
    &&& forall|i: int|
        0 <= i < game.monsters@.len() ==> (#[trigger] game.monsters@[i]).creature.cur_hp
            <= game.monsters@[i].creature.max_hp
}

/// What first strikes the eye about the game that must not be.
pub fn check_invariants(game: &Game) -> (r: Option<Violation>)
    ensures
        r == violation(*game),
        r is None <==> keeps_promises(*game),
{
    if game.energy < 0 {
        return Some(Violation::NegativeEnergy { energy: game.energy });
    }
    if game.player.cur_hp > game.player.max_hp {
        return Some(
            Violation::PlayerAboveMax { cur_hp: game.player.cur_hp, max_hp: game.player.max_hp },
        );
    }
    let mut i: usize = 0;
    while i < game.monsters.len()
        invariant
            i <= game.monsters@.len(),
            game.energy >= 0,
            game.player.cur_hp <= game.player.max_hp,
            monster_violation(game.monsters@, 0) == monster_violation(game.monsters@, i as int),
            forall|j: int|
                0 <= j < i ==> (#[trigger] game.monsters@[j]).creature.cur_hp
                    <= game.monsters@[j].creature.max_hp,
        decreases game.monsters@.len() - i,
    {
        let c: Creature = game.monsters[i].creature;
        if c.cur_hp > c.max_hp {
            assert(!keeps_promises(*game)) by {
                assert(game.monsters@[i as int].creature.cur_hp
                    > game.monsters@[i as int].creature.max_hp);
            }
            return Some(Violation::MonsterAboveMax { cur_hp: c.cur_hp, max_hp: c.max_hp });
        }
        i = i + 1;
    }
    None
}

/// `pattern` stands in `s` at position `i`, and nowhere before.
pub open spec fn first_stands_at(s: Seq<char>, pattern: Seq<char>, i: int) -> bool {
    &&& 0 <= i <= s.len() - pattern.len()
    &&& s.subrange(i, i + pattern.len()) == pattern
    &&& forall|j: int| 0 <= j < i ==> #[trigger] s.subrange(j, j + pattern.len()) != pattern
}

/// What stands between the brackets of a step of the map, before it is parted.
pub open spec fn bracketed(s: Seq<char>) -> Seq<char> {
    let rest = s.skip("ascend to ("@.len() as int);
    rest.subrange(0, end_without(rest, ')', rest.len() as int))
}

/// The text reads "ascend to (x, y)", and `y` lies behind the last of `nrooms` rooms.
pub open spec fn past_path(s: Seq<char>, nrooms: usize) -> bool {
    &&& begins_with(s, "ascend to ("@)
    &&& exists|i: int|
        {
            &&& #[trigger] first_stands_at(bracketed(s), ", "@, i)
            &&& number(bracketed(s).skip(i + ", "@.len())) matches Some(y) && y >= nrooms
        }
}

/// Whether the text reads "ascend to (x, y)" with a `y` behind the last of `nrooms` rooms.
pub fn ascends_past_path(desc: &str, nrooms: usize) -> (r: bool)
    ensures
        r == past_path(desc@, nrooms),
{
    let text: Vec<char> = chars_of(desc);
    let prefix: Vec<char> = chars_of("ascend to (");
    let comma: Vec<char> = chars_of(", ");
    if !starts_with(&text, &prefix) {
        return false;
    }
    let rest: Vec<char> = range_of(&text, prefix.len(), text.len());
    assert(rest@ =~= desc@.skip("ascend to ("@.len() as int));
    let end: usize = trim_end_char(&rest, ')');
    let inside: Vec<char> = range_of(&rest, 0, end);
    assert(inside@ == bracketed(desc@));
    match find_text(&inside, &comma) {
        None => {
            assert forall|i: int| !#[trigger] first_stands_at(inside@, ", "@, i) by {
                if first_stands_at(inside@, ", "@, i) {
                    assert(inside@.subrange(i, i + comma@.len()) == comma@);
                }
            }
            false
        },
        Some(i) => {
            assert(first_stands_at(inside@, ", "@, i as int));
            assert forall|k: int| #[trigger] first_stands_at(inside@, ", "@, k) implies k == i by {
                if k < i {
                    assert(inside@.subrange(k, k + comma@.len()) != comma@);
                } else if i < k {
                    assert(inside@.subrange(i as int, i + comma@.len()) != comma@);
                }
            }
            let behind: Vec<char> = range_of(&inside, i + comma.len(), inside.len());
            assert(behind@ =~= inside@.skip(i + ", "@.len()));
            match parse_usize(&behind) {
                Some(y) => y >= nrooms,
                None => false,
            }
        },
    }
}

/// The positions of those of the first `n` steps that do not leave the path.
pub open spec fn on_path(steps: Seq<OfferedStep>, nrooms: usize, n: int) -> Seq<usize>
    decreases n,
{
    if n <= 0 {
        Seq::empty()
    } else if past_path(steps[n - 1].description@, nrooms) {
        on_path(steps, nrooms, n - 1)
    } else {
        on_path(steps, nrooms, n - 1).push((n - 1) as usize)
    }
}

/// The steps that may be taken are those that stay on the path.
pub proof fn candidates_stay_on_the_path(steps: Seq<OfferedStep>, nrooms: usize, n: int)
    requires
        0 <= n <= steps.len() <= usize::MAX,
    ensures
        forall|k: int|
            0 <= k < on_path(steps, nrooms, n).len() ==> {
                &&& (#[trigger] on_path(steps, nrooms, n)[k]) < n
                &&& !past_path(steps[on_path(steps, nrooms, n)[k] as int].description@, nrooms)
            },
        forall|i: int|
            0 <= i < n && !past_path((#[trigger] steps[i]).description@, nrooms) ==> on_path(
                steps,
                nrooms,
                n,
            ).contains(i as usize),
    decreases n,
{
    if n > 0 {
        candidates_stay_on_the_path(steps, nrooms, n - 1);
        let shorter = on_path(steps, nrooms, n - 1);
        let longer = on_path(steps, nrooms, n);
        assert forall|i: int|
            0 <= i < n && !past_path((#[trigger] steps[i]).description@, nrooms) implies
            longer.contains(i as usize) by {
            if i < n - 1 {
                let k = choose|k: int| 0 <= k < shorter.len() && shorter[k] == i as usize;
                assert(longer[k] == i as usize);
            } else {
                assert(longer[longer.len() - 1] == i as usize);
            }
        }
    }
}

/// The positions of the steps that do not leave the path.
pub fn candidates(game: &Game) -> (r: Vec<usize>)
    ensures
        r@ == on_path(game.steps@, ROOMS, game.steps@.len() as int),
        forall|k: int| 0 <= k < r@.len() ==> #[trigger] r@[k] < game.steps@.len(),
{
    let n: usize = game.steps.len();
    let mut r: Vec<usize> = Vec::new();
    let mut i: usize = 0;
    while i < n
        invariant
            i <= n,
            n == game.steps@.len(),
            r@ == on_path(game.steps@, ROOMS, i as int),
        decreases n - i,
    {
        if !ascends_past_path(game.steps[i].description.as_str(), ROOMS) {
            r.push(i);
        }
        i = i + 1;
    }
    proof {
        candidates_stay_on_the_path(game.steps@, ROOMS, n as int);
    }
    r
}

/// The cards that `n` draws from `pool` give, from a random source that holds `state`, and what
/// the source holds then.
pub open spec fn cards_drawn(pool: Seq<CardClass>, state: Seq<u64>, n: int) -> (
    Seq<CardClass>,
    Seq<u64>,
)
    decreases n,
{
    if n <= 0 {
        (Seq::empty(), state)
    } else {
        let (cards, then) = cards_drawn(pool, state, n - 1);
        let (i, after) = random_below(then, pool.len() as usize);
        (cards.push(pool[i as int]), after)
    }
}

/// Extra cards for a deck: first their number is drawn, then each of them from `pool`.
pub fn random_deck(rng: &mut Rand, pool: &Vec<CardClass>) -> (deck: Vec<CardClass>)
    requires
        pool@.len() > 0,
    ensures
        deck@.len() < EXTRA_CARDS,
        forall|i: int| 0 <= i < deck@.len() ==> pool@.contains(#[trigger] deck@[i]),
        ({
            let (extra, then) = random_below(old(rng).state(), EXTRA_CARDS);
            &&& deck@.len() == extra
            &&& (deck@, final(rng).state()) == cards_drawn(pool@, then, extra as int)
        }),
        final(rng).seed() == old(rng).seed(),
{
    let ghost seed = rng.seed();
    let extra: usize = rng.below(EXTRA_CARDS);
    let ghost then = rng.state();
    let mut deck: Vec<CardClass> = Vec::new();
    while deck.len() < extra
        invariant
            deck@.len() <= extra,
            pool@.len() > 0,
            rng.seed() == seed,
            forall|i: int| 0 <= i < deck@.len() ==> pool@.contains(#[trigger] deck@[i]),
            (deck@, rng.state()) == cards_drawn(pool@, then, deck@.len() as int),
        decreases extra - deck@.len(),
    {
        let class: CardClass = rand_slice(rng, pool.as_slice());
        assert(pool@.contains(class));
        deck.push(class);
    }
    deck
}

/// The room that a draw from four stands for: one of them is an elite.
pub fn room_of(draw: usize) -> (r: RoomType)
    ensures
        r == (if draw == 0 {
            RoomType::Elite
        } else {
            RoomType::Monster
        }),
{
    if draw == 0 {
        RoomType::Elite
    } else {
        RoomType::Monster
    }
}

/// The rooms that `n` draws give, from a random source that holds `state`, and what the source
/// holds then.
pub open spec fn rooms_drawn(state: Seq<u64>, n: int) -> (Seq<RoomType>, Seq<u64>)
    decreases n,
{
    if n <= 0 {
        (Seq::empty(), state)
    } else {
        let (rooms, then) = rooms_drawn(state, n - 1);
        let (draw, after) = random_below(then, 4);
        (
            rooms.push(
                if draw == 0 {
                    RoomType::Elite
                } else {
                    RoomType::Monster
                },
            ),
            after,
        )
    }
}

/// The rooms of a run, each an elite one time in four.
pub fn random_rooms(rng: &mut Rand) -> (rooms: Vec<RoomType>)
    ensures
        rooms@.len() == ROOMS,
        forall|i: int|
            0 <= i < rooms@.len() ==> #[trigger] rooms@[i] == RoomType::Elite || rooms@[i]
                == RoomType::Monster,
        (rooms@, final(rng).state()) == rooms_drawn(old(rng).state(), ROOMS as int),
        final(rng).seed() == old(rng).seed(),
{
    let ghost seed = rng.seed();
    let ghost state = rng.state();
    let mut rooms: Vec<RoomType> = Vec::new();
    while rooms.len() < ROOMS
        invariant
            rooms@.len() <= ROOMS,
            rng.seed() == seed,
            (rooms@, rng.state()) == rooms_drawn(state, rooms@.len() as int),
            forall|i: int|
                0 <= i < rooms@.len() ==> #[trigger] rooms@[i] == RoomType::Elite || rooms@[i]
                    == RoomType::Monster,
        decreases ROOMS - rooms@.len(),
    {
        let draw: usize = rng.below(4);
        rooms.push(room_of(draw));
    }
    rooms
}

/// What a run does next.
#[derive(Clone, Copy, PartialEq, Eq, Debug, Structural)]
pub enum FuzzNext {
    /// The run is over.
    Over,
    /// The engine broke a promise.
    Broken(Violation),
    /// Take one of the steps that stay on the path.
    Choose,
}

/// What a run does next, by the board.
pub open spec fn fuzz_next(game: Game) -> FuzzNext {
    if game.status != GameStatus::Combat || on_path(
        game.steps@,
        ROOMS,
        game.steps@.len() as int,
    ).len() == 0 {
        FuzzNext::Over
    } else {
        match violation(game) {
            Some(v) => FuzzNext::Broken(v),
            None => FuzzNext::Choose,
        }
    }
}

/// A run of random play.
#[derive(Clone, Copy, PartialEq, Eq, Debug, Structural)]
pub struct FuzzRun {
    pub steps_taken: u32,
}

impl FuzzRun {
    /// Begins a run.
    pub fn begin() -> (r: FuzzRun)
        ensures
            r.steps_taken == 0,
    {
        FuzzRun { steps_taken: 0 }
    }

    /// What the run does next.
    pub fn next(&self, game: &Game) -> (r: FuzzNext)
        ensures
            r == fuzz_next(*game),
    {
        if game.status != GameStatus::Combat {
            return FuzzNext::Over;
        }
        let open: Vec<usize> = candidates(game);
        if open.len() == 0 {
            return FuzzNext::Over;
        }
        match check_invariants(game) {
            Some(v) => FuzzNext::Broken(v),
            None => FuzzNext::Choose,
        }
    }

    /// Takes any of the steps that stay on the path, and counts it. The run is given up where it
    /// has taken too many by then, which the second part of the result says.
    pub fn take(&mut self, game: &Game, rng: &mut Rand) -> (r: (usize, bool))
        requires
            fuzz_next(*game) == FuzzNext::Choose,
            old(self).steps_taken <= MAX_RUN_STEPS,
        ensures
            ({
                let open = on_path(game.steps@, ROOMS, game.steps@.len() as int);
                let (k, after) = random_below(old(rng).state(), open.len() as usize);
                &&& k < open.len()
                &&& r.0 == open[k as int]
                &&& final(rng).state() == after
            }),
            r.0 < game.steps@.len(),
            !past_path(game.steps@[r.0 as int].description@, ROOMS),
            final(self).steps_taken == old(self).steps_taken + 1,
            r.1 == (final(self).steps_taken > MAX_RUN_STEPS),
            final(rng).seed() == old(rng).seed(),
    {
        let open: Vec<usize> = candidates(game);
        let k: usize = rng.below(open.len());
        proof {
            assert(game.steps@.len() == game.steps.len());
            candidates_stay_on_the_path(game.steps@, ROOMS, game.steps@.len() as int);
            assert(open@.contains(open@[k as int]));
        }
        self.steps_taken = self.steps_taken + 1;
        (open[k], self.steps_taken > MAX_RUN_STEPS)
    }
}

/// How a run went.
#[derive(Clone, Copy, PartialEq, Eq, Debug, Structural)]
pub enum FuzzResult {
    Finished,
    Stalled,
    Failed,
}

/// The tally of the runs.
#[derive(Clone, Copy, PartialEq, Eq, Debug, Structural)]
pub struct FuzzTally {
    pub runs: usize,
    pub stalls: usize,
    pub failures: usize,
}

impl FuzzTally {
    /// The tally of no run at all.
    pub fn new() -> (r: FuzzTally)
        ensures
            r == (FuzzTally { runs: 0, stalls: 0, failures: 0 }),
            r.wf(),
    {
        FuzzTally { runs: 0, stalls: 0, failures: 0 }
    }

    /// The counts agree with one another.
    pub open spec fn wf(&self) -> bool {
        self.stalls + self.failures <= self.runs
    }

    /// The tally with one more run.
    pub open spec fn with(&self, result: FuzzResult) -> FuzzTally {
        FuzzTally {
            runs: (self.runs + 1) as usize,
            stalls: if result == FuzzResult::Stalled {
                (self.stalls + 1) as usize
            } else {
                self.stalls
            },
            failures: if result == FuzzResult::Failed {
                (self.failures + 1) as usize
            } else {
                self.failures
            },
        }
    }

    /// Counts a run, and says whether to go on.
    pub fn record(&mut self, result: FuzzResult) -> (go_on: bool)
        requires
            old(self).wf(),
            old(self).runs < usize::MAX,
        ensures
            final(self).wf(),
            *final(self) == old(self).with(result),
            final(self).runs == old(self).runs + 1,
            final(self).stalls == old(self).stalls + (if result == FuzzResult::Stalled {
                1int
            } else {
                0
            }),
            final(self).failures == old(self).failures + (if result == FuzzResult::Failed {
                1int
            } else {
                0
            }),
            go_on == !(result == FuzzResult::Failed && final(self).failures >= MAX_FAILURES),
    {
        self.runs = self.runs + 1;
        match result {
            FuzzResult::Finished => true,
            FuzzResult::Stalled => {
                self.stalls = self.stalls + 1;
                true
            },
            FuzzResult::Failed => {
                self.failures = self.failures + 1;
                self.failures < MAX_FAILURES
            },
        }
    }
}

/// A step of the map, written with its place in decimal digits, leaves the path just if its floor
/// lies behind the last room.
pub proof fn the_floor_tells_the_path(a: Seq<char>, b: Seq<char>, nrooms: usize)
    requires
        all_digits(a),
        b.len() > 0,
        all_digits(b),
        decimal(b) <= usize::MAX,
    ensures
        past_path("ascend to ("@ + a + seq![',', ' '] + b + seq![')'], nrooms) <==> decimal(b)
            >= nrooms,
{
    reveal_strlit(", ");
    let head = "ascend to ("@;
    let comma = ", "@;
    let s = head + a + seq![',', ' '] + b + seq![')'];
    let al = a.len() as int;
    let dl = b.len() as int;
    assert(comma =~= seq![',', ' ']);
    assert(s.subrange(0, head.len() as int) =~= head);
    let rest = s.skip(head.len() as int);
    assert(rest =~= a + seq![',', ' '] + b + seq![')']);
    only_the_tail_is_dropped(rest, ')', rest.len() as int);
    assert(rest[rest.len() - 2] == b[dl - 1]);
    assert(is_digit(b[dl - 1]));
    assert(rest[rest.len() - 1] == ')');
    let inside = bracketed(s);
    assert(inside =~= a + seq![',', ' '] + b);
    assert(inside.subrange(al, al + 2) =~= comma);
    assert forall|j: int| 0 <= j < al implies #[trigger] inside.subrange(j, j + comma.len())
        != comma by {
        assert(inside.subrange(j, j + comma.len())[0] == a[j]);
        assert(is_digit(a[j]));
        assert(comma[0] == ',');
    }
    assert(first_stands_at(inside, comma, al));
    assert forall|k: int| #[trigger] first_stands_at(inside, comma, k) implies k == al by {
        if k < al {
            assert(inside.subrange(k, k + comma.len()) != comma);
        } else if al < k {
            assert(inside.subrange(al, al + comma.len()) != comma);
        }
    }
    assert(inside.skip(al + comma.len()) =~= b);
    digits_write_their_value(b);
    lemma_past_path(s, nrooms, al, decimal(b) as usize);
}

proof fn lemma_past_path(s: Seq<char>, nrooms: usize, at: int, floor: usize)
    requires
        begins_with(s, "ascend to ("@),
        first_stands_at(bracketed(s), ", "@, at),
        forall|k: int| #[trigger] first_stands_at(bracketed(s), ", "@, k) ==> k == at,
        number(bracketed(s).skip(at + ", "@.len())) == Some(floor),
    ensures
        past_path(s, nrooms) <==> floor >= nrooms,
{
}

/// The pool holds a card just if it is among all of them, red or colourless, and neither a curse
/// nor a status card; and it holds it as often.
pub proof fn the_pool_holds_what_can_be_drawn(all: Vec<CardClass>, r: Vec<CardClass>, class: CardClass)
    requires
        call_ensures(fuzzable_cards, (&all,), r),
    ensures
        ({
            let wanted = (class.color == CardColor::Red || class.color == CardColor::Colorless)
                && class.ty != CardType::Curse && class.ty != CardType::Status;
            &&& wanted ==> r@.to_multiset().count(class) == all@.to_multiset().count(class)
            &&& !wanted ==> r@.to_multiset().count(class) == 0
        }),
{
    lemma_pool_counts(all@, all@.len() as int, class);
    assert(all@.take(all@.len() as int) =~= all@);
}

proof fn lemma_pool_counts(all: Seq<CardClass>, n: int, class: CardClass)
    requires
        0 <= n <= all.len(),
    ensures
        fuzzable(all, n).to_multiset().count(class) == (if (class.color == CardColor::Red
            || class.color == CardColor::Colorless) && class.ty != CardType::Curse && class.ty
            != CardType::Status {
            all.take(n).to_multiset().count(class)
        } else {
            0
        }),
    decreases n,
{
    broadcast use vstd::seq_lib::group_to_multiset_ensures;

    if n > 0 {
        lemma_pool_counts(all, n - 1, class);
        assert(all.take(n) =~= all.take(n - 1).push(all[n - 1]));
    } else {
        assert(all.take(0) =~= Seq::<CardClass>::empty());
        assert(fuzzable(all, 0) =~= Seq::<CardClass>::empty());
    }
}

/// The steps that may be taken stand in the order in which they are on offer.
pub proof fn candidates_stand_in_order(steps: Seq<OfferedStep>, nrooms: usize, n: int)
    requires
        0 <= n <= steps.len() <= usize::MAX,
    ensures
        forall|k: int, l: int|
            0 <= k < l < on_path(steps, nrooms, n).len() ==> #[trigger] on_path(
                steps,
                nrooms,
                n,
            )[k] < #[trigger] on_path(steps, nrooms, n)[l],
    decreases n,
{
    if n > 0 {
        candidates_stand_in_order(steps, nrooms, n - 1);
        candidates_stay_on_the_path(steps, nrooms, n - 1);
        let before = on_path(steps, nrooms, n - 1);
        let now = on_path(steps, nrooms, n);
        assert forall|k: int, l: int| 0 <= k < l < now.len() implies #[trigger] now[k]
            < #[trigger] now[l] by {
            assert(now[k] == before[k]);
            if l < before.len() {
                assert(now[l] == before[l]);
            }
        }
    }
}

/// The tally of the runs, counted one after the other.
pub open spec fn fuzz_tally(results: Seq<FuzzResult>) -> FuzzTally
    decreases results.len(),
{
    if results.len() == 0 {
        FuzzTally { runs: 0, stalls: 0, failures: 0 }
    } else {
        fuzz_tally(results.drop_last()).with(results.last())
    }
}

/// One for a run that came to `wanted`.
pub open spec fn came_to(wanted: FuzzResult) -> spec_fn(FuzzResult) -> int {
    |r: FuzzResult|
        if r == wanted {
            1int
        } else {
            0
        }
}

/// Every run counts, and each stall and failure among them.
pub proof fn every_run_counts(results: Seq<FuzzResult>)
    requires
        results.len() <= usize::MAX,
    ensures
        fuzz_tally(results).runs == results.len(),
        fuzz_tally(results).stalls == total_of(results, came_to(FuzzResult::Stalled)),
        fuzz_tally(results).failures == total_of(results, came_to(FuzzResult::Failed)),
        fuzz_tally(results).wf(),
    decreases results.len(),
{
    if results.len() == 0 {
        assert(results =~= Seq::empty());
        one_more_adds_to_the_total(results, came_to(FuzzResult::Stalled), FuzzResult::Finished);
        one_more_adds_to_the_total(results, came_to(FuzzResult::Failed), FuzzResult::Finished);
    } else {
        let fewer = results.drop_last();
        every_run_counts(fewer);
        one_more_adds_to_the_total(fewer, came_to(FuzzResult::Stalled), results.last());
        one_more_adds_to_the_total(fewer, came_to(FuzzResult::Failed), results.last());
        assert(fewer.push(results.last()) =~= results);
    }
}

/// What is reported broken is broken: the energy is below nothing, or the player's health above
/// what it can be, or that of some monster; and nothing that comes before it in this order is.
pub proof fn what_is_reported_is_broken(game: Game, r: Option<Violation>)
    requires
        call_ensures(check_invariants, (&game,), r),
    ensures
        ({
            let weak = game.energy < 0;
            let over = game.player.cur_hp > game.player.max_hp;
            let fat = exists|i: int|
                0 <= i < game.monsters@.len() && (#[trigger] game.monsters@[i]).creature.cur_hp
                    > game.monsters@[i].creature.max_hp;
            &&& (r matches Some(Violation::NegativeEnergy { .. })) <==> weak
            &&& (r matches Some(Violation::PlayerAboveMax { .. })) <==> !weak && over
            &&& (r matches Some(Violation::MonsterAboveMax { .. })) <==> !weak && !over && fat
            &&& r is None <==> !weak && !over && !fat
            &&& r matches Some(Violation::NegativeEnergy { energy }) ==> energy == game.energy
            &&& r matches Some(Violation::PlayerAboveMax { cur_hp, max_hp }) ==> cur_hp
                == game.player.cur_hp && max_hp == game.player.max_hp
        }),
{
    lemma_monster_violation(game.monsters@, 0);
}

proof fn lemma_monster_violation(monsters: Seq<Monster>, from: int)
    requires
        0 <= from,
    ensures
        monster_violation(monsters, from) is Some <==> exists|i: int|
            from <= i < monsters.len() && (#[trigger] monsters[i]).creature.cur_hp
                > monsters[i].creature.max_hp,
        monster_violation(monsters, from) is Some ==> monster_violation(
            monsters,
            from,
        )->0 is MonsterAboveMax,
    decreases monsters.len() - from,
{
    if from < monsters.len() {
        lemma_monster_violation(monsters, from + 1);
        if monsters[from].creature.cur_hp <= monsters[from].creature.max_hp && exists|i: int|
            from <= i < monsters.len() && (#[trigger] monsters[i]).creature.cur_hp
                > monsters[i].creature.max_hp {
            let i = choose|i: int|
                from <= i < monsters.len() && (#[trigger] monsters[i]).creature.cur_hp
                    > monsters[i].creature.max_hp;
            assert(i >= from + 1);
        }
    }
}

/// A run goes on just while the game does and a step that stays on the path is on offer; and a
/// broken promise is reported only then.
pub proof fn a_run_is_told_from_its_board(run: FuzzRun, game: Game, r: FuzzNext)
    requires
        call_ensures(FuzzRun::next, (&run, &game), r),
    ensures
        ({
            let open = exists|i: int|
                0 <= i < game.steps@.len() && !past_path(
                    (#[trigger] game.steps@[i]).description@,
                    ROOMS,
                );
            let on = game.status == GameStatus::Combat && open;
            &&& r == FuzzNext::Over <==> !on
            &&& r == FuzzNext::Choose <==> on && keeps_promises(game)
            &&& r is Broken <==> on && !keeps_promises(game)
        }),
{
    let steps = game.steps@;
    let n = steps.len() as int;
    assert(game.steps@.len() == game.steps.len());
    candidates_stay_on_the_path(steps, ROOMS, n);
    let open = on_path(steps, ROOMS, n);
    if open.len() > 0 {
        assert(open[0] < n && !past_path(steps[open[0] as int].description@, ROOMS));
    }
    if exists|i: int| 0 <= i < n && !past_path((#[trigger] steps[i]).description@, ROOMS) {
        let i = choose|i: int| 0 <= i < n && !past_path((#[trigger] steps[i]).description@, ROOMS);
        assert(open.contains(i as usize));
    }
    lemma_monster_violation(game.monsters@, 0);
}

} // verus!
