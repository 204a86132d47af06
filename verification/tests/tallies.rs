use spire::cards::{CardClass, CardColor, CardCost, CardName, CardType};
use spire::climb::RunResult;
use spire::fuzz::{
    candidates, check_invariants, fuzzable_cards, random_deck, random_rooms, room_of, FuzzNext,
    FuzzResult, FuzzRun, FuzzTally, Violation, EXTRA_CARDS, MAX_FAILURES, MAX_RUN_STEPS, ROOMS,
};
use spire::game::{Creature, Game, GameStatus, Intent, Monster};
use spire::map::RoomType;
use spire::playout::Outcome;
use spire::rng::Rand;
use spire::scenarios::scenarios;
use spire::score::Fixed;
use spire::stats::{RunStats, Stats, FITNESS_UNIT};
use spire::step::{OfferedStep, StepKind};
use spire::tune::{improves, rank};

fn cleared(hp: i32, floor: i32) -> RunResult {
    RunResult::Cleared { hp, floor }
}

fn died(floor: i32) -> RunResult {
    RunResult::Died { floor }
}

#[test]
fn fights_are_counted() {
    let mut s = Stats::default();
    s.record(Outcome::Win { hp_lost: 12, turns: 5 });
    s.record(Outcome::Win { hp_lost: -4, turns: 3 });
    s.record(Outcome::Loss);
    s.record(Outcome::Stall);
    assert_eq!(s, Stats { wins: 2, trials: 4, hp_lost_on_win: 12, turns_on_win: 8, stalls: 1 });
}

#[test]
fn climbs_are_counted() {
    let mut s = RunStats::default();
    s.add(cleared(40, 17));
    s.add(died(9));
    s.add(RunResult::Stalled);
    s.record_error();
    assert_eq!((s.cleared, s.deaths, s.stalls, s.errors, s.trials), (1, 1, 1, 1, 4));
    assert_eq!((s.hp_sum, s.floor_sum, s.death_floor_sum), (40, 17, 9));
    let (n, d) = s.fitness();
    let fitness = n as f64 / d as f64;
    let by_hand = ((3.0 + 0.5 * (40.0 / 80.0)) + 0.2 * (9.0 / 17.0)) / 4.0;
    assert!((fitness - by_hand).abs() < 1e-12, "{fitness} {by_hand}");
}

#[test]
fn no_climb_has_no_fitness() {
    assert_eq!(RunStats::default().fitness(), (0, FITNESS_UNIT));
}

#[test]
fn merging_is_counting_together() {
    let results = [cleared(10, 17), died(3), RunResult::Stalled, cleared(61, 17), died(16)];
    let mut all = RunStats::default();
    let mut odd = RunStats::default();
    let mut even = RunStats::default();
    for (i, r) in results.iter().enumerate() {
        all.add(*r);
        if i % 2 == 0 {
            even.add(*r);
        } else {
            odd.add(*r);
        }
    }
    let mut there = even;
    there.merge(&odd);
    let mut back = odd;
    back.merge(&even);
    assert_eq!(there, all);
    assert_eq!(back, all);
}

#[test]
fn a_clear_outweighs_deep_deaths() {
    let mut clear = RunStats::default();
    clear.add(cleared(1, 17));
    let mut death = RunStats::default();
    death.add(died(17));
    assert!(clear.fitness_sum > 10 * death.fitness_sum);
}

fn class(name: CardName, ty: CardType, color: CardColor) -> CardClass {
    CardClass { name, ty, color, base_cost: CardCost::Zero }
}

#[test]
fn decks_are_made_of_cards_one_can_come_by() {
    let red = class(CardName::Anger, CardType::Attack, CardColor::Red);
    let colourless = class(CardName::Finesse, CardType::Skill, CardColor::Colorless);
    let all = vec![
        class(CardName::Other(1), CardType::Curse, CardColor::Colorless),
        red,
        class(CardName::Other(2), CardType::Attack, CardColor::Other),
        class(CardName::Other(3), CardType::Status, CardColor::Red),
        colourless,
    ];
    let pool = fuzzable_cards(&all);
    assert_eq!(pool, vec![red, colourless]);
    let mut rng = Rand::seed_from_u64(8);
    let mut sizes = vec![];
    for _ in 0..300 {
        let deck = random_deck(&mut rng, &pool);
        assert!(deck.iter().all(|c| pool.contains(c)));
        sizes.push(deck.len());
    }
    assert_eq!(sizes.iter().max(), Some(&(EXTRA_CARDS - 1)));
    assert_eq!(sizes.iter().min(), Some(&0));
}

#[test]
fn a_deck_follows_from_the_source_it_is_drawn_with() {
    let pool: Vec<CardClass> = (0..40)
        .map(|n| class(CardName::Other(n), CardType::Attack, CardColor::Red))
        .collect();
    let mut a = Rand::seed_from_u64(21);
    let mut b = a.clone();
    let mut by_hand = a.clone();
    for _ in 0..20 {
        let deck = random_deck(&mut a, &pool);
        assert_eq!(random_deck(&mut b, &pool), deck);
        let extra = by_hand.below(EXTRA_CARDS);
        let drawn: Vec<CardClass> = (0..extra).map(|_| pool[by_hand.below(40)]).collect();
        assert_eq!(drawn, deck);
    }
}

#[test]
fn rooms_hold_monsters_and_some_elites() {
    let mut rng = Rand::seed_from_u64(8);
    let mut elites = 0;
    for _ in 0..500 {
        let rooms = random_rooms(&mut rng);
        assert_eq!(rooms.len(), ROOMS);
        elites += rooms.iter().filter(|r| **r == RoomType::Elite).count();
    }
    assert!((800..1200).contains(&elites), "{elites}");
    assert_eq!(room_of(0), RoomType::Elite);
    assert_eq!(room_of(3), RoomType::Monster);
}

fn ascend(y: usize) -> OfferedStep {
    OfferedStep {
        kind: StepKind::Other,
        debug: format!("AscendStep {{ x: 3, y: {y} }}"),
        description: format!("ascend to (3, {y})"),
    }
}

fn sound_game() -> Game {
    let mut game = Game::new(Creature::healthy(70), Rand::seed_from_u64(1));
    game.monsters =
        vec![Monster { creature: Creature::healthy(20), intent: Intent::Other, hit: 0 }; 2];
    game.steps = vec![ascend(7), ascend(8), ascend(2)];
    game
}

#[test]
fn broken_promises_are_found_one_at_a_time() {
    let mut game = sound_game();
    assert_eq!(check_invariants(&game), None);
    game.monsters[1].creature.cur_hp = 21;
    assert_eq!(
        check_invariants(&game),
        Some(Violation::MonsterAboveMax { cur_hp: 21, max_hp: 20 })
    );
    game.player.cur_hp = 71;
    assert_eq!(
        check_invariants(&game),
        Some(Violation::PlayerAboveMax { cur_hp: 71, max_hp: 70 })
    );
    game.energy = -1;
    assert_eq!(check_invariants(&game), Some(Violation::NegativeEnergy { energy: -1 }));
}

#[test]
fn random_play_stays_on_the_path() {
    let mut game = sound_game();
    assert_eq!(candidates(&game), vec![0, 2]);
    let mut rng = Rand::seed_from_u64(5);
    let mut run = FuzzRun::begin();
    for _ in 0..50 {
        assert_eq!(run.next(&game), FuzzNext::Choose);
        let (i, given_up) = run.take(&game, &mut rng);
        assert!(i == 0 || i == 2);
        assert!(!given_up);
    }
    game.energy = -2;
    assert_eq!(run.next(&game), FuzzNext::Broken(Violation::NegativeEnergy { energy: -2 }));
    game.steps = vec![ascend(8)];
    assert_eq!(run.next(&game), FuzzNext::Over);
    game.steps = vec![ascend(1)];
    game.status = GameStatus::Victory;
    assert_eq!(run.next(&game), FuzzNext::Over);
}

#[test]
fn random_play_is_given_up_in_the_end() {
    let game = sound_game();
    let mut rng = Rand::seed_from_u64(5);
    let mut run = FuzzRun::begin();
    for _ in 0..MAX_RUN_STEPS {
        assert!(!run.take(&game, &mut rng).1);
    }
    assert!(run.take(&game, &mut rng).1);
}

#[test]
fn failures_stop_the_fuzzing() {
    let mut tally = FuzzTally::new();
    assert!(tally.record(FuzzResult::Finished));
    assert!(tally.record(FuzzResult::Stalled));
    for _ in 1..MAX_FAILURES {
        assert!(tally.record(FuzzResult::Failed));
    }
    assert!(!tally.record(FuzzResult::Failed));
    assert_eq!(tally, FuzzTally { runs: 17, stalls: 1, failures: 15 });
}

#[test]
fn the_fittest_rank_first_and_equals_in_turn() {
    let fits = vec![Fixed::Of(30), Fixed::Of(50), Fixed::Of(30), Fixed::Of(-2), Fixed::Of(50)];
    assert_eq!(rank(&fits), vec![1, 4, 0, 2, 3]);
    assert_eq!(rank::<Fixed>(&vec![]), Vec::<usize>::new());
    assert!(improves(Fixed::Of(49), fits[1]));
    assert!(!improves(Fixed::Of(50), fits[1]));
}

#[test]
fn the_measured_fights_are_named_after_their_monsters() {
    let all = scenarios();
    let names: Vec<&str> = all.iter().map(|s| s.name.as_str()).collect();
    assert_eq!(names, vec!["JawWorm", "Cultist", "FungiBeast", "GremlinNob", "Lagavulin"]);
    for s in &all {
        assert_eq!(
            s.extra_cards,
            vec![
                CardName::Strike,
                CardName::Strike,
                CardName::TwinStrike,
                CardName::PommelStrike,
                CardName::Anger,
                CardName::ShrugItOff,
                CardName::Inflame,
            ]
        );
    }
}

#[test]
fn rooms_and_steps_follow_from_the_source() {
    let mut rng = Rand::seed_from_u64(40);
    let mut by_hand = rng.clone();
    let rooms = random_rooms(&mut rng);
    let drawn: Vec<RoomType> = (0..ROOMS).map(|_| room_of(by_hand.below(4))).collect();
    assert_eq!(rooms, drawn);
    let game = sound_game();
    let mut run = FuzzRun::begin();
    for _ in 0..30 {
        let (i, _) = run.take(&game, &mut rng);
        assert_eq!(i, candidates(&game)[by_hand.below(2)]);
    }
}

#[test]
fn whoever_plays_a_climb_it_is_counted_once() {
    let climbs = [
        Some(cleared(10, 17)),
        None,
        Some(died(3)),
        Some(RunResult::Stalled),
        None,
        Some(cleared(61, 17)),
        Some(died(16)),
    ];
    let count = |s: &mut RunStats, climb: &Option<RunResult>| match climb {
        Some(r) => s.add(*r),
        None => s.record_error(),
    };
    let mut all = RunStats::default();
    for climb in &climbs {
        count(&mut all, climb);
    }
    let mut rng = Rand::seed_from_u64(6);
    for workers in 1..5 {
        let mut parts = vec![RunStats::default(); workers];
        for climb in &climbs {
            count(&mut parts[rng.below(workers)], climb);
        }
        let mut total = RunStats::default();
        for part in &parts {
            total.merge(part);
        }
        assert_eq!(total, all);
        assert_eq!(total.trials, 7);
        assert_eq!(total.errors, 2);
    }
}
