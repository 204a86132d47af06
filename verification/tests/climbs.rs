use spire::agent::CombatAgent;
use spire::cards::{card_value, CardClass, CardColor, CardCost, CardName, CardType, DeckCard};
use spire::climb::{claim, workers, Fighter, FullRun, Job, RunResult, MAX_CLIMB_STEPS};
use spire::full_run::{
    blessing, campfire, generic, is_choosable, master_pick, rewards, shop, FullRunAgent,
};
use spire::game::{Creature, Game, GameStatus, Potion, RelicClass};
use spire::greedy::GreedyAgent;
use spire::map::{Map2d, MapNode, RoomType};
use spire::rng::Rand;
use spire::route::{ascend_room, ascend_xy, hp_frac, map_nav};
use spire::score::{Fixed, UNIT};
use spire::step::{OfferedStep, StepKind};
use spire::trace::{map_options, Sighting, Trace, MAX_TRACE_STEPS};
use spire::weights::{Weights, WEIGHT_BASE, WEIGHT_HIGH, WEIGHT_LOW};

fn class(name: CardName, ty: CardType) -> CardClass {
    CardClass { name, ty, color: CardColor::Red, base_cost: CardCost::Cost { base_cost: 1 } }
}

fn step(debug: &str, description: &str) -> OfferedStep {
    OfferedStep {
        kind: StepKind::Other,
        debug: debug.to_owned(),
        description: description.to_owned(),
    }
}

fn game_with(steps: Vec<OfferedStep>) -> Game {
    let mut game = Game::new(Creature::healthy(80), Rand::seed_from_u64(1));
    game.steps = steps;
    game
}

fn in_deck(class: CardClass) -> DeckCard {
    DeckCard { class, can_remove: true, can_upgrade: true }
}

/// A score of so many thousandths.
fn milli(n: i128) -> Fixed {
    Fixed::Of(n * UNIT / 1000)
}

fn agent() -> FullRunAgent<GreedyAgent, Fixed> {
    FullRunAgent::new(GreedyAgent)
}

fn weights() -> Weights<Fixed> {
    Weights::default()
}

fn acts(game: &Game) -> usize {
    assert!(is_choosable(game));
    agent().act(game)
}

fn node(ty: Option<RoomType>, edges: Vec<usize>) -> MapNode {
    MapNode { ty, edges }
}

/// Two ways: a treasure that leads to an elite, and a monster that leads to a shop.
fn fork_in_the_road() -> Game {
    let mut game = game_with(vec![
        step("AscendStep { x: 0, y: 0 }", "ascend to (0, 0)"),
        step("AscendStep { x: 1, y: 0 }", "ascend to (1, 0)"),
    ]);
    game.map = Map2d {
        height: 2,
        nodes: vec![
            vec![
                node(Some(RoomType::Treasure), vec![0]),
                node(Some(RoomType::Elite), vec![]),
            ],
            vec![
                node(Some(RoomType::Monster), vec![1]),
                node(Some(RoomType::Shop), vec![]),
            ],
        ],
    };
    game
}

#[test]
fn the_whole_way_is_weighed() {
    let mut game = fork_in_the_road();
    assert_eq!(acts(&game), 1);
    for _ in 0..9 {
        game.master_deck.push(in_deck(class(CardName::DemonForm, CardType::Power)));
    }
    assert_eq!(acts(&game), 0);
    game.player.cur_hp = 40;
    assert_eq!(acts(&game), 1);
}

#[test]
fn a_fraction_just_above_the_bar_is_above_it() {
    let mut game = fork_in_the_road();
    for _ in 0..9 {
        game.master_deck.push(in_deck(class(CardName::DemonForm, CardType::Power)));
    }
    game.player.max_hp = 318;
    game.player.cur_hp = 293;
    assert_eq!(acts(&game), 0);
    game.player.max_hp = 1000;
    game.player.cur_hp = 921;
    assert_eq!(acts(&game), 1);
    game.player.max_hp = 2_000_000_000;
    game.player.cur_hp = 1_842_000_000;
    assert_eq!(acts(&game), 1);
    game.player.cur_hp = 1_842_000_001;
    assert_eq!(acts(&game), 0);
}

#[test]
fn a_campfire_is_worth_more_to_the_wounded() {
    let mut game = fork_in_the_road();
    game.map.nodes[0] = vec![
        node(Some(RoomType::Campfire), vec![]),
        node(None, vec![]),
    ];
    game.map.nodes[1] = vec![
        node(Some(RoomType::Event), vec![1]),
        node(Some(RoomType::Event), vec![]),
    ];
    assert_eq!(map_nav(&game, &weights()), 1);
    game.player.cur_hp = 47;
    assert_eq!(map_nav(&game, &weights()), 0);
    game.player.cur_hp = 48;
    assert_eq!(map_nav(&game, &weights()), 1);
}

#[test]
fn a_place_is_read_off_its_description() {
    assert_eq!(ascend_xy(&step("AscendStep", "ascend to (3, 14)")), Some((3, 14)));
    assert_eq!(ascend_xy(&step("AscendStep", "ascend to (3,14))")), Some((3, 14)));
    assert_eq!(ascend_xy(&step("AscendStep", "ascend to ( 3 , 14 , 9)")), Some((3, 14)));
    assert_eq!(ascend_xy(&step("AscendStep", "ascend to 3, 14")), None);
    assert_eq!(ascend_xy(&step("AscendStep", "ascend to (3 14)")), None);
    assert_eq!(ascend_xy(&step("AscendStep", "ascend to (x, 14)")), None);
    let game = fork_in_the_road();
    assert_eq!(ascend_room(&game, &game.steps[1]), Some(RoomType::Monster));
    assert_eq!(ascend_room(&game, &step("AscendStep", "ascend to (1, 5)")), None);
    assert_eq!(ascend_room(&game, &step("AscendStep", "ascend to (5, 1)")), None);
}

#[test]
fn a_map_that_leads_off_itself_cannot_be_used() {
    let mut game = fork_in_the_road();
    assert!(is_choosable(&game));
    game.map.nodes[0][0].edges.push(2);
    assert!(!is_choosable(&game));
    game.map.nodes[0][0].edges.pop();
    game.steps.push(step("AscendStep { x: 2, y: 0 }", "ascend to (2, 0)"));
    assert!(!is_choosable(&game));
    game.steps.pop();
    game.map.nodes[1].pop();
    assert!(!is_choosable(&game));
}

#[test]
fn health_is_a_fraction() {
    let mut game = game_with(vec![]);
    game.player.cur_hp = 50;
    assert_eq!(hp_frac::<Fixed>(&game), milli(625));
    game.player.max_hp = 0;
    assert_eq!(hp_frac::<Fixed>(&game), milli(50000));
}

#[test]
fn the_deck_is_thinned_by_blessing_before_all() {
    let steps = vec![
        step("ChooseBlessingStep(CommonRelic)", "CommonRelic"),
        step("ChooseBlessingStep(RemoveCard)", "RemoveCard"),
    ];
    assert_eq!(blessing(&steps), 1);
    let lasting = vec![
        step("ChooseBlessingStep(TransformCard)", "TransformCard"),
        step("ChooseBlessingStep(CommonRelic)", "CommonRelic"),
    ];
    assert_eq!(acts(&game_with(lasting)), 1);
    let described = [
        ("RemoveRelic", -100),
        ("HundredGold", 0),
        ("RandomPotion", 30),
        ("RandomUncommonColorless", 45),
        ("TransformOne", 50),
        ("GainMaxHPSmall", 60),
        ("CommonRelic", 80),
        ("RemoveOne", 100),
    ];
    for (d, score) in described {
        assert_eq!(spire::full_run::blessing_score(d), score);
    }
}

#[test]
fn rewards_are_taken_in_order() {
    let mut game = game_with(vec![
        step("RewardExitStep", "exit"),
        step("CardRewardStep { pack: 0, card: 0 }", ""),
        step("PotionRewardStep", ""),
        step("RelicRewardStep", ""),
        step("StolenGoldRewardStep", ""),
        step("GoldRewardStep", ""),
    ]);
    game.potions = vec![Some(Potion(1)), None];
    game.rewards.cards = vec![vec![class(CardName::Inflame, CardType::Power)]];
    for expected in [5, 4, 3, 2, 1, 0] {
        assert_eq!(acts(&game), expected);
        game.steps.pop();
    }
    game.steps = vec![step("PotionRewardStep", ""), step("RewardExitStep", "exit")];
    assert_eq!(acts(&game), 0);
    game.potions = vec![Some(Potion(1))];
    assert_eq!(acts(&game), 1);
}

#[test]
fn the_best_card_of_all_packs_is_taken_if_it_is_worth_it() {
    let mut game = game_with(vec![
        step("CardRewardStep { pack: 0, card: 0 }", ""),
        step("CardRewardStep { pack: 0, card: 1 }", ""),
        step("CardRewardStep { pack: 1, card: 0 }", ""),
        step("RewardExitStep", "exit"),
    ]);
    game.rewards.cards = vec![
        vec![class(CardName::Anger, CardType::Attack), class(CardName::Cleave, CardType::Attack)],
        vec![class(CardName::DemonForm, CardType::Power)],
    ];
    assert_eq!(acts(&game), 2);
    game.rewards.cards = vec![
        vec![class(CardName::Strike, CardType::Attack), class(CardName::Defend, CardType::Skill)],
        vec![class(CardName::Other(1), CardType::Curse)],
    ];
    assert_eq!(rewards(&game, &weights()), 3);
    game.steps.pop();
    game.steps.push(step("SingingBowlStep", ""));
    assert_eq!(rewards(&game, &weights()), 0);
}

#[test]
fn a_campfire_digs_first_then_rests_the_wounded() {
    let mut game = game_with(vec![
        step("CampfireUpgradeStep", ""),
        step("CampfireRestStep", ""),
    ]);
    assert_eq!(acts(&game), 0);
    game.player.cur_hp = 70;
    assert_eq!(campfire(&game, &weights()), 1);
    game.player.cur_hp = 71;
    assert_eq!(campfire(&game, &weights()), 0);
    game.steps.push(step("CampfireDigStep", ""));
    assert_eq!(campfire(&game, &weights()), 2);
    game.steps = vec![step("CampfireLiftStep", ""), step("CampfireRestStep", "")];
    assert_eq!(acts(&game), 1);
    game.steps = vec![step("CampfireTokeStep", "")];
    assert_eq!(acts(&game), 0);
}

#[test]
fn a_shop_removes_then_sells_relics_then_cards() {
    let mut game = game_with(vec![
        step("ShopExitStep", ""),
        step("ShopBuyCardStep", ""),
        step("ShopBuyCardStep", ""),
        step("ShopBuyRelicStep", ""),
        step("ShopBuyRelicStep", ""),
        step("ShopRemoveCardStep", ""),
    ]);
    game.gold = 150;
    game.shop.relics = vec![
        (RelicClass::Other(1), 200),
        (RelicClass::Other(2), 150),
        (RelicClass::Other(3), 140),
    ];
    game.shop.cards = vec![
        (class(CardName::Anger, CardType::Attack), 50),
        (class(CardName::DemonForm, CardType::Power), 160),
        (class(CardName::Inflame, CardType::Power), 75),
    ];
    game.master_deck = vec![in_deck(class(CardName::Strike, CardType::Attack))];
    assert_eq!(acts(&game), 5);
    game.master_deck = vec![in_deck(class(CardName::Bash, CardType::Attack))];
    assert_eq!(acts(&game), 4);
    game.gold = 100;
    assert_eq!(acts(&game), 2);
    game.gold = 60;
    assert_eq!(shop(&game, &weights()), 0);
    game.gold = 10;
    assert_eq!(shop(&game, &weights()), 0);
}

#[test]
fn events_are_left_and_no_potion_is_burnt() {
    let game = game_with(vec![
        step("UsePotionStep { i: 0 }", "skip this potion"),
        step("EventStep(0)", "Fight"),
        step("EventStep(1)", "LEAVE the place"),
    ]);
    assert_eq!(acts(&game), 2);
    let eager = vec![
        step("DiscardPotionStep { i: 0 }", "discard"),
        step("EventStep(0)", "Fight"),
        step("EventStep(1)", "Pray"),
    ];
    assert_eq!(generic(&eager), 1);
    let forced = vec![step("DiscardPotionStep { i: 0 }", "leave")];
    assert_eq!(generic(&forced), 0);
    for word in ["Ignore", "SKIP", "outRun", "Refuse", "Continue"] {
        let steps = vec![step("EventStep(0)", "Fight"), step("EventStep(1)", word)];
        assert_eq!(generic(&steps), 1, "{word}");
    }
}

#[test]
fn chests_are_opened_and_a_boss_relic_taken() {
    let chest = game_with(vec![step("SkipChestStep", "skip"), step("OpenChestStep", "open")]);
    assert_eq!(acts(&chest), 1);
    let shut = game_with(vec![step("Odd", ""), step("SkipChestStep", "skip")]);
    assert_eq!(acts(&shut), 0);
    let boss = game_with(vec![
        step("BossRewardSkipStep", "skip"),
        step("BossRewardChooseStep(1)", ""),
    ]);
    assert_eq!(acts(&boss), 1);
    assert_eq!(agent().act(&game_with(vec![])), 0);
}

#[test]
fn the_deck_loses_its_worst_and_upgrades_its_best() {
    let mut game = game_with(vec![
        step("ChooseRemoveFromMasterStep { i: 1 }", ""),
        step("ChooseRemoveFromMasterStep { i: 2 }", ""),
        step("ChooseRemoveFromMasterStep { i: 3 }", ""),
    ]);
    game.master_deck = vec![
        DeckCard { can_remove: false, ..in_deck(class(CardName::Other(9), CardType::Curse)) },
        in_deck(class(CardName::Defend, CardType::Skill)),
        in_deck(class(CardName::Strike, CardType::Attack)),
        in_deck(class(CardName::Inflame, CardType::Power)),
    ];
    assert_eq!(acts(&game), 1);
    for s in &mut game.steps {
        s.debug = s.debug.replace("RemoveFromMaster", "TransformMaster");
    }
    assert_eq!(acts(&game), 1);
    for s in &mut game.steps {
        s.debug = s.debug.replace("TransformMaster", "UpgradeMaster");
    }
    game.master_deck[0].can_upgrade = false;
    assert_eq!(acts(&game), 2);
    let picked = master_pick(&game, "ChooseUpgradeMasterStep", |c| c.can_upgrade, card_value);
    assert_eq!(picked, 2);
    assert_eq!(master_pick(&game, "AscendStep", |c| c.can_upgrade, card_value), 0);
}

#[test]
fn fights_go_to_the_fighter() {
    let mut game = game_with(vec![step("Odd", "leave"), step("EndTurnStep", "")]);
    game.steps[1].kind = StepKind::EndTurn;
    game.in_combat = true;
    let mut player = FullRunAgent::with_weights(GreedyAgent, weights());
    assert_eq!(player.act(&game), 1);
    game.in_combat = false;
    assert_eq!(player.act(&game), 0);
}

#[test]
fn the_tuned_weights_are_in_bounds() {
    let w = weights();
    assert_eq!(w.score_treasure, milli(6890));
    assert_eq!(w.score_monster, milli(-2450));
    assert_eq!(w.score_shop, milli(8720));
    assert_eq!(w.score_event, milli(2420));
    assert_eq!(w.score_campfire_low, milli(6530));
    assert_eq!(w.score_campfire_high, milli(4310));
    assert_eq!(w.score_elite_ok, milli(7280));
    assert_eq!(w.score_elite_bad, milli(-100000));
    assert_eq!(w.elite_hp, milli(921));
    assert_eq!(w.elite_deckpower, milli(26200));
    assert_eq!(w.rest_hp, milli(876));
    assert_eq!(w.reward_take, milli(2000));
    assert_eq!(w.shop_card, milli(5700));
    for i in 0..13 {
        assert!(WEIGHT_LOW[i] <= WEIGHT_BASE[i] && WEIGHT_BASE[i] <= WEIGHT_HIGH[i]);
    }
}

#[test]
fn weights_move_with_the_search_and_stop_at_their_bounds() {
    let mut x = vec![0; 13];
    x[0] = 500;
    x[1] = -1500;
    x[8] = 1000;
    x[9] = -1000;
    x[3] = 1;
    x[12] = i64::MAX;
    x[2] = i64::MIN;
    let w = Weights::from_x(&x);
    assert_eq!(w.score_treasure, milli(9890));
    assert_eq!(w.score_monster, milli(-11450));
    assert_eq!(w.score_event, milli(2426));
    assert_eq!(w.elite_hp, milli(1000));
    assert_eq!(w.elite_deckpower, milli(10000));
    assert_eq!(w.shop_card, milli(12000));
    assert_eq!(w.score_shop, milli(-20000));
    let p: Vec<i32> = (0..13).collect();
    let listed = Weights::from_params(&p);
    assert_eq!((listed.score_treasure, listed.elite_hp, listed.shop_card), (0, 8, 12));
}

#[test]
fn a_climb_ends_as_its_board_says() {
    let run = FullRun::begin();
    let mut game = game_with(vec![step("EventStep", "")]);
    game.floor = 9;
    game.player.cur_hp = 33;
    assert_eq!(run.check(&game), None);
    game.steps.push(step("BossRewardSkipStep", ""));
    assert_eq!(run.check(&game), Some(RunResult::Cleared { hp: 33, floor: 9 }));
    game.steps = vec![step("BossRewardChooseStep(0)", "")];
    assert_eq!(run.check(&game), Some(RunResult::Cleared { hp: 33, floor: 9 }));
    game.steps.clear();
    assert_eq!(run.check(&game), Some(RunResult::Stalled));
    game.status = GameStatus::Victory;
    assert_eq!(run.check(&game), Some(RunResult::Cleared { hp: 33, floor: 9 }));
    game.status = GameStatus::Defeat;
    assert_eq!(run.check(&game), Some(RunResult::Died { floor: 9 }));
}

#[test]
fn a_climb_is_given_up_when_long_or_late() {
    let mut run = FullRun::begin();
    for _ in 0..MAX_CLIMB_STEPS {
        assert_eq!(run.took(false), None);
    }
    assert_eq!(run.took(false), Some(RunResult::Stalled));
    let mut late = FullRun::begin();
    assert_eq!(late.took(true), Some(RunResult::Stalled));
}

#[test]
fn tickets_hand_out_seeds() {
    assert_eq!(claim(0, 2, 7, 0), Some(Job { seed: 7, fighter: Fighter::Greedy }));
    assert_eq!(
        claim(1, 2, u64::MAX, 30),
        Some(Job { seed: 0, fighter: Fighter::Search { iters: 30, seed: 0 } })
    );
    assert_eq!(claim(2, 2, 7, 0), None);
    assert_eq!(workers(0), 1);
    assert_eq!(workers(12), 12);
}

#[test]
fn a_climb_is_followed_from_fight_to_fight() {
    let mut game = game_with(vec![step("EventStep", "")]);
    let mut trace = Trace::begin(&game);
    assert_eq!(trace.observe(&game), Sighting::Nothing);
    game.in_combat = true;
    game.player.cur_hp = 70;
    assert_eq!(trace.observe(&game), Sighting::FightBegins);
    game.player.cur_hp = 52;
    assert_eq!(trace.observe(&game), Sighting::Nothing);
    game.in_combat = false;
    assert_eq!(trace.observe(&game), Sighting::FightEnds { lost: 18 });
    assert_eq!(trace.observe(&game), Sighting::Nothing);
    game.steps = vec![step("BossRewardChooseStep", "")];
    assert_eq!(trace.observe(&game), Sighting::Cleared);
    game.steps.clear();
    assert_eq!(trace.observe(&game), Sighting::Cleared);
    game.status = GameStatus::Defeat;
    assert_eq!(trace.observe(&game), Sighting::Died);
    for _ in 0..MAX_TRACE_STEPS {
        assert!(trace.took());
    }
    assert!(!trace.took());
}

#[test]
fn the_map_is_reported_with_all_its_options() {
    let game = fork_in_the_road();
    assert_eq!(
        map_options(&game, 1),
        Some((vec![Some(RoomType::Treasure), Some(RoomType::Monster)], Some(RoomType::Monster)))
    );
    assert_eq!(map_options(&game_with(vec![step("EventStep", "")]), 0), None);
}

#[test]
fn of_equals_the_first_is_taken() {
    let mut game = fork_in_the_road();
    game.map.nodes[0] = vec![node(Some(RoomType::Shop), vec![]), node(None, vec![9])];
    game.map.nodes[1] = vec![node(Some(RoomType::Shop), vec![]), node(Some(RoomType::Boss), vec![9])];
    assert!(is_choosable(&game));
    assert_eq!(acts(&game), 0);
    game.steps = vec![
        step("ShopBuyRelicStep", ""),
        step("ShopBuyRelicStep", ""),
        step("ShopBuyRelicStep", ""),
        step("ShopExitStep", ""),
    ];
    game.gold = 100;
    game.shop.relics = vec![
        (RelicClass::Other(1), 90),
        (RelicClass::Other(2), 101),
        (RelicClass::Other(3), 80),
        (RelicClass::Other(4), 80),
    ];
    assert_eq!(shop(&game, &weights()), 1);
    game.gold = i32::MAX;
    game.shop.relics = vec![(RelicClass::Other(1), i32::MAX)];
    assert_eq!(shop(&game, &weights()), 3);
}

#[test]
fn coordinates_behind_the_thirteenth_do_not_count() {
    let mut x = vec![250; 20];
    let long = Weights::from_x(&x);
    x.truncate(13);
    let short = Weights::from_x(&x);
    assert_eq!(format!("{long:?}"), format!("{short:?}"));
}

#[test]
fn a_score_is_asked_for_fitting_cards_only() {
    let mut game = game_with(vec![step("ChooseUpgradeMasterStep { i: 1 }", "")]);
    game.master_deck = vec![
        DeckCard { can_upgrade: false, ..in_deck(class(CardName::Other(9), CardType::Curse)) },
        in_deck(class(CardName::Bash, CardType::Attack)),
    ];
    let careful = |class: CardClass| {
        assert_ne!(class.ty, CardType::Curse);
        card_value(class)
    };
    assert_eq!(master_pick(&game, "ChooseUpgradeMasterStep", |c| c.can_upgrade, careful), 0);
}

#[test]
fn the_seeds_of_an_evaluation_are_all_different() {
    let mut seeds: Vec<u64> =
        (0..100).map(|i| claim(i, 100, u64::MAX - 40, 0).unwrap().seed).collect();
    assert_eq!(claim(100, 100, u64::MAX - 40, 0), None);
    seeds.sort();
    seeds.dedup();
    assert_eq!(seeds.len(), 100);
}
